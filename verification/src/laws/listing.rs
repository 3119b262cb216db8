//! What the printed memory map says.
use crate::guest::GuestModel;
use crate::machine::MachineModel;
use crate::mem::Perm;
use vstd::prelude::*;

verus! {

/// The number that a row of decimal digits stands for.
pub open spec fn number_of(digits: Seq<char>) -> nat
    decreases digits.len(),
{
    if digits.len() == 0 {
        0
    } else {
        number_of(digits.drop_last()) * 10 + (digits.last() as nat - '0' as nat) as nat
    }
}

/// Whether `text` is a row of decimal digits without leading zeros.
pub open spec fn is_numeral(text: Seq<char>) -> bool {
    &&& text.len() > 0
    &&& forall|i: int| 0 <= i < text.len() ==> '0' <= #[trigger] text[i] <= '9'
    &&& text.len() > 1 ==> text[0] != '0'
}

/// Law: a printed number is its decimal digits, without leading zeros, and reads back as
/// the number.
pub proof fn law_decimal_reads_back(n: nat)
    ensures
        is_numeral(crate::text::decimal(n)),
        number_of(crate::text::decimal(n)) == n,
        n > 0 ==> crate::text::decimal(n)[0] != '0',
    decreases n,
{
    let text = crate::text::decimal(n);
    if n >= 10 {
        law_decimal_reads_back(n / 10);
        assert(text.drop_last() =~= crate::text::decimal(n / 10));
    } else {
        assert(text.drop_last() =~= Seq::empty());
        assert(number_of(text.drop_last()) == 0);
    }
}

/// Law: an aligned text is as long as the field or as the text, whichever is longer, ends
/// with the text, and holds nothing but spaces before it.
pub proof fn law_alignment(text: Seq<char>, width: nat)
    ensures
        ({
            let field = crate::text::right_aligned(text, width);
            let padding = field.len() - text.len();
            &&& field.len() == if text.len() < width {
                width
            } else {
                text.len()
            }
            &&& forall|i: int| 0 <= i < padding ==> #[trigger] field[i] == ' '
            &&& forall|i: int| 0 <= i < text.len() ==> #[trigger] field[padding + i] == text[i]
        }),
{
}

impl GuestModel {
    /// Law: a line of the memory map shows the guest page, the host frame, each in a
    /// field of three, and the access: `rw` for reading and writing, `ro` for reading
    /// alone, and `--` without reading.
    pub proof fn law_mapping_line(gpn: u64, hfn: u64, perm: Perm)
        ensures
            ({
                let page = crate::text::right_aligned(crate::text::decimal(gpn as nat), 3);
                let frame = crate::text::right_aligned(crate::text::decimal(hfn as nat), 3);
                let access = match (perm.read, perm.write) {
                    (true, true) => seq!['r', 'w'],
                    (true, false) => seq!['r', 'o'],
                    (false, _) => seq!['-', '-'],
                };
                GuestModel::mapping_line((gpn, hfn, perm)) == seq![' ', ' ', 'g', 'p', 'n', ' ']
                    + page + seq![' ', '-', '>', ' ', 'h', 'f', 'n', ' '] + frame + seq![
                    ' ',
                    ' ',
                    '[',
                ] + access + seq![']', '\n']
            }),
    {
        reveal_strlit("  gpn ");
        reveal_strlit(" -> hfn ");
        reveal_strlit("  [");
        reveal_strlit("rw");
        reveal_strlit("ro");
        reveal_strlit("--");
        reveal_strlit("]\n");
        assert("  gpn "@ =~= seq![' ', ' ', 'g', 'p', 'n', ' ']);
        assert(" -> hfn "@ =~= seq![' ', '-', '>', ' ', 'h', 'f', 'n', ' ']);
        assert("  ["@ =~= seq![' ', ' ', '[']);
        assert("rw"@ =~= seq!['r', 'w']);
        assert("ro"@ =~= seq!['r', 'o']);
        assert("--"@ =~= seq!['-', '-']);
        assert("]\n"@ =~= seq![']', '\n']);
    }

    /// Law: a guest's memory map names the guest, by id and name, and then has one line for
    /// each of its mappings, in page order. It shows nothing else of the guest.
    pub proof fn law_guest_map(self)
        ensures
            self.memory_map() == seq!['g', 'u', 'e', 's', 't', ' '] + crate::text::decimal(
                self.id as nat,
            ) + seq![' ', '"'] + self.name + seq![
                '"',
                ' ',
                'G',
                'P',
                'A',
                ' ',
                '-',
                '>',
                ' ',
                'H',
                'P',
                'A',
                '\n',
            ] + self.page_table.entries().flat_map(
                |entry: (u64, u64, Perm)| GuestModel::mapping_line(entry),
            ),
    {
        reveal_strlit("guest ");
        reveal_strlit(" \"");
        reveal_strlit("\" GPA -> HPA\n");
        assert("guest "@ =~= seq!['g', 'u', 'e', 's', 't', ' ']);
        assert(" \""@ =~= seq![' ', '"']);
        assert("\" GPA -> HPA\n"@ =~= seq![
            '"',
            ' ',
            'G',
            'P',
            'A',
            ' ',
            '-',
            '>',
            ' ',
            'H',
            'P',
            'A',
            '\n',
        ]);
        Self::lemma_lines(self.page_table.entries());
    }

    proof fn lemma_lines(entries: Seq<(u64, u64, Perm)>)
        ensures
            Self::mapping_lines(entries) == entries.flat_map(
                |entry: (u64, u64, Perm)| GuestModel::mapping_line(entry),
            ),
        decreases entries.len(),
    {
        let line = |entry: (u64, u64, Perm)| GuestModel::mapping_line(entry);
        let lines = entries.map_values(line);
        lines.lemma_flatten_and_flatten_alt_are_equivalent();
        if entries.len() > 0 {
            let rest = entries.drop_last();
            Self::lemma_lines(rest);
            rest.map_values(line).lemma_flatten_and_flatten_alt_are_equivalent();
            assert(lines.drop_last() =~= rest.map_values(line));
        }
    }
}

impl MachineModel {
    /// Law: the memory map is the maps of all guests, in order, whatever their state.
    pub proof fn law_memory_map(self)
        ensures
            self.memory_map(self.guests.len() as int) == self.guests.flat_map(
                |guest: GuestModel| guest.memory_map(),
            ),
    {
        self.lemma_memory_map(self.guests.len() as int);
        assert(self.guests.take(self.guests.len() as int) =~= self.guests);
    }

    proof fn lemma_memory_map(self, n: int)
        requires
            0 <= n <= self.guests.len(),
        ensures
            self.memory_map(n) == self.guests.take(n).flat_map(
                |guest: GuestModel| guest.memory_map(),
            ),
        decreases n,
    {
        let map = |guest: GuestModel| guest.memory_map();
        let maps = self.guests.take(n).map_values(map);
        maps.lemma_flatten_and_flatten_alt_are_equivalent();
        if n > 0 {
            self.lemma_memory_map(n - 1);
            let rest = self.guests.take(n - 1).map_values(map);
            rest.lemma_flatten_and_flatten_alt_are_equivalent();
            assert(maps.drop_last() =~= rest);
        }
    }

    /// Law: running does not change the memory map. Guests that have stopped are still
    /// on it, with all their mappings.
    pub proof fn law_run_keeps_memory_map(self)
        ensures
            self.run() matches Some((m, rounds)) ==> m.memory_map(m.guests.len() as int)
                == self.memory_map(self.guests.len() as int),
    {
        self.law_run_keeps_setup();
        if let Some((m, rounds)) = self.run() {
            self.law_memory_map();
            m.law_memory_map();
            let map = |guest: GuestModel| guest.memory_map();
            assert forall|i: int| 0 <= i < self.guests.len() implies (
            #[trigger] m.guests[i]).memory_map() == self.guests[i].memory_map() by {
                m.guests[i].law_guest_map();
                self.guests[i].law_guest_map();
            }
            assert(m.guests.map_values(map) =~= self.guests.map_values(map));
        }
    }
}

} // verus!
