//! A guest virtual machine: one vCPU, one guest physical address space, one
//! program, and one console.
//!
//! A guest bundles everything private to a single VM. Its page table is the sole
//! description of which host frames it can reach, so two guests are isolated
//! exactly when their page tables map disjoint host frames.
use crate::cpu::{Instr, VCpu, VCpuModel};
use crate::device::VirtualConsole;
use crate::mem::{PageTable, Perm, TableModel};
use crate::text::{push_aligned, push_decimal};
use vstd::prelude::*;

verus! {

/// The conversion of a string slice to a string (`String::from`) copies its
/// characters.
pub assume_specification<'a>[ <String as From<&'a str>>::from ](text: &str) -> (string: String)
    ensures
        string@ == text@,
;

/// The lifecycle state of a guest.
#[derive(Debug, Clone, Copy, PartialEq, Eq)]
pub enum GuestState {
    /// Runnable and not yet halted or faulted.
    Running,
    /// Executed a halt or ran off the end of its program.
    Halted,
    /// Took an unrecoverable memory fault or an invalid operation. The hypervisor
    /// stopped it.
    Faulted,
}

/// A single guest VM, as mathematical values.
#[verifier::ext_equal]
pub struct GuestModel {
    pub id: u32,
    pub name: Seq<char>,
    pub vcpu: VCpuModel,
    pub page_table: TableModel,
    pub program: Seq<Instr>,
    pub console: Seq<u8>,
    pub state: GuestState,
    pub io_exits: nat,
    pub cr_exits: nat,
    pub fault_exits: nat,
}

impl GuestModel {
    /// A guest that has not run yet.
    pub open spec fn fresh(
        id: u32,
        name: Seq<char>,
        program: Seq<Instr>,
        page_table: TableModel,
    ) -> GuestModel {
        GuestModel {
            id,
            name,
            vcpu: VCpuModel::reset(),
            page_table,
            program,
            console: Seq::empty(),
            state: GuestState::Running,
            io_exits: 0,
            cr_exits: 0,
            fault_exits: 0,
        }
    }

    /// One line of the memory map: a guest page, the host frame behind it, and the
    /// access it allows.
    pub open spec fn mapping_line(entry: (u64, u64, Perm)) -> Seq<char> {
        "  gpn "@ + crate::text::right_aligned(crate::text::decimal(entry.0 as nat), 3)
            + " -> hfn "@ + crate::text::right_aligned(crate::text::decimal(entry.1 as nat), 3)
            + "  ["@ + (if entry.2.read && entry.2.write {
            "rw"@
        } else if entry.2.read {
            "ro"@
        } else {
            "--"@
        }) + "]\n"@
    }

    /// The memory map lines of `entries`, in order.
    pub open spec fn mapping_lines(entries: Seq<(u64, u64, Perm)>) -> Seq<char>
        decreases entries.len(),
    {
        if entries.len() == 0 {
            Seq::empty()
        } else {
            Self::mapping_lines(entries.drop_last()) + Self::mapping_line(entries.last())
        }
    }

    /// The memory map of this guest: a heading and one line per mapping, ordered
    /// by guest page.
    pub open spec fn memory_map(self) -> Seq<char> {
        "guest "@ + crate::text::decimal(self.id as nat) + " \""@ + self.name
            + "\" GPA -> HPA\n"@ + Self::mapping_lines(self.page_table.entries())
    }

    /// How many exits this guest has taken: those counted by category, and the one
    /// that halted it.
    pub open spec fn exits_taken(self) -> nat {
        self.io_exits + self.cr_exits + self.fault_exits + (if self.state is Halted {
            1nat
        } else {
            0
        })
    }

    /// How many exits `guests` have taken together.
    pub open spec fn all_exits_taken(guests: Seq<GuestModel>) -> nat
        decreases guests.len(),
    {
        if guests.len() == 0 {
            0
        } else {
            Self::all_exits_taken(guests.drop_last()) + guests.last().exits_taken()
        }
    }

    /// No guest has taken more exits than all together, and the sum changes with one
    /// guest by what that guest's exits change.
    pub proof fn lemma_all_exits_taken(guests: Seq<GuestModel>, i: int, guest: GuestModel)
        requires
            0 <= i < guests.len(),
        ensures
            guests[i].exits_taken() <= Self::all_exits_taken(guests),
            Self::all_exits_taken(guests.update(i, guest)) - Self::all_exits_taken(guests)
                == guest.exits_taken() - guests[i].exits_taken(),
        decreases guests.len(),
    {
        let rest = guests.drop_last();
        if i < rest.len() {
            Self::lemma_all_exits_taken(rest, i, guest);
            assert(guests.update(i, guest).drop_last() =~= rest.update(i, guest));
        } else {
            assert(guests.update(i, guest).drop_last() =~= rest);
        }
    }

    /// Whether the scheduler should still give this guest time.
    pub open spec fn runnable(self) -> bool {
        self.state is Running
    }
}

/// A single guest VM.
#[derive(Debug, Clone)]
pub struct Guest {
    pub id: u32,
    pub name: String,
    pub vcpu: VCpu,
    pub page_table: PageTable,
    pub program: Vec<Instr>,
    pub console: VirtualConsole,
    pub state: GuestState,
    /// VM exits taken by this guest, by category.
    pub io_exits: u64,
    pub cr_exits: u64,
    pub fault_exits: u64,
}

impl View for Guest {
    type V = GuestModel;

    open spec fn view(&self) -> GuestModel {
        GuestModel {
            id: self.id,
            name: self.name@,
            vcpu: self.vcpu@,
            page_table: self.page_table@,
            program: self.program@,
            console: self.console@,
            state: self.state,
            io_exits: self.io_exits as nat,
            cr_exits: self.cr_exits as nat,
            fault_exits: self.fault_exits as nat,
        }
    }
}

impl Guest {
    /// Create a runnable guest. Its name is what `name` converts to.
    #[must_use]
    pub fn new<N: Into<String>>(
        id: u32,
        name: N,
        program: Vec<Instr>,
        page_table: PageTable,
    ) -> (guest: Self)
        ensures
            call_ensures(N::into, (name,), guest.name),
            guest@ == GuestModel::fresh(id, guest.name@, program@, page_table@),
    {
        Self {
            id,
            name: name.into(),
            vcpu: VCpu::new(),
            page_table,
            program,
            console: VirtualConsole::new(),
            state: GuestState::Running,
            io_exits: 0,
            cr_exits: 0,
            fault_exits: 0,
        }
    }

    /// Whether the scheduler should still give this guest time.
    #[must_use]
    pub fn is_runnable(&self) -> (yes: bool)
        ensures
            yes == self@.runnable(),
    {
        matches!(self.state, GuestState::Running)
    }

    /// Append this guest's memory map.
    pub(crate) fn push_memory_map(&self, out: &mut String)
        ensures
            final(out)@ == old(out)@ + self@.memory_map(),
    {
        out.append("guest ");
        push_decimal(out, self.id as u64);
        out.append(" \"");
        out.append(self.name.as_str());
        out.append("\" GPA -> HPA\n");
        let ghost heading = out@;
        let entries = self.page_table.iter();
        let mut i: usize = 0;
        assert(entries@.take(0) =~= Seq::empty());
        while i < entries.len()
            invariant
                i <= entries.len(),
                out@ == heading + GuestModel::mapping_lines(entries@.take(i as int)),
            decreases entries.len() - i,
        {
            let (gpn, hfn, perm) = entries[i];
            let ghost before = out@;
            out.append("  gpn ");
            push_aligned(out, gpn, 3);
            out.append(" -> hfn ");
            push_aligned(out, hfn, 3);
            out.append("  [");
            out.append(
                match (perm.read, perm.write) {
                    (true, true) => "rw",
                    (true, false) => "ro",
                    _ => "--",
                },
            );
            out.append("]\n");
            proof {
                assert(out@ =~= before + GuestModel::mapping_line(entries@[i as int]));
                let next = entries@.take(i + 1);
                assert(next.drop_last() =~= entries@.take(i as int));
                assert(out@ =~= heading + GuestModel::mapping_lines(next));
            }
            i = i + 1;
        }
        assert(entries@.take(i as int) =~= entries@);
        assert(out@ =~= old(out)@ + self@.memory_map());
    }
}

} // verus!
