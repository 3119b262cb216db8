//! Memory virtualization: guest physical to host physical address translation.
//!
//! Host physical memory is a flat pool of fixed size frames. Each guest owns a
//! second level page table (a SLAT, the equivalent of an EPT or a nested page
//! table) that maps its guest page numbers to host frame numbers with access
//! permissions. Address units are machine words (`u64`), so a "guest physical
//! address" here is a word index into the guest's own physical space.
//!
//! A guest can only reach a host frame that its own page table maps. An access
//! to an unmapped guest page, or a write to a read only page, faults instead of
//! touching host memory.
use std::collections::BTreeMap;
use vstd::prelude::*;

verus! {

/// Words per page (and per host frame). Small on purpose so the memory map is
/// easy to print and reason about.
pub const PAGE_WORDS: u64 = 16;

/// [`PAGE_WORDS`] as the length of a frame's backing array.
pub const FRAME_WORDS: usize = 16;

/// Access permission bits for a mapping.
#[derive(Debug, Clone, Copy, PartialEq, Eq)]
pub struct Perm {
    pub read: bool,
    pub write: bool,
}

impl Perm {
    /// Read and write.
    #[must_use]
    pub fn rw() -> (perm: Self)
        ensures
            perm == (Perm { read: true, write: true }),
    {
        Self { read: true, write: true }
    }

    /// Read only.
    #[must_use]
    pub fn ro() -> (perm: Self)
        ensures
            perm == (Perm { read: true, write: false }),
    {
        Self { read: true, write: false }
    }

    /// Whether an access in the given direction is permitted.
    pub open spec fn allows(self, write: bool) -> bool {
        if write {
            self.write
        } else {
            self.read
        }
    }
}

/// Why a guest physical access could not be completed.
#[derive(Debug, Clone, Copy, PartialEq, Eq)]
pub enum PhysFault {
    /// The guest page number has no mapping in this guest's page table.
    Unmapped,
    /// The mapping exists but forbids the attempted access (for example a write
    /// to a read only page).
    Protection,
}

/// A single second level mapping entry.
#[derive(Debug, Clone, Copy, PartialEq, Eq)]
pub struct Pte {
    pub hfn: u64,
    pub perm: Perm,
}

/// What host memory holds: the words of every frame, and the number of frames
/// handed out so far.
#[verifier::ext_equal]
pub struct MemoryModel {
    pub frames: Seq<Seq<u64>>,
    pub next_free: nat,
}

impl MemoryModel {
    /// Every frame is one page long.
    pub open spec fn wf(self) -> bool {
        forall|f: int|
            0 <= f < self.frames.len() ==> (#[trigger] self.frames[f]).len() == PAGE_WORDS
    }

    /// Whether host frame `hfn` exists.
    pub open spec fn has_frame(self, hfn: u64) -> bool {
        hfn < self.frames.len()
    }

    /// The word at `offset` in host frame `hfn`.
    pub open spec fn word(self, hfn: u64, offset: u64) -> u64 {
        self.frames[hfn as int][offset as int]
    }

    /// This memory after `value` is written at `offset` in host frame `hfn`.
    pub open spec fn with_word(self, hfn: u64, offset: u64, value: u64) -> MemoryModel {
        MemoryModel {
            frames: self.frames.update(
                hfn as int,
                self.frames[hfn as int].update(offset as int, value),
            ),
            ..self
        }
    }

    /// A frame of zeroes.
    pub open spec fn zeroed_frame() -> Seq<u64> {
        Seq::new(PAGE_WORDS as nat, |w: int| 0u64)
    }

    /// Memory of `frame_count` zeroed frames, none of them handed out.
    pub open spec fn zeroed(frame_count: nat) -> MemoryModel {
        MemoryModel {
            frames: Seq::new(frame_count, |f: int| Self::zeroed_frame()),
            next_free: 0,
        }
    }
}

/// What a page table holds: the entry of every mapped guest page.
#[verifier::ext_equal]
pub struct TableModel {
    pub map: Map<u64, Pte>,
}

impl TableModel {
    /// Second level address translation of guest physical address `gpa`.
    pub open spec fn translate(self, gpa: u64, write: bool) -> Result<(u64, u64), PhysFault> {
        let gpn: u64 = gpa / PAGE_WORDS;
        if !self.map.contains_key(gpn) {
            Err(PhysFault::Unmapped)
        } else if !self.map[gpn].perm.allows(write) {
            Err(PhysFault::Protection)
        } else {
            Ok((self.map[gpn].hfn, gpa % PAGE_WORDS))
        }
    }

    /// Whether some guest page is backed by host frame `hfn`.
    pub open spec fn reaches(self, hfn: u64) -> bool {
        exists|gpn: u64| #[trigger] self.map.contains_key(gpn) && self.map[gpn].hfn == hfn
    }

    /// Every host frame this table maps exists in `mem`.
    pub open spec fn fits(self, mem: MemoryModel) -> bool {
        forall|gpn: u64| #[trigger] self.map.contains_key(gpn) ==> mem.has_frame(self.map[gpn].hfn)
    }

    /// This table with guest page `gpn` mapped to host frame `hfn`.
    pub open spec fn with(self, gpn: u64, hfn: u64, perm: Perm) -> TableModel {
        TableModel { map: self.map.insert(gpn, Pte { hfn, perm }) }
    }

    /// A table that maps pages `0..pages` to the frames from `first` up, in order.
    pub open spec fn contiguous(first: nat, pages: u64, perm: Perm) -> TableModel {
        TableModel {
            map: Map::new(
                |gpn: u64| gpn < pages,
                |gpn: u64| Pte { hfn: (first + gpn) as u64, perm },
            ),
        }
    }

    /// Whether `list` holds exactly this table's mappings as `(gpn, hfn, perm)`,
    /// each once, ordered by guest page number.
    pub open spec fn listed_by(self, list: Seq<(u64, u64, Perm)>) -> bool {
        &&& forall|i: int, j: int|
            0 <= i < j < list.len() ==> (#[trigger] list[i]).0 < (#[trigger] list[j]).0
        &&& forall|i: int|
            0 <= i < list.len() ==> self.map.contains_key((#[trigger] list[i]).0)
                && self.map[list[i].0] == (Pte { hfn: list[i].1, perm: list[i].2 })
        &&& forall|gpn: u64| #[trigger]
            self.map.contains_key(gpn) ==> exists|i: int|
                0 <= i < list.len() && (#[trigger] list[i]).0 == gpn
    }

    /// The mappings as `(gpn, hfn, perm)`, ordered by guest page number.
    pub open spec fn entries(self) -> Seq<(u64, u64, Perm)> {
        choose|list: Seq<(u64, u64, Perm)>| self.listed_by(list)
    }

    /// Two ordered lists of the same mappings are the same list.
    pub proof fn lemma_listing_unique(self, a: Seq<(u64, u64, Perm)>, b: Seq<(u64, u64, Perm)>)
        requires
            self.listed_by(a),
            self.listed_by(b),
        ensures
            a == b,
    {
        assert forall|n: int| 0 <= n <= a.len() && n <= b.len() implies #[trigger] a.take(n)
            == b.take(n) by {
            self.lemma_listing_prefix(a, b, n as nat);
        }
        if a.len() < b.len() {
            let n = a.len() as int;
            let gpn = b[n].0;
            assert(self.map.contains_key(gpn));
            let i = choose|i: int| 0 <= i < a.len() && (#[trigger] a[i]).0 == gpn;
            assert(a.take(n) == b.take(n));
            assert(a.take(n)[i] == b.take(n)[i]);
            assert(b[i].0 < b[n].0);
        } else if b.len() < a.len() {
            let n = b.len() as int;
            let gpn = a[n].0;
            assert(self.map.contains_key(gpn));
            let i = choose|i: int| 0 <= i < b.len() && (#[trigger] b[i]).0 == gpn;
            assert(a.take(n) == b.take(n));
            assert(a.take(n)[i] == b.take(n)[i]);
            assert(a[i].0 < a[n].0);
        } else {
            let n = a.len() as int;
            assert(a.take(n) == b.take(n));
            assert(a.take(n) =~= a);
            assert(b.take(n) =~= b);
        }
    }

    proof fn lemma_listing_prefix(
        self,
        a: Seq<(u64, u64, Perm)>,
        b: Seq<(u64, u64, Perm)>,
        n: nat,
    )
        requires
            self.listed_by(a),
            self.listed_by(b),
            n <= a.len(),
            n <= b.len(),
        ensures
            a.take(n as int) == b.take(n as int),
        decreases n,
    {
        if n > 0 {
            let k = n - 1;
            self.lemma_listing_prefix(a, b, k as nat);
            assert forall|i: int| 0 <= i < k implies a[i] == b[i] by {
                assert(a.take(k)[i] == b.take(k)[i]);
            }
            assert(self.map.contains_key(a[k].0));
            assert(self.map.contains_key(b[k].0));
            let i = choose|i: int| 0 <= i < b.len() && (#[trigger] b[i]).0 == a[k].0;
            let j = choose|j: int| 0 <= j < a.len() && (#[trigger] a[j]).0 == b[k].0;
            if i < k {
                assert(a[i].0 < a[k].0);
            }
            if j < k {
                assert(b[j].0 < b[k].0);
            }
            if k < i {
                assert(b[k].0 < b[i].0);
                if k < j {
                    assert(a[k].0 < a[j].0);
                }
            }
            assert(a[k].0 == b[k].0);
            assert(a.take(n as int) =~= a.take(k).push(a[k]));
            assert(b.take(n as int) =~= b.take(k).push(b[k]));
        }
    }

    /// An ordered list of the mappings is the list [`Self::entries`] names.
    pub proof fn lemma_entries(self, list: Seq<(u64, u64, Perm)>)
        requires
            self.listed_by(list),
        ensures
            self.entries() == list,
    {
        self.lemma_listing_unique(self.entries(), list);
    }
}

/// Host physical memory: a pool of frames shared by all guests.
///
/// A frame belongs to exactly one purpose. The hypervisor hands frame numbers to
/// guests through their page tables, and the disjointness of those handouts is
/// what keeps guests isolated.
#[derive(Debug, Clone)]
pub struct HostMemory {
    frames: Vec<[u64; FRAME_WORDS]>,
    next_free: u64,
}

impl View for HostMemory {
    type V = MemoryModel;

    closed spec fn view(&self) -> MemoryModel {
        MemoryModel {
            frames: Seq::new(self.frames@.len(), |f: int| self.frames@[f]@),
            next_free: self.next_free as nat,
        }
    }
}

impl HostMemory {
    /// A host memory is well formed, has as many frames as the machine can
    /// index, and counts its handed out frames in a machine word.
    pub proof fn lemma_bounds(&self)
        ensures
            self@.wf(),
            self@.frames.len() <= usize::MAX,
            self@.next_free <= u64::MAX,
    {
        assert(self@.frames.len() == self.frames.len());
    }

    /// Create host memory with `frame_count` zeroed frames.
    #[must_use]
    pub fn new(frame_count: u64) -> (mem: Self)
        requires
            frame_count <= usize::MAX,
        ensures
            mem@ == MemoryModel::zeroed(frame_count as nat),
    {
        let mem = Self { frames: vec![[0u64; FRAME_WORDS]; frame_count as usize], next_free: 0 };
        proof {
            assert forall|f: int| 0 <= f < frame_count implies #[trigger] mem@.frames[f]
                =~= MemoryModel::zeroed_frame() by {
                assert(cloned([0u64; FRAME_WORDS], mem.frames@[f]));
            }
            assert(mem@ =~= MemoryModel::zeroed(frame_count as nat));
        }
        mem
    }

    /// Total number of host frames.
    #[must_use]
    pub fn frame_count(&self) -> (count: u64)
        ensures
            count == self@.frames.len(),
    {
        self.frames.len() as u64
    }

    /// Allocate the next free host frame, returning its number.
    ///
    /// The caller makes sure host memory is not exhausted.
    pub fn alloc_frame(&mut self) -> (hfn: u64)
        requires
            old(self)@.next_free < old(self)@.frames.len(),
        ensures
            hfn == old(self)@.next_free,
            final(self)@ == (MemoryModel { next_free: old(self)@.next_free + 1, ..old(self)@ }),
    {
        let hfn: u64 = self.next_free;
        assert(self@.frames.len() == self.frames.len());
        self.next_free = self.next_free + 1;
        hfn
    }

    /// Read a word directly from a host frame. This is the raw host side access
    /// used by translation; guests never call it directly.
    #[must_use]
    pub fn read_word(&self, hfn: u64, offset: u64) -> (word: u64)
        requires
            self@.has_frame(hfn),
            offset < PAGE_WORDS,
        ensures
            word == self@.word(hfn, offset),
    {
        assert(self@.frames.len() == self.frames.len());
        self.frames[hfn as usize][offset as usize]
    }

    /// Write a word directly to a host frame.
    pub fn write_word(&mut self, hfn: u64, offset: u64, value: u64)
        requires
            old(self)@.has_frame(hfn),
            offset < PAGE_WORDS,
        ensures
            final(self)@ == old(self)@.with_word(hfn, offset, value),
    {
        assert(self@.frames.len() == self.frames.len());
        self.frames[hfn as usize][offset as usize] = value;
        assert(self@.frames =~= old(self)@.with_word(hfn, offset, value).frames);
    }
}

/// A per guest second level page table mapping guest page numbers to host frame
/// numbers.
#[derive(Debug, Clone)]
pub struct PageTable {
    entries: BTreeMap<u64, Pte>,
}

impl View for PageTable {
    type V = TableModel;

    closed spec fn view(&self) -> TableModel {
        TableModel { map: self.entries@ }
    }
}

impl Default for PageTable {
    fn default() -> (table: Self)
        ensures
            table@ == (TableModel { map: Map::<u64, Pte>::empty() }),
    {
        Self::new()
    }
}

impl PageTable {
    /// Create an empty page table.
    #[must_use]
    pub fn new() -> (table: Self)
        ensures
            table@ == (TableModel { map: Map::<u64, Pte>::empty() }),
    {
        Self { entries: BTreeMap::new() }
    }

    /// Map guest page `gpn` to host frame `hfn` with the given permission. A
    /// mapping that the page had before is replaced.
    pub fn map(&mut self, gpn: u64, hfn: u64, perm: Perm)
        ensures
            final(self)@ == old(self)@.with(gpn, hfn, perm),
    {
        self.entries.insert(gpn, Pte { hfn, perm });
    }

    /// The host frame number backing guest page `gpn`, if mapped.
    #[must_use]
    pub fn host_frame(&self, gpn: u64) -> (hfn: Option<u64>)
        ensures
            hfn == (if self@.map.contains_key(gpn) {
                Some(self@.map[gpn].hfn)
            } else {
                None
            }),
    {
        match self.entries.get(&gpn) {
            Some(pte) => Some(pte.hfn),
            None => None,
        }
    }

    /// The host frame numbers this page table can reach, ordered by the guest
    /// page they back.
    #[must_use]
    pub fn mapped_frames(&self) -> (frames: Vec<u64>)
        ensures
            self@.listed_by(self@.entries()),
            frames@ == self@.entries().map_values(|entry: (u64, u64, Perm)| entry.1),
    {
        let entries = self.iter();
        let mut frames: Vec<u64> = Vec::new();
        let mut i: usize = 0;
        while i < entries.len()
            invariant
                i <= entries.len(),
                frames@ == entries@.take(i as int).map_values(|entry: (u64, u64, Perm)| entry.1),
            decreases entries.len() - i,
        {
            frames.push(entries[i].1);
            assert(entries@.take(i + 1) =~= entries@.take(i as int).push(entries@[i as int]));
            i = i + 1;
        }
        assert(entries@.take(i as int) =~= entries@);
        frames
    }

    /// The mappings as `(gpn, hfn, perm)`, ordered by guest page number.
    #[must_use]
    pub fn iter(&self) -> (list: Vec<(u64, u64, Perm)>)
        ensures
            self@.listed_by(list@),
            list@ == self@.entries(),
    {
        let mappings = self.entries.iter();
        let ghost all = vstd::std_specs::iter::IteratorSpec::remaining(&mappings);
        let mut list: Vec<(u64, u64, Perm)> = Vec::new();
        for (gpn, pte) in it: mappings
            invariant
                it.seq() == all,
                list@.len() == it.index(),
                forall|i: int|
                    0 <= i < list@.len() ==> #[trigger] list@[i] == (
                        *all[i].0,
                        all[i].1.hfn,
                        all[i].1.perm,
                    ),
        {
            list.push((*gpn, pte.hfn, pte.perm));
        }
        proof {
            let keys = all.map_values(|kv: (&u64, &Pte)| *kv.0);
            assert(vstd::std_specs::btree::increasing_seq(keys));
            assert forall|i: int, j: int| 0 <= i < j < list@.len() implies (#[trigger] list@[i]).0
                < (#[trigger] list@[j]).0 by {
                assert(vstd::std_specs::cmp::OrdSpec::cmp_spec(&keys[i], &keys[j]) is Less);
            }
            assert forall|gpn: u64| #[trigger] self@.map.contains_key(gpn) implies exists|i: int|
                0 <= i < list@.len() && (#[trigger] list@[i]).0 == gpn by {
                assert(all.contains((&gpn, &self.entries@[gpn])));
                let i = all.index_of((&gpn, &self.entries@[gpn]));
                assert(list@[i].0 == gpn);
            }
            self@.lemma_entries(list@);
        }
        list
    }

    /// Translate a guest physical address (a word index) plus the intended
    /// access into a concrete `(hfn, offset)` host location, or a fault.
    ///
    /// This is second level address translation. It is the only path a guest has
    /// to host memory, and it enforces both presence and permission.
    pub fn translate(&self, gpa: u64, write: bool) -> (place: Result<(u64, u64), PhysFault>)
        ensures
            place == self@.translate(gpa, write),
    {
        let gpn: u64 = gpa / PAGE_WORDS;
        let offset: u64 = gpa % PAGE_WORDS;
        match self.entries.get(&gpn) {
            None => Err(PhysFault::Unmapped),
            Some(pte) => {
                if write && !pte.perm.write {
                    return Err(PhysFault::Protection);
                }
                if !write && !pte.perm.read {
                    return Err(PhysFault::Protection);
                }
                Ok((pte.hfn, offset))
            },
        }
    }
}

} // verus!
