//! Laws of memory virtualization: translation, and what a read gives back of a
//! write.
use crate::mem::{MemoryModel, Perm, PhysFault, TableModel, PAGE_WORDS};
use vstd::prelude::*;

verus! {

impl TableModel {
    /// Whether some guest page backed by host frame `hfn` may be written.
    pub open spec fn writes(self, hfn: u64) -> bool {
        exists|gpn: u64| #[trigger]
            self.map.contains_key(gpn) && self.map[gpn].hfn == hfn && self.map[gpn].perm.write
    }

    /// Law: translation yields only what the table maps. A successful translation
    /// lands inside the frame that backs the address's own page, and the mapping
    /// allows the access. An access to an unmapped page faults as unmapped, and one
    /// that the mapping forbids faults as a protection violation.
    pub proof fn law_translation_is_confined(self, gpa: u64, write: bool)
        ensures
            match self.translate(gpa, write) {
                Ok((hfn, offset)) => {
                    &&& self.reaches(hfn)
                    &&& write ==> self.writes(hfn)
                    &&& self.map.contains_pair(gpa / PAGE_WORDS, self.map[gpa / PAGE_WORDS])
                    &&& self.map[gpa / PAGE_WORDS].hfn == hfn
                    &&& self.map[gpa / PAGE_WORDS].perm.allows(write)
                    &&& offset < PAGE_WORDS
                    &&& (gpa / PAGE_WORDS) * PAGE_WORDS + offset == gpa
                },
                Err(PhysFault::Unmapped) => !self.map.contains_key(gpa / PAGE_WORDS),
                Err(PhysFault::Protection) => {
                    &&& self.map.contains_key(gpa / PAGE_WORDS)
                    &&& !self.map[gpa / PAGE_WORDS].perm.allows(write)
                },
            },
    {
    }

    /// No host frame backs two pages of the guest.
    pub open spec fn unaliased(self) -> bool {
        forall|p: u64, q: u64|
            #![trigger self.map.contains_key(p), self.map.contains_key(q)]
            self.map.contains_key(p) && self.map.contains_key(q) && self.map[p].hfn
                == self.map[q].hfn ==> p == q
    }

    /// Law: when no frame backs two pages, distinct addresses never alias. Two
    /// addresses that translate to the same host word are one.
    pub proof fn law_translation_is_injective(self, a: u64, b: u64, write_a: bool, write_b: bool)
        requires
            self.unaliased(),
            self.translate(a, write_a) is Ok,
            self.translate(a, write_a) == self.translate(b, write_b),
        ensures
            a == b,
    {
        assert(self.map.contains_key(a / PAGE_WORDS));
        assert(self.map.contains_key(b / PAGE_WORDS));
    }

    /// Law: the last mapping of a page wins, and it leaves every other page as it
    /// was.
    pub proof fn law_map_replaces(self, gpn: u64, hfn: u64, perm: Perm, gpa: u64, write: bool)
        ensures
            self.with(gpn, hfn, perm).translate(gpa, write) == (if gpa / PAGE_WORDS != gpn {
                self.translate(gpa, write)
            } else if perm.allows(write) {
                Ok((hfn, gpa % PAGE_WORDS))
            } else {
                Err(PhysFault::Protection)
            }),
    {
    }
}

impl MemoryModel {
    /// Law: a read gives back what was written last to the same word, and a write
    /// leaves every other word as it was.
    pub proof fn law_read_after_write(
        self,
        hfn: u64,
        offset: u64,
        value: u64,
        other_hfn: u64,
        other_offset: u64,
    )
        requires
            self.wf(),
            self.has_frame(hfn),
            offset < PAGE_WORDS,
            self.has_frame(other_hfn),
            other_offset < PAGE_WORDS,
        ensures
            self.with_word(hfn, offset, value).wf(),
            self.with_word(hfn, offset, value).word(other_hfn, other_offset) == (if other_hfn
                == hfn && other_offset == offset {
                value
            } else {
                self.word(other_hfn, other_offset)
            }),
    {
    }

    /// Whether the two memories hold the same in every frame that `table` maps.
    pub open spec fn agrees(self, other: MemoryModel, table: TableModel) -> bool {
        forall|hfn: u64| #[trigger]
            table.reaches(hfn) ==> {
                &&& self.has_frame(hfn) == other.has_frame(hfn)
                &&& self.has_frame(hfn) ==> self.frames[hfn as int] == other.frames[hfn as int]
            }
    }
}

} // verus!
