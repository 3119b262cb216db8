//! What page tables and host memory are, page by page and word by word.
use crate::mem::{MemoryModel, Perm, PhysFault, TableModel};
use vstd::prelude::*;

verus! {

impl TableModel {
    /// Law: an access reaches the host frame that its page maps, at the address's place
    /// in the page of sixteen words, exactly when the page is mapped and its
    /// permission grants the direction of the access. Otherwise it faults: as unmapped
    /// without a mapping, as a protection violation with one.
    pub proof fn law_translates_as_mapped(self, gpa: u64)
        ensures
            ({
                let gpn = gpa / 16;
                let pte = self.map[gpn];
                &&& !self.map.contains_key(gpn) ==> {
                    &&& self.translate(gpa, false) == Err::<(u64, u64), _>(PhysFault::Unmapped)
                    &&& self.translate(gpa, true) == Err::<(u64, u64), _>(PhysFault::Unmapped)
                }
                &&& self.map.contains_key(gpn) ==> {
                    &&& self.translate(gpa, false) == if pte.perm.read {
                        Ok((pte.hfn, gpa % 16))
                    } else {
                        Err(PhysFault::Protection)
                    }
                    &&& self.translate(gpa, true) == if pte.perm.write {
                        Ok((pte.hfn, gpa % 16))
                    } else {
                        Err(PhysFault::Protection)
                    }
                }
            }),
    {
    }

    /// Law: mapping a page gives it that frame and that permission and leaves every
    /// other page as it was.
    pub proof fn law_maps_one_page(self, gpn: u64, hfn: u64, perm: Perm, other: u64)
        ensures
            ({
                let table = self.with(gpn, hfn, perm);
                &&& table.map.contains_key(gpn)
                &&& table.map[gpn].hfn == hfn
                &&& table.map[gpn].perm.read == perm.read
                &&& table.map[gpn].perm.write == perm.write
                &&& other != gpn ==> {
                    &&& table.map.contains_key(other) == self.map.contains_key(other)
                    &&& self.map.contains_key(other) ==> table.map[other] == self.map[other]
                }
            }),
    {
    }

    /// Law: a list of the mappings names every mapped page once, in ascending order,
    /// with its frame and its permission, and no other page.
    pub proof fn law_list_is_complete(self, list: Seq<(u64, u64, Perm)>)
        requires
            self.listed_by(list),
        ensures
            self.entries() == list,
            forall|i: int, j: int|
                0 <= i < j < list.len() ==> (#[trigger] list[i]).0 < (#[trigger] list[j]).0,
            forall|i: int|
                0 <= i < list.len() ==> {
                    &&& self.map.contains_key((#[trigger] list[i]).0)
                    &&& list[i].1 == self.map[list[i].0].hfn
                    &&& list[i].2.read == self.map[list[i].0].perm.read
                    &&& list[i].2.write == self.map[list[i].0].perm.write
                },
            forall|gpn: u64| #[trigger]
                self.map.contains_key(gpn) ==> exists|i: int|
                    0 <= i < list.len() && (#[trigger] list[i]).0 == gpn,
    {
        self.lemma_entries(list);
    }

    /// Law: a frame is reached exactly when some page maps it, and a table fits a memory
    /// exactly when every frame it maps is one of the memory's.
    pub proof fn law_reach(self, mem: MemoryModel, hfn: u64)
        ensures
            self.reaches(hfn) <==> exists|gpn: u64|
                self.map.contains_key(gpn) && (#[trigger] self.map[gpn]).hfn == hfn,
            self.fits(mem) <==> forall|gpn: u64|
                self.map.contains_key(gpn) ==> (#[trigger] self.map[gpn]).hfn < mem.frames.len(),
    {
        if self.reaches(hfn) {
            let gpn = choose|gpn: u64| #[trigger]
                self.map.contains_key(gpn) && self.map[gpn].hfn == hfn;
            assert(self.map[gpn].hfn == hfn);
        }
    }
}

impl MemoryModel {
    /// Law: memory starts as so many frames of sixteen zeroes, none handed out.
    pub proof fn law_starts_zeroed(frame_count: nat)
        ensures
            ({
                let mem = MemoryModel::zeroed(frame_count);
                &&& mem.next_free == 0
                &&& mem.frames.len() == frame_count
                &&& forall|f: int|
                    0 <= f < frame_count ==> (#[trigger] mem.frames[f]).len() == 16
                &&& forall|f: int, w: int|
                    0 <= f < frame_count && 0 <= w < 16 ==> #[trigger] mem.frames[f][w] == 0
            }),
    {
    }

    /// Law: a write changes the one word it names and nothing else, and a read gives
    /// the word it names.
    pub proof fn law_writes_one_word(self, hfn: u64, offset: u64, value: u64)
        requires
            hfn < self.frames.len(),
            offset < self.frames[hfn as int].len(),
        ensures
            self.has_frame(hfn),
            self.word(hfn, offset) == self.frames[hfn as int][offset as int],
            ({
                let mem = self.with_word(hfn, offset, value);
                &&& mem.next_free == self.next_free
                &&& mem.frames.len() == self.frames.len()
                &&& mem.frames[hfn as int].len() == self.frames[hfn as int].len()
                &&& mem.frames[hfn as int][offset as int] == value
                &&& forall|f: int|
                    0 <= f < self.frames.len() && f != hfn ==> #[trigger] mem.frames[f]
                        == self.frames[f]
                &&& forall|w: int|
                    0 <= w < self.frames[hfn as int].len() && w != offset
                        ==> #[trigger] mem.frames[hfn as int][w] == self.frames[hfn as int][w]
            }),
    {
    }

    /// Law: a frame exists exactly below the number of frames.
    pub proof fn law_frames_are_counted(self, hfn: u64)
        ensures
            self.has_frame(hfn) <==> hfn < self.frames.len(),
    {
    }
}

impl Perm {
    /// Law: the permission for writing decides writes and the one for reading reads.
    pub proof fn law_directions(self)
        ensures
            self.allows(true) == self.write,
            self.allows(false) == self.read,
    {
    }
}

} // verus!
