//! Laws of isolation: guests map disjoint frames, and a slice touches nothing of
//! another guest.
use crate::device::{RingModel, SharedRing};
use crate::machine::{MachineModel, SliceModel, Turn};
use crate::mem::{MemoryModel, Perm, PAGE_WORDS};
use vstd::prelude::*;

verus! {

impl SliceModel {
    /// The ring of a guest depends only on how the rings are bound.
    pub proof fn lemma_ring_of(rings: Seq<RingModel>, guest_id: u32)
        ensures
            Self::ring_of(rings, guest_id) matches Some(k) ==> Self::first_ring(rings, guest_id, k),
            forall|k: int| #[trigger]
                Self::first_ring(rings, guest_id, k) ==> Self::ring_of(rings, guest_id) == Some(k),
    {
        assert forall|k: int| #[trigger] Self::first_ring(rings, guest_id, k) implies Self::ring_of(
            rings,
            guest_id,
        ) == Some(k) by {
            let c = choose|c: int| Self::first_ring(rings, guest_id, c);
            assert(Self::first_ring(rings, guest_id, c));
            assert(!(c < k) && !(k < c));
        }
    }

    /// A guest without a ring is the guest of no ring.
    pub proof fn lemma_ring_exists(rings: Seq<RingModel>, guest_id: u32, n: int)
        requires
            Self::ring_of(rings, guest_id) is None,
            0 <= n <= rings.len(),
        ensures
            forall|k: int| 0 <= k < n ==> (#[trigger] rings[k]).guest_id != guest_id,
        decreases n,
    {
        if n > 0 {
            Self::lemma_ring_exists(rings, guest_id, n - 1);
            if rings[n - 1].guest_id == guest_id {
                assert(Self::first_ring(rings, guest_id, n - 1));
            }
        }
    }

    /// Rings that are bound alike give a guest the same ring.
    pub proof fn lemma_ring_of_same(a: Seq<RingModel>, b: Seq<RingModel>, guest_id: u32)
        requires
            a.len() == b.len(),
            forall|k: int|
                #![trigger a[k]]
                #![trigger b[k]]
                0 <= k < a.len() ==> a[k].guest_id == b[k].guest_id,
        ensures
            Self::ring_of(a, guest_id) == Self::ring_of(b, guest_id),
    {
        Self::lemma_ring_of(a, guest_id);
        Self::lemma_ring_of(b, guest_id);
        if let Some(k) = Self::ring_of(a, guest_id) {
            assert(Self::first_ring(b, guest_id, k));
        }
        if let Some(k) = Self::ring_of(b, guest_id) {
            assert(Self::first_ring(a, guest_id, k));
        }
    }

    /// Whether a slice of this guest may change host frame `hfn`: the guest may
    /// write it, or it backs the guest's ring.
    pub open spec fn touches(self, hfn: u64) -> bool {
        ||| self.guest.page_table.writes(hfn)
        ||| Self::ring_of(self.rings, self.guest.id) matches Some(k) && self.rings[k].hfn == hfn
    }

    /// Whether `later` differs from this slice only where the guest may cause it:
    /// in frames it touches, in its own ring, in the guest itself, and in the log. Of
    /// a ring frame that the guest may not write, only the consumer index differs.
    pub open spec fn confines(self, later: SliceModel) -> bool {
        &&& self.keeps(later)
        &&& forall|hfn: u64|
            self.mem.has_frame(hfn) && !self.touches(hfn)
                ==> #[trigger] later.mem.frames[hfn as int] == self.mem.frames[hfn as int]
        &&& self.mem.wf() ==> {
            &&& later.mem.wf()
            &&& forall|hfn: u64, offset: u64|
                self.mem.has_frame(hfn) && !self.guest.page_table.writes(hfn) && offset < PAGE_WORDS
                    && offset != SharedRing::TAIL ==> #[trigger] later.mem.word(hfn, offset)
                    == self.mem.word(hfn, offset)
        }
        &&& forall|k: int|
            0 <= k < self.rings.len() && Self::ring_of(self.rings, self.guest.id) != Some(k)
                ==> #[trigger] later.rings[k] == self.rings[k]
    }

    proof fn lemma_turn_is_confined(self)
        ensures
            self.turn() matches Some((s, turn)) ==> self.confines(s),
    {
        reveal(SliceModel::turn);
        self.lemma_turn_keeps();
        Self::lemma_ring_of(self.rings, self.guest.id);
        self.guest.vcpu.law_step_writes_are_confined(
            self.guest.program,
            self.guest.page_table,
            self.mem,
        );
    }

    proof fn lemma_confines_composes(self, middle: SliceModel, later: SliceModel)
        requires
            self.confines(middle),
            middle.confines(later),
        ensures
            self.confines(later),
    {
        Self::lemma_ring_of(self.rings, self.guest.id);
        Self::lemma_ring_of_same(self.rings, middle.rings, self.guest.id);
        assert forall|hfn: u64| self.mem.has_frame(hfn) && !self.touches(hfn) implies
            #[trigger] later.mem.frames[hfn as int] == self.mem.frames[hfn as int] by {
            assert(!middle.touches(hfn));
            assert(middle.mem.frames[hfn as int] == self.mem.frames[hfn as int]);
        }
    }

    /// Law: a slice is confined. It changes no frame that its guest may not write,
    /// other than the consumer index in the guest's own ring frame, and no other
    /// guest's ring.
    pub proof fn law_slice_is_confined(self, quantum: nat, ran: nat)
        ensures
            self.slice(quantum, ran) matches Some((s, all)) ==> self.confines(s),
        decreases quantum - ran, self.guest.program.len() - self.guest.vcpu.pc,
    {
        if ran < quantum {
            self.lemma_turn_progress();
            self.lemma_turn_is_confined();
            match self.turn() {
                Some((s, Turn::Retired)) => {
                    s.law_slice_is_confined(quantum, ran + 1);
                    if let Some((last, all)) = s.slice(quantum, ran + 1) {
                        self.lemma_confines_composes(s, last);
                    }
                },
                Some((s, Turn::Resumed)) => {
                    s.law_slice_is_confined(quantum, ran);
                    if let Some((last, all)) = s.slice(quantum, ran) {
                        self.lemma_confines_composes(s, last);
                    }
                },
                _ => {},
            }
        }
    }
}

impl MachineModel {
    /// Whether guest `i` maps page `gpn`.
    pub open spec fn maps(self, i: int, gpn: u64) -> bool {
        0 <= i < self.guests.len() && self.guests[i].page_table.map.contains_key(gpn)
    }

    /// The host frame behind page `gpn` of guest `i`.
    pub open spec fn backing(self, i: int, gpn: u64) -> u64 {
        self.guests[i].page_table.map[gpn].hfn
    }

    /// No host frame backs two pages, neither of two guests nor of one.
    pub open spec fn exclusive(self) -> bool {
        forall|i: int, p: u64, j: int, q: u64|
            #![trigger self.maps(i, p), self.maps(j, q)]
            self.maps(i, p) && self.maps(j, q) && self.backing(i, p) == self.backing(j, q) ==> i
                == j && p == q
    }

    /// Every frame that a guest maps or that backs a ring has been handed out, and
    /// host memory is no larger than frame numbers can tell apart.
    pub open spec fn handed_out(self) -> bool {
        &&& self.mem.next_free <= self.mem.frames.len() <= u64::MAX
        &&& forall|i: int, p: u64| #[trigger]
            self.maps(i, p) ==> self.backing(i, p) < self.mem.next_free
        &&& forall|k: int|
            0 <= k < self.rings.len() ==> (#[trigger] self.rings[k]).hfn < self.mem.next_free
    }

    /// Every ring is bound to a guest. Its frame backs no other ring and is mapped
    /// by no other guest.
    pub open spec fn rings_private(self) -> bool {
        &&& forall|k: int|
            0 <= k < self.rings.len() ==> (#[trigger] self.rings[k]).guest_id < self.guests.len()
        &&& forall|k: int, l: int|
            0 <= k < l < self.rings.len() ==> (#[trigger] self.rings[k]).hfn != (
            #[trigger] self.rings[l]).hfn
        &&& forall|k: int, i: int, p: u64|
            #![trigger self.rings[k], self.maps(i, p)]
            0 <= k < self.rings.len() && self.maps(i, p) && self.backing(i, p) == self.rings[k].hfn
                ==> i == self.rings[k].guest_id
    }

    /// Guests are numbered by their place.
    pub open spec fn numbered(self) -> bool {
        forall|i: int| 0 <= i < self.guests.len() ==> (#[trigger] self.guests[i]).id == i
    }

    /// The isolation invariant: every frame in use is owned by one guest, privately
    /// or shared with the host, and no frame is reachable by two guests.
    pub open spec fn isolated(self) -> bool {
        &&& self.exclusive()
        &&& self.handed_out()
        &&& self.rings_private()
        &&& self.numbered()
    }

    /// Law: under the isolation invariant no host frame is reachable by two
    /// different guests.
    pub proof fn law_guests_are_disjoint(self, i: int, j: int, hfn: u64)
        requires
            self.exclusive(),
            0 <= i < self.guests.len(),
            0 <= j < self.guests.len(),
            self.guests[i].page_table.reaches(hfn),
            self.guests[j].page_table.reaches(hfn),
        ensures
            i == j,
    {
        let p = choose|p: u64| #[trigger]
            self.guests[i].page_table.map.contains_key(p) && self.guests[i].page_table.map[p].hfn
                == hfn;
        let q = choose|q: u64| #[trigger]
            self.guests[j].page_table.map.contains_key(q) && self.guests[j].page_table.map[q].hfn
                == hfn;
        assert(self.maps(i, p) && self.maps(j, q));
    }

    /// Law: a machine that has just been created is isolated.
    pub proof fn law_boot_is_isolated(frame_count: nat, quantum: u64)
        requires
            frame_count <= u64::MAX,
        ensures
            Self::booted(frame_count, quantum).isolated(),
    {
    }

    /// Law: adding a guest keeps the machine isolated, because its frames come
    /// fresh from the allocator.
    pub proof fn law_add_guest_keeps_isolation(
        self,
        name: Seq<char>,
        program: Seq<crate::cpu::Instr>,
        pages: u64,
        perm: Perm,
    )
        requires
            self.isolated(),
            self.mem.next_free + pages <= self.mem.frames.len(),
            self.guests.len() <= u32::MAX,
        ensures
            self.with_guest(name, program, pages, perm).isolated(),
    {
        let m = self.with_guest(name, program, pages, perm);
        let n = self.guests.len() as int;
        assert forall|i: int, p: u64| #[trigger] m.maps(i, p) implies if i == n {
            p < pages && m.backing(i, p) == self.mem.next_free + p
        } else {
            self.maps(i, p) && m.backing(i, p) == self.backing(i, p)
        } by {}
    }

    /// Law: attaching a ring keeps the machine isolated. The ring's frame is fresh,
    /// and only the guest it is granted to maps it.
    pub proof fn law_attach_ring_keeps_isolation(self, guest_id: u32, gpn: u64)
        requires
            self.isolated(),
            guest_id < self.guests.len(),
            self.mem.next_free < self.mem.frames.len(),
        ensures
            self.with_ring(guest_id, gpn).isolated(),
            forall|i: int, p: u64| #[trigger]
                self.with_ring(guest_id, gpn).maps(i, p) && self.with_ring(guest_id, gpn).backing(
                    i,
                    p,
                ) == self.mem.next_free ==> i == guest_id && p == gpn,
    {
        let m = self.with_ring(guest_id, gpn);
        assert forall|i: int, p: u64| #[trigger] m.maps(i, p) implies if i == guest_id && p == gpn {
            m.backing(i, p) == self.mem.next_free
        } else {
            self.maps(i, p) && m.backing(i, p) == self.backing(i, p)
        } by {}
    }

    /// Law: sharing a frame keeps the machine isolated when the frame has been
    /// handed out, no other page maps it, and it backs no other guest's ring.
    /// Otherwise the two guests share it, which is what the caller asks for.
    pub proof fn law_share_frame_keeps_isolation(self, i: int, gpn: u64, hfn: u64, perm: Perm)
        requires
            self.isolated(),
            0 <= i < self.guests.len(),
            hfn < self.mem.next_free,
            forall|j: int, q: u64| #[trigger]
                self.maps(j, q) && self.backing(j, q) == hfn ==> j == i && q == gpn,
            forall|k: int|
                0 <= k < self.rings.len() && (#[trigger] self.rings[k]).hfn == hfn
                    ==> self.rings[k].guest_id == i,
        ensures
            self.with_mapping(i, gpn, hfn, perm).isolated(),
    {
        let m = self.with_mapping(i, gpn, hfn, perm);
        assert forall|j: int, p: u64| #[trigger] m.maps(j, p) implies if j == i && p == gpn {
            m.backing(j, p) == hfn
        } else {
            self.maps(j, p) && m.backing(j, p) == self.backing(j, p)
        } by {}
    }

    /// Law: sharing is the only way to reach another guest's frame, and it is
    /// explicit. After a frame is shared, a guest maps exactly what it mapped
    /// before, but for the one page that was named.
    pub proof fn law_sharing_is_explicit(self, i: int, gpn: u64, hfn: u64, perm: Perm)
        requires
            0 <= i < self.guests.len(),
        ensures
            forall|j: int, p: u64|
                (j != i || p != gpn) ==> {
                    &&& #[trigger] self.with_mapping(i, gpn, hfn, perm).maps(j, p) == self.maps(
                        j,
                        p,
                    )
                    &&& self.maps(j, p) ==> self.with_mapping(i, gpn, hfn, perm).backing(j, p)
                        == self.backing(j, p)
                },
    {
    }

    /// What is kept by running keeps the machine isolated.
    pub proof fn lemma_keeps_isolation(self, later: MachineModel)
        requires
            self.isolated(),
            self.keeps(later),
        ensures
            later.isolated(),
    {
        assert forall|i: int, p: u64| #[trigger] later.maps(i, p) implies self.maps(i, p)
            && later.backing(i, p) == self.backing(i, p) by {}
    }

    /// Law: guest execution cannot change who owns a frame. An isolated machine is
    /// isolated after any run, whatever its guests do.
    pub proof fn law_run_keeps_isolation(self)
        requires
            self.isolated(),
        ensures
            self.run() matches Some((m, rounds)) ==> m.isolated(),
    {
        self.law_run_keeps_setup();
        if let Some((m, rounds)) = self.run() {
            self.lemma_keeps_isolation(m);
        }
    }

    /// Every frame that has not been handed out is zeroed.
    pub open spec fn pristine(self) -> bool {
        forall|f: int|
            self.mem.next_free <= f < self.mem.frames.len() ==> #[trigger] self.mem.frames[f]
                == MemoryModel::zeroed_frame()
    }

    /// Law: frames start zeroed. A machine that has just been created holds nothing
    /// but zeroes.
    pub proof fn law_boot_is_pristine(frame_count: nat, quantum: u64)
        ensures
            Self::booted(frame_count, quantum).pristine(),
    {
    }

    /// Law: handing frames out touches none of them, so a guest or a ring gets zeroed
    /// frames and leaves zeroed frames for the next.
    pub proof fn law_handing_out_keeps_pristine(
        self,
        name: Seq<char>,
        program: Seq<crate::cpu::Instr>,
        pages: u64,
        perm: Perm,
        guest_id: u32,
        gpn: u64,
    )
        requires
            self.pristine(),
        ensures
            self.with_guest(name, program, pages, perm).pristine(),
            self.with_guest(name, program, pages, perm).mem.frames == self.mem.frames,
            self.with_ring(guest_id, gpn).pristine(),
            self.with_ring(guest_id, gpn).mem.frames == self.mem.frames,
    {
    }

    /// Law: no guest of an isolated machine can reach a frame that has not been
    /// handed out, so those frames are still zeroed after a run.
    pub proof fn law_run_keeps_pristine(self)
        requires
            self.isolated(),
            self.pristine(),
        ensures
            self.run() matches Some((m, rounds)) ==> m.pristine(),
    {
        let start = MachineModel { budget_exhausted: false, ..self };
        self.lemma_keeps_isolation(start);
        start.lemma_run_keeps_pristine(0);
    }

    proof fn lemma_round_keeps_pristine(self, from: int)
        requires
            self.isolated(),
            self.pristine(),
            0 <= from,
        ensures
            self.round_from(from) matches Some(m) ==> m.pristine(),
        decreases self.guests.len() - from,
    {
        if from < self.guests.len() {
            let part = self.part(from);
            self.lemma_run_slice_keeps(from);
            part.law_slice_is_confined(self.quantum as nat, 0);
            if let Some(m) = self.run_slice(from) {
                self.lemma_keeps_isolation(m);
                SliceModel::lemma_ring_of(self.rings, part.guest.id);
                assert forall|f: int| m.mem.next_free <= f < m.mem.frames.len() implies
                    #[trigger] m.mem.frames[f] == MemoryModel::zeroed_frame() by {
                    let hfn = f as u64;
                    if part.guest.page_table.writes(hfn) {
                        let gpn = choose|gpn: u64| #[trigger]
                            part.guest.page_table.map.contains_key(gpn)
                                && part.guest.page_table.map[gpn].hfn == hfn
                                && part.guest.page_table.map[gpn].perm.write;
                        assert(self.maps(from, gpn));
                    }
                    assert(!part.touches(hfn));
                    assert(m.mem.frames[hfn as int] == self.mem.frames[hfn as int]);
                }
                m.lemma_round_keeps_pristine(from + 1);
            }
        }
    }

    proof fn lemma_run_keeps_pristine(self, rounds: nat)
        requires
            self.isolated(),
            self.pristine(),
        ensures
            self.run_from(rounds) matches Some((m, all)) ==> m.pristine(),
        decreases self.max_rounds - rounds,
    {
        if self.any_runnable() {
            self.lemma_round_keeps_pristine(0);
            self.lemma_round_keeps(0);
            if let Some(m) = self.round() {
                self.lemma_keeps_isolation(m);
                if rounds + 1 < self.max_rounds {
                    m.lemma_run_keeps_pristine(rounds + 1);
                }
            }
        }
    }
}

} // verus!
