//! Laws of independence: what becomes of a guest depends only on what is its own,
//! whoever its neighbors are and wherever its memory lies.
use crate::cpu::{ExitReason, Instr};
use crate::device::RingModel;
use crate::machine::{MachineModel, SliceModel};
use crate::mem::{MemoryModel, Perm};
use vstd::prelude::*;

verus! {

impl MachineModel {
    /// Whether guest `i` is apart from the others: no other guest has its id, and no
    /// frame of its is another guest's.
    pub open spec fn apart(self, i: int) -> bool {
        &&& 0 <= i < self.guests.len()
        &&& forall|j: int|
            0 <= j < self.guests.len() && j != i ==> (#[trigger] self.guests[j]).id
                != self.guests[i].id
        &&& forall|j: int, hfn: u64|
            #![trigger self.part(j).holds(hfn)]
            0 <= j < self.guests.len() && j != i && self.part(i).holds(hfn) ==> !self.part(j).holds(
                hfn,
            )
    }

    /// Law: in an isolated machine every guest is apart from the others.
    pub proof fn law_isolated_guests_are_apart(self, i: int)
        requires
            self.isolated(),
            0 <= i < self.guests.len(),
        ensures
            self.apart(i),
    {
        assert forall|j: int, hfn: u64|
            #![trigger self.part(j).holds(hfn)]
            0 <= j < self.guests.len() && j != i && self.part(i).holds(
                hfn,
            ) implies !self.part(j).holds(hfn) by {
            let (a, b) = (self.guests[i], self.guests[j]);
            SliceModel::lemma_ring_of(self.rings, a.id);
            SliceModel::lemma_ring_of(self.rings, b.id);
            if a.page_table.reaches(hfn) {
                let p = choose|p: u64| #[trigger]
                    a.page_table.map.contains_key(p) && a.page_table.map[p].hfn == hfn;
                assert(self.maps(i, p) && self.backing(i, p) == hfn);
            }
            if b.page_table.reaches(hfn) {
                let q = choose|q: u64| #[trigger]
                    b.page_table.map.contains_key(q) && b.page_table.map[q].hfn == hfn;
                assert(self.maps(j, q) && self.backing(j, q) == hfn);
            }
            if let Some(k) = SliceModel::ring_of(self.rings, a.id) {
                if let Some(l) = SliceModel::ring_of(self.rings, b.id) {
                    if k < l {
                        assert(self.rings[k].hfn != self.rings[l].hfn);
                    } else {
                        assert(self.rings[l].hfn != self.rings[k].hfn);
                    }
                }
            }
        }
    }

    /// What is kept by running keeps a guest apart.
    pub proof fn lemma_keeps_apart(self, later: MachineModel, i: int)
        requires
            self.apart(i),
            self.keeps(later),
        ensures
            later.apart(i),
    {
        assert forall|j: int, hfn: u64| 0 <= j < self.guests.len() implies later.part(j).holds(hfn)
            == #[trigger] self.part(j).holds(hfn) by {
            let id = self.guests[j].id;
            assert(later.guests[j].id == id);
            SliceModel::lemma_ring_of(self.rings, id);
            SliceModel::lemma_ring_of_same(self.rings, later.rings, id);
        }
        assert forall|j: int| 0 <= j < later.guests.len() && j != i implies (
        #[trigger] later.guests[j]).id != later.guests[i].id by {
            assert(self.guests[j].id != self.guests[i].id);
        }
        assert forall|j: int, hfn: u64|
            #![trigger later.part(j).holds(hfn)]
            0 <= j < later.guests.len() && j != i && later.part(i).holds(
                hfn,
            ) implies !later.part(j).holds(hfn) by {
            assert(self.part(i).holds(hfn));
            assert(!self.part(j).holds(hfn));
        }
    }

    /// Law: a slice leaves the neighbors untouched. While guest `j` runs, a guest that
    /// is apart from it keeps its vCPU, console and state, every frame it maps, its
    /// ring, and the frame behind its ring, and no exit is recorded for it.
    pub proof fn law_slice_leaves_neighbors(self, i: int, j: int)
        requires
            self.apart(i),
            0 <= j < self.guests.len(),
            i != j,
        ensures
            self.run_slice(j) matches Some(m) ==> {
                &&& m.guests[i] == self.guests[i]
                &&& forall|hfn: u64|
                    self.part(i).holds(hfn) && self.mem.has_frame(hfn)
                        ==> #[trigger] m.mem.frames[hfn as int] == self.mem.frames[hfn as int]
                &&& forall|k: int|
                    0 <= k < self.rings.len() && self.rings[k].guest_id == self.guests[i].id
                        ==> #[trigger] m.rings[k] == self.rings[k]
                &&& m.part(i).history(self.exits.len()) == Seq::<(usize, ExitReason)>::empty()
                &&& m.part(i).alike(self.part(i))
            },
    {
        let part = self.part(j);
        let id = self.guests[i].id;
        self.lemma_run_slice_keeps(j);
        part.law_slice_is_confined(self.quantum as nat, 0);
        part.law_slice_is_explained(self.quantum as nat, 0);
        self.part(i).lemma_alike_itself();
        assert(self.guests[j].id != id);
        if let Some(m) = self.run_slice(j) {
            SliceModel::lemma_ring_of(self.rings, id);
            SliceModel::lemma_ring_of(self.rings, part.guest.id);
            SliceModel::lemma_ring_of_same(self.rings, m.rings, id);
            assert forall|hfn: u64|
                self.part(i).holds(hfn) && self.mem.has_frame(
                    hfn,
                ) implies #[trigger] m.mem.frames[hfn as int] == self.mem.frames[hfn as int] by {
                assert(!part.holds(hfn));
                if part.guest.page_table.writes(hfn) {
                    assert(part.guest.page_table.reaches(hfn));
                }
            }
            assert forall|x: u64, y: u64| #[trigger] m.part(i).paired(self.part(i), x, y) implies x
                == y && self.part(i).holds(x) by {}
            assert(self.exits.is_prefix_of(m.exits));
            let fresh = m.exits.skip(self.exits.len() as int);
            if self.guests[j].runnable() {
                assert(fresh == crate::laws::emulation::new_records(part.exits, m.exits));
            }
            assert forall|n: int| 0 <= n < fresh.len() implies (#[trigger] fresh[n]).guest_id
                != id by {}
            crate::laws::alike::lemma_no_exits(fresh, id);
        }
    }

    /// While guest `j` runs, guest `i` stays as it is, with the exits it has taken.
    pub proof fn lemma_neighbor_parallels(self, i: int, j: int, since: nat)
        requires
            self.apart(i),
            0 <= j < self.guests.len(),
            i != j,
            since <= self.exits.len(),
        ensures
            self.run_slice(j) matches Some(m) ==> {
                &&& m.part(i).parallels(self.part(i), since, since)
                &&& m.apart(i)
                &&& self.keeps(m)
            },
    {
        self.law_slice_leaves_neighbors(i, j);
        self.lemma_run_slice_keeps(j);
        if let Some(m) = self.run_slice(j) {
            self.lemma_keeps_apart(m, i);
            m.part(i).lemma_history_splits(self.part(i), since);
            assert(self.part(i).history(since) + Seq::<(usize, ExitReason)>::empty()
                =~= self.part(i).history(since));
        }
    }

    /// Slices of the guests after `i` leave guest `i` as it is.
    proof fn lemma_round_after(self, i: int, from: int, since: nat)
        requires
            self.apart(i),
            i < from,
            since <= self.exits.len(),
        ensures
            self.round_from(from) matches Some(m) ==> m.part(i).parallels(
                self.part(i),
                since,
                since,
            ),
        decreases self.guests.len() - from,
    {
        self.part(i).lemma_alike_itself();
        if from < self.guests.len() {
            self.lemma_neighbor_parallels(i, from, since);
            if let Some(m) = self.run_slice(from) {
                m.lemma_round_after(i, from + 1, since);
                if let Some(last) = m.round_from(from + 1) {
                    last.part(i).lemma_parallels_composes(
                        m.part(i),
                        self.part(i),
                        since,
                        since,
                        since,
                    );
                }
            }
        }
    }

    /// Law: a round depends, for each guest, only on what is the guest's own. Take two
    /// machines with the same quantum that are alike for guest `i` of one and guest
    /// `j` of the other, each apart from its neighbors. They are alike for them after
    /// a round, and the guests have taken the same exits, whatever the others do.
    pub proof fn law_round_depends_on_own_state(self, other: MachineModel, i: int, j: int)
        requires
            self.apart(i),
            other.apart(j),
            self.quantum == other.quantum,
            self.part(i).alike(other.part(j)),
        ensures
            self.round() matches Some(m) ==> (other.round() matches Some(n) ==> m.part(
                i,
            ).parallels(n.part(j), self.exits.len(), other.exits.len())),
    {
        self.part(i).lemma_alike_parallels(other.part(j));
        self.lemma_round_of_alike(other, i, j, 0, 0, self.exits.len(), other.exits.len());
    }

    proof fn lemma_round_of_alike(
        self,
        other: MachineModel,
        i: int,
        j: int,
        from: int,
        other_from: int,
        since: nat,
        other_since: nat,
    )
        requires
            self.apart(i),
            other.apart(j),
            0 <= from <= i,
            0 <= other_from <= j,
            self.quantum == other.quantum,
            self.part(i).parallels(other.part(j), since, other_since),
        ensures
            self.round_from(from) matches Some(m) ==> (other.round_from(other_from) matches Some(n)
                ==> m.part(i).parallels(n.part(j), since, other_since)),
        decreases (i - from) + (j - other_from),
    {
        if from < i {
            self.lemma_neighbor_parallels(i, from, since);
            if let Some(m) = self.run_slice(from) {
                m.part(i).lemma_parallels_composes(
                    self.part(i),
                    other.part(j),
                    since,
                    since,
                    other_since,
                );
                m.lemma_round_of_alike(other, i, j, from + 1, other_from, since, other_since);
            }
        } else if other_from < j {
            other.lemma_neighbor_parallels(j, other_from, other_since);
            if let Some(n) = other.run_slice(other_from) {
                n.part(j).lemma_parallels_turn(other.part(j), other_since, other_since);
                self.part(i).lemma_parallels_composes(
                    other.part(j),
                    n.part(j),
                    since,
                    other_since,
                    other_since,
                );
                self.lemma_round_of_alike(n, i, j, from, other_from + 1, since, other_since);
            }
        } else {
            self.part(i).lemma_slice_of_alike(
                other.part(j),
                self.quantum as nat,
                0,
                since,
                other_since,
            );
            self.lemma_run_slice_keeps(i);
            other.lemma_run_slice_keeps(j);
            if let Some(m) = self.run_slice(i) {
                if let Some(n) = other.run_slice(j) {
                    assert(m.part(i).parallels(n.part(j), since, other_since));
                    self.lemma_keeps_apart(m, i);
                    other.lemma_keeps_apart(n, j);
                    m.lemma_round_after(i, i + 1, since);
                    n.lemma_round_after(j, j + 1, other_since);
                    if let Some(last) = m.round_from(i + 1) {
                        if let Some(other_last) = n.round_from(j + 1) {
                            last.part(i).lemma_parallels_bridge(
                                m.part(i),
                                n.part(j),
                                other_last.part(j),
                                since,
                                other_since,
                            );
                        }
                    }
                }
            }
        }
    }

    /// A round leaves a guest that is not runnable as it is.
    proof fn lemma_round_of_stopped(self, i: int, from: int, since: nat)
        requires
            self.apart(i),
            0 <= from,
            !self.guests[i].runnable(),
            since <= self.exits.len(),
        ensures
            self.round_from(from) matches Some(m) ==> m.part(i).parallels(
                self.part(i),
                since,
                since,
            ),
        decreases self.guests.len() - from,
    {
        self.part(i).lemma_alike_itself();
        if from < self.guests.len() {
            if from != i {
                self.lemma_neighbor_parallels(i, from, since);
            }
            if let Some(m) = self.run_slice(from) {
                m.lemma_round_of_stopped(i, from + 1, since);
                if let Some(last) = m.round_from(from + 1) {
                    last.part(i).lemma_parallels_composes(
                        m.part(i),
                        self.part(i),
                        since,
                        since,
                        since,
                    );
                }
            }
        }
    }

    /// A run leaves a guest that is not runnable as it is.
    proof fn lemma_run_of_stopped(self, i: int, rounds: nat, since: nat)
        requires
            self.apart(i),
            !self.guests[i].runnable(),
            since <= self.exits.len(),
        ensures
            self.run_from(rounds) matches Some((m, all)) ==> m.part(i).parallels(
                self.part(i),
                since,
                since,
            ),
        decreases self.max_rounds - rounds,
    {
        self.part(i).lemma_alike_itself();
        if self.any_runnable() {
            self.lemma_round_of_stopped(i, 0, since);
            self.lemma_round_keeps(0);
            if let Some(m) = self.round() {
                self.lemma_keeps_apart(m, i);
                if rounds + 1 < self.max_rounds {
                    m.lemma_run_of_stopped(i, rounds + 1, since);
                    if let Some((last, all)) = m.run_from(rounds + 1) {
                        last.part(i).lemma_parallels_composes(
                            m.part(i),
                            self.part(i),
                            since,
                            since,
                            since,
                        );
                    }
                } else {
                    let last = MachineModel { budget_exhausted: m.any_runnable(), ..m };
                    assert(last.part(i) == m.part(i));
                }
            }
        }
    }

    /// Law: what becomes of a guest does not depend on its neighbors. Take two machines
    /// with the same quantum that are alike for guest `i` of one and guest `j` of the
    /// other, each apart from its neighbors, and run both, so that both finish within
    /// their budget or both perform as many rounds. Then they are alike for them
    /// again: the guests have the same vCPU, console, state and counts, find the same
    /// in their memory, the host has received the same through their rings, and they
    /// have taken the same exits, at the same places and for the same reasons.
    pub proof fn law_run_depends_on_own_state(self, other: MachineModel, i: int, j: int)
        requires
            self.apart(i),
            other.apart(j),
            self.quantum == other.quantum,
            self.part(i).alike(other.part(j)),
        ensures
            self.run() matches Some((m, rounds)) ==> (other.run() matches Some((n, other_rounds))
                ==> ((!m.budget_exhausted && !n.budget_exhausted || rounds == other_rounds)
                ==> m.part(i).parallels(n.part(j), self.exits.len(), other.exits.len()))),
    {
        let a = MachineModel { budget_exhausted: false, ..self };
        let b = MachineModel { budget_exhausted: false, ..other };
        self.lemma_keeps_apart(a, i);
        other.lemma_keeps_apart(b, j);
        assert(a.part(i) == self.part(i));
        assert(b.part(j) == other.part(j));
        self.part(i).lemma_alike_parallels(other.part(j));
        a.lemma_run_of_alike(b, i, j, 0, 0, self.exits.len(), other.exits.len());
    }

    proof fn lemma_run_of_alike(
        self,
        other: MachineModel,
        i: int,
        j: int,
        done: nat,
        other_done: nat,
        since: nat,
        other_since: nat,
    )
        requires
            self.apart(i),
            other.apart(j),
            self.quantum == other.quantum,
            self.part(i).parallels(other.part(j), since, other_since),
        ensures
            self.run_from(done) matches Some((m, rounds)) ==> (other.run_from(other_done) matches
                Some((n, other_rounds)) ==> ((!m.budget_exhausted && !n.budget_exhausted || rounds
                - done == other_rounds - other_done) ==> m.part(i).parallels(
                n.part(j),
                since,
                other_since,
            ))),
        decreases self.max_rounds - done,
    {
        if !self.guests[i].runnable() {
            self.lemma_run_of_stopped(i, done, since);
            other.lemma_run_of_stopped(j, other_done, other_since);
            if let Some((m, rounds)) = self.run_from(done) {
                if let Some((n, other_rounds)) = other.run_from(other_done) {
                    m.part(i).lemma_parallels_bridge(
                        self.part(i),
                        other.part(j),
                        n.part(j),
                        since,
                        other_since,
                    );
                }
            }
        } else {
            assert(self.any_runnable() && other.any_runnable());
            self.lemma_round_of_alike(other, i, j, 0, 0, since, other_since);
            self.lemma_round_keeps(0);
            other.lemma_round_keeps(0);
            if let Some(m) = self.round() {
                if let Some(n) = other.round() {
                    self.lemma_keeps_apart(m, i);
                    other.lemma_keeps_apart(n, j);
                    let ended = MachineModel { budget_exhausted: m.any_runnable(), ..m };
                    let other_ended = MachineModel { budget_exhausted: n.any_runnable(), ..n };
                    assert(ended.part(i) == m.part(i));
                    assert(other_ended.part(j) == n.part(j));
                    let ends = done + 1 >= self.max_rounds;
                    let other_ends = other_done + 1 >= other.max_rounds;
                    if !ends && !other_ends {
                        m.lemma_run_of_alike(
                            n,
                            i,
                            j,
                            done + 1,
                            other_done + 1,
                            since,
                            other_since,
                        );
                    } else if !ends {
                        m.lemma_no_more_rounds(done + 1);
                        if !n.any_runnable() {
                            assert(!n.guests[j].runnable());
                            m.lemma_run_of_stopped(i, done + 1, since);
                            if let Some((last, rounds)) = m.run_from(done + 1) {
                                last.part(i).lemma_parallels_composes(
                                    m.part(i),
                                    n.part(j),
                                    since,
                                    since,
                                    other_since,
                                );
                            }
                        }
                    } else if !other_ends {
                        n.lemma_no_more_rounds(other_done + 1);
                        if !m.any_runnable() {
                            assert(!m.guests[i].runnable());
                            n.lemma_run_of_stopped(j, other_done + 1, other_since);
                            if let Some((last, rounds)) = n.run_from(other_done + 1) {
                                last.part(j).lemma_parallels_turn(
                                    n.part(j),
                                    other_since,
                                    other_since,
                                );
                                m.part(i).lemma_parallels_composes(
                                    n.part(j),
                                    last.part(j),
                                    since,
                                    other_since,
                                    other_since,
                                );
                            }
                        }
                    }
                }
            }
        }
    }

    /// A run that performs no further round leaves the machine as it is.
    proof fn lemma_no_more_rounds(self, rounds: nat)
        ensures
            self.run_from(rounds) matches Some((m, all)) ==> {
                &&& rounds <= all
                &&& all == rounds ==> m == self
            },
        decreases self.max_rounds - rounds,
    {
        if self.any_runnable() {
            self.lemma_round_keeps(0);
            if let Some(m) = self.round() {
                if rounds + 1 < self.max_rounds {
                    m.lemma_no_more_rounds(rounds + 1);
                }
            }
        }
    }

    /// Law: a guest is the same wherever it is added. Two isolated machines that get a
    /// guest with the same program, as many pages and the same access are alike for
    /// the new guests, whatever ids, names and frames they have.
    pub proof fn law_added_guests_are_alike(
        self,
        other: MachineModel,
        name: Seq<char>,
        other_name: Seq<char>,
        program: Seq<Instr>,
        pages: u64,
        perm: Perm,
    )
        requires
            self.isolated(),
            other.isolated(),
            self.pristine(),
            other.pristine(),
            self.guests.len() <= u32::MAX,
            other.guests.len() <= u32::MAX,
            self.mem.next_free + pages <= self.mem.frames.len(),
            other.mem.next_free + pages <= other.mem.frames.len(),
        ensures
            self.with_guest(name, program, pages, perm).part(self.guests.len() as int).alike(
                other.with_guest(other_name, program, pages, perm).part(other.guests.len() as int),
            ),
    {
        let a = self.with_guest(name, program, pages, perm).part(self.guests.len() as int);
        let b = other.with_guest(other_name, program, pages, perm).part(other.guests.len() as int);
        SliceModel::lemma_ring_of(a.rings, a.guest.id);
        SliceModel::lemma_ring_of(b.rings, b.guest.id);
        assert forall|x: u64, y: u64| #[trigger] a.paired(b, x, y) implies {
            &&& x < a.mem.frames.len() && a.mem.frames[x as int] == MemoryModel::zeroed_frame()
            &&& y < b.mem.frames.len() && b.mem.frames[y as int] == MemoryModel::zeroed_frame()
            &&& x - self.mem.next_free == y - other.mem.next_free
        } by {
            let gpn = choose|gpn: u64| #[trigger]
                a.guest.page_table.map.contains_key(gpn) && a.guest.page_table.map[gpn].hfn == x
                    && b.guest.page_table.map.contains_key(gpn) && b.guest.page_table.map[gpn].hfn
                    == y;
            assert(self.mem.frames[x as int] == MemoryModel::zeroed_frame());
            assert(other.mem.frames[y as int] == MemoryModel::zeroed_frame());
        }
    }

    /// Law: a ring is the same wherever it is attached. Two isolated machines that are
    /// alike for guest `i` of one and guest `j` of the other, neither of which has a
    /// ring yet, are alike for them when both get one at the same page.
    pub proof fn law_attached_rings_are_alike(
        self,
        other: MachineModel,
        i: u32,
        j: u32,
        gpn: u64,
    )
        requires
            self.isolated(),
            other.isolated(),
            self.pristine(),
            other.pristine(),
            i < self.guests.len(),
            j < other.guests.len(),
            self.mem.next_free < self.mem.frames.len(),
            other.mem.next_free < other.mem.frames.len(),
            SliceModel::ring_of(self.rings, i) is None,
            SliceModel::ring_of(other.rings, j) is None,
            self.part(i as int).alike(other.part(j as int)),
        ensures
            self.with_ring(i, gpn).part(i as int).alike(other.with_ring(j, gpn).part(j as int)),
    {
        let (p, q) = (self.part(i as int), other.part(j as int));
        let (a, b) = (
            self.with_ring(i, gpn).part(i as int),
            other.with_ring(j, gpn).part(j as int),
        );
        assert(a.rings.drop_last() =~= self.rings);
        assert(b.rings.drop_last() =~= other.rings);
        Self::lemma_attached_ring(self.rings, a.rings, i);
        Self::lemma_attached_ring(other.rings, b.rings, j);
        let (fresh, other_fresh) = (self.mem.next_free as u64, other.mem.next_free as u64);
        assert(self.mem.frames[fresh as int] == MemoryModel::zeroed_frame());
        assert(other.mem.frames[other_fresh as int] == MemoryModel::zeroed_frame());
        assert forall|x: u64, y: u64| #[trigger] a.paired(b, x, y) implies (x == fresh && y
            == other_fresh) || (x < fresh && y < other_fresh && p.paired(q, x, y)) by {
            let (s, t) = (a.guest.page_table, b.guest.page_table);
            if exists|g: u64| #[trigger]
                s.map.contains_key(g) && s.map[g].hfn == x && t.map.contains_key(g)
                    && t.map[g].hfn == y {
                let g = choose|g: u64| #[trigger]
                    s.map.contains_key(g) && s.map[g].hfn == x && t.map.contains_key(g)
                        && t.map[g].hfn == y;
                if g != gpn {
                    assert(p.guest.page_table.map.contains_key(g));
                    assert(self.maps(i as int, g) && other.maps(j as int, g));
                }
            }
        }
        assert forall|g: u64|
            #![trigger a.guest.page_table.map.contains_key(g)]
            #![trigger b.guest.page_table.map.contains_key(g)]
            {
                &&& a.guest.page_table.map.contains_key(g) == b.guest.page_table.map.contains_key(
                    g,
                )
                &&& a.guest.page_table.map.contains_key(g) ==> a.guest.page_table.map[g].perm
                    == b.guest.page_table.map[g].perm
            } by {
            assert(p.guest.page_table.map.contains_key(g) == q.guest.page_table.map.contains_key(
                g,
            ));
        }
    }

    /// The ring attached to a guest without one is the guest's ring.
    pub proof fn lemma_attached_ring(
        rings: Seq<RingModel>,
        attached: Seq<RingModel>,
        guest_id: u32,
    )
        requires
            SliceModel::ring_of(rings, guest_id) is None,
            attached.len() == rings.len() + 1,
            attached.drop_last() == rings,
            attached.last().guest_id == guest_id,
        ensures
            SliceModel::ring_of(attached, guest_id) == Some(rings.len() as int),
    {
        SliceModel::lemma_ring_of(rings, guest_id);
        SliceModel::lemma_ring_of(attached, guest_id);
        SliceModel::lemma_ring_exists(rings, guest_id, rings.len() as int);
        assert forall|j: int| 0 <= j < rings.len() implies (#[trigger] attached[j]).guest_id
            != guest_id by {
            assert(attached.drop_last()[j] == rings[j]);
        }
        assert(SliceModel::first_ring(attached, guest_id, rings.len() as int));
    }

    /// Law: adding a guest leaves the others as they are.
    pub proof fn law_add_guest_leaves_others(
        self,
        i: int,
        name: Seq<char>,
        program: Seq<Instr>,
        pages: u64,
        perm: Perm,
    )
        requires
            0 <= i < self.guests.len(),
        ensures
            self.with_guest(name, program, pages, perm).part(i).alike(self.part(i)),
    {
        let part = self.part(i);
        let added = self.with_guest(name, program, pages, perm).part(i);
        assert forall|x: u64, y: u64| #[trigger] added.paired(part, x, y) implies x == y by {}
    }

    /// Law: sharing a frame with one guest leaves the others as they are.
    pub proof fn law_share_frame_leaves_others(
        self,
        i: int,
        j: int,
        gpn: u64,
        hfn: u64,
        perm: Perm,
    )
        requires
            0 <= i < self.guests.len(),
            0 <= j < self.guests.len(),
            i != j,
        ensures
            self.with_mapping(j, gpn, hfn, perm).part(i) == self.part(i),
    {
    }

    /// Law: attaching a ring to one guest leaves the others as they are.
    pub proof fn law_attach_ring_leaves_others(self, i: int, guest_id: u32, gpn: u64)
        requires
            0 <= i < self.guests.len(),
            guest_id < self.guests.len(),
            i != guest_id,
            self.guests[i].id != guest_id,
        ensures
            self.with_ring(guest_id, gpn).part(i).alike(self.part(i)),
    {
        let part = self.part(i);
        let ringed = self.with_ring(guest_id, gpn).part(i);
        let id = self.guests[i].id;
        SliceModel::lemma_ring_of(self.rings, id);
        SliceModel::lemma_ring_of(ringed.rings, id);
        if let Some(k) = SliceModel::ring_of(self.rings, id) {
            assert forall|l: int| 0 <= l < k implies (#[trigger] ringed.rings[l]).guest_id
                != id by {
                assert(ringed.rings[l] == self.rings[l]);
            }
            assert(SliceModel::first_ring(ringed.rings, id, k));
        }
        if let Some(k) = SliceModel::ring_of(ringed.rings, id) {
            assert forall|l: int| 0 <= l < k implies (#[trigger] self.rings[l]).guest_id != id by {
                assert(ringed.rings[l] == self.rings[l]);
            }
            assert(SliceModel::first_ring(self.rings, id, k));
        }
        assert forall|x: u64, y: u64| #[trigger] ringed.paired(part, x, y) implies x == y by {}
    }
}

} // verus!
