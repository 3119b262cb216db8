//! Laws of time slicing: what becomes of a guest is what would have become of it
//! alone, in one uninterrupted slice.
use crate::machine::{MachineModel, SliceModel, Turn};
use vstd::prelude::*;

verus! {

impl SliceModel {
    /// A slice counts from where it starts: only the rest of the quantum matters.
    proof fn lemma_slice_shifts(self, quantum: nat, ran: nat, shift: nat)
        ensures
            self.slice(quantum + shift, ran + shift) == match self.slice(quantum, ran) {
                Some((s, all)) => Some((s, all + shift)),
                None => None,
            },
        decreases quantum - ran, self.guest.program.len() - self.guest.vcpu.pc,
    {
        if ran < quantum {
            self.lemma_turn_progress();
            match self.turn() {
                Some((s, Turn::Retired)) => s.lemma_slice_shifts(quantum, ran + 1, shift),
                Some((s, Turn::Resumed)) => s.lemma_slice_shifts(quantum, ran, shift),
                _ => {},
            }
        }
    }

    /// Law: slices compose. A slice that leaves its guest runnable, followed by
    /// another one, is one slice of both quanta. A slice in which the guest stops
    /// is what any longer slice is.
    pub proof fn law_slices_compose(self, quantum: nat, ran: nat, more: nat)
        requires
            self.guest.runnable(),
            ran <= quantum,
        ensures
            self.slice(quantum, ran) matches Some((s, all)) ==> self.slice(quantum + more, ran)
                == if s.guest.runnable() {
                match s.slice(more, 0) {
                    Some((last, later)) => Some((last, quantum + later)),
                    None => None,
                }
            } else {
                Some((s, all))
            },
        decreases quantum - ran, self.guest.program.len() - self.guest.vcpu.pc,
    {
        if ran < quantum {
            self.lemma_turn_progress();
            match self.turn() {
                Some((s, Turn::Retired)) => s.law_slices_compose(quantum, ran + 1, more),
                Some((s, Turn::Resumed)) => s.law_slices_compose(quantum, ran, more),
                _ => {},
            }
        } else {
            self.lemma_slice_shifts(more, 0, quantum);
        }
    }

    /// A slice in which the guest stops after `all` instructions is the same for
    /// every quantum beyond `all`.
    proof fn lemma_stop_ignores_quantum(self, quantum: nat, ran: nat, other: nat)
        requires
            self.guest.runnable(),
            ran <= quantum,
        ensures
            self.slice(quantum, ran) matches Some((s, all)) ==> (!s.guest.runnable() && all < other
                ==> self.slice(other, ran) == Some((s, all))),
        decreases quantum - ran, self.guest.program.len() - self.guest.vcpu.pc,
    {
        if ran < quantum {
            self.lemma_turn_progress();
            self.lemma_slice_retires(quantum, ran);
            match self.turn() {
                Some((s, Turn::Retired)) => s.lemma_stop_ignores_quantum(quantum, ran + 1, other),
                Some((s, Turn::Resumed)) => s.lemma_stop_ignores_quantum(quantum, ran, other),
                _ => {},
            }
        }
    }

    proof fn lemma_turn_of_alike_exists(self, other: SliceModel)
        requires
            self.alike(other),
            self.wf(),
            other.wf(),
        ensures
            self.turn() is Some <==> other.turn() is Some,
    {
        reveal(SliceModel::turn);
        self.lemma_step_of_alike(other);
        SliceModel::lemma_ring_of(self.rings, self.guest.id);
        SliceModel::lemma_ring_of(other.rings, other.guest.id);
    }

    /// Slices that are alike and well formed have an outcome together.
    proof fn lemma_slice_of_alike_exists(self, other: SliceModel, quantum: nat, ran: nat)
        requires
            self.alike(other),
            self.wf(),
            other.wf(),
        ensures
            self.slice(quantum, ran) is Some <==> other.slice(quantum, ran) is Some,
        decreases quantum - ran, self.guest.program.len() - self.guest.vcpu.pc,
    {
        if ran < quantum {
            self.lemma_turn_progress();
            self.lemma_alike_parallels(other);
            self.lemma_turn_of_alike(other, self.exits.len(), other.exits.len());
            self.lemma_turn_of_alike_exists(other);
            self.lemma_turn_wf();
            other.lemma_turn_wf();
            if let Some((o, other_turn)) = other.turn() {
                match self.turn() {
                    Some((s, Turn::Retired)) => {
                        s.lemma_slice_of_alike_exists(o, quantum, ran + 1);
                    },
                    Some((s, Turn::Resumed)) => {
                        s.lemma_slice_of_alike_exists(o, quantum, ran);
                    },
                    _ => {},
                }
            }
        }
    }

    /// The number of instructions retired from this slice to `later`.
    pub open spec fn retired_until(self, later: SliceModel) -> int {
        later.guest.vcpu.retired - self.guest.vcpu.retired
    }

    /// Whether `s`, after `all` instructions, is what the guest is in `later`, with the
    /// same exits taken since this slice.
    pub open spec fn reaches_as(self, s: SliceModel, all: nat, later: SliceModel) -> bool {
        &&& all == self.retired_until(later)
        &&& s.parallels(later, self.exits.len(), self.exits.len())
    }

    /// Whether the guest, left alone in one uninterrupted slice, comes to what it is
    /// in `later`, taking the same exits. When it is still runnable there, that is
    /// after as many instructions. When it has stopped, it is so for every larger
    /// quantum.
    pub open spec fn runs_to(self, later: SliceModel) -> bool {
        &&& later.guest.id == self.guest.id
        &&& self.exits.is_prefix_of(later.exits)
        &&& self.retired_until(later) >= 0
        &&& if !self.guest.runnable() {
            self.parallels(later, self.exits.len(), self.exits.len())
        } else if later.guest.runnable() {
            self.slice(self.retired_until(later) as nat, 0) matches Some((s, all))
                && s.guest.runnable() && self.reaches_as(s, all, later)
        } else {
            forall|quantum: nat|
                quantum > self.retired_until(later) ==> (#[trigger] self.slice(quantum, 0) matches
                    Some((s, all)) && self.reaches_as(s, all, later))
        }
    }

    /// A guest that has stayed as it is runs to that.
    proof fn lemma_unchanged_runs_to(self, later: SliceModel)
        requires
            later.guest.id == self.guest.id,
            self.exits.is_prefix_of(later.exits),
            self.parallels(later, self.exits.len(), self.exits.len()),
        ensures
            self.runs_to(later),
    {
    }

    /// What a slice leaves is what the guest runs to.
    proof fn lemma_slice_runs_to(self, quantum: nat)
        requires
            self.guest.runnable(),
        ensures
            self.slice(quantum, 0) matches Some((s, all)) ==> self.runs_to(s),
    {
        self.lemma_slice_retires(quantum, 0);
        self.lemma_slice_keeps(quantum, 0);
        self.law_slice_end(quantum, 0);
        if let Some((s, all)) = self.slice(quantum, 0) {
            s.lemma_alike_itself();
            if !s.guest.runnable() {
                assert forall|other: nat| other > all implies (#[trigger] self.slice(other, 0)
                    == Some((s, all))) by {
                    self.lemma_stop_ignores_quantum(quantum, 0, other);
                }
            }
        }
    }

    proof fn lemma_runs_to_composes(self, middle: SliceModel, later: SliceModel)
        requires
            self.wf(),
            middle.wf(),
            self.runs_to(middle),
            middle.runs_to(later),
        ensures
            self.runs_to(later),
    {
        let start = self.exits.len();
        if !self.guest.runnable() {
            self.lemma_parallels_on(middle, middle, later, start);
        } else if middle.guest.runnable() {
            let first = self.retired_until(middle) as nat;
            let (s, all) = self.slice(first, 0)->0;
            self.lemma_slice_wf(first, 0);
            if later.guest.runnable() {
                let second = middle.retired_until(later) as nat;
                self.lemma_alike_slices(s, middle, later, first, second);
            } else {
                assert forall|quantum: nat| quantum > self.retired_until(later) implies (
                #[trigger] self.slice(quantum, 0) matches Some((s, all)) && self.reaches_as(
                    s,
                    all,
                    later,
                )) by {
                    let second = (quantum - first) as nat;
                    assert(middle.slice(second, 0) is Some);
                    self.lemma_alike_slices(s, middle, later, first, second);
                }
            }
        } else {
            assert forall|quantum: nat| quantum > self.retired_until(later) implies (
            #[trigger] self.slice(quantum, 0) matches Some((s, all)) && self.reaches_as(
                s,
                all,
                later,
            )) by {
                let (s, all) = self.slice(quantum, 0)->0;
                assert(self.reaches_as(s, all, middle));
                s.lemma_parallels_on(middle, middle, later, start);
            }
        }
    }

    /// A slice that is parallel to `after`, which continues `middle` in parallel to
    /// `later`, is parallel to `later`.
    proof fn lemma_parallels_on(
        self,
        middle: SliceModel,
        after: SliceModel,
        later: SliceModel,
        start: nat,
    )
        requires
            start <= middle.exits.len(),
            middle.exits.is_prefix_of(after.exits),
            middle.exits.is_prefix_of(later.exits),
            after.guest.id == middle.guest.id,
            later.guest.id == middle.guest.id,
            self.parallels(after, start, start),
            after.parallels(later, middle.exits.len(), middle.exits.len()),
        ensures
            self.parallels(later, start, start),
    {
        after.lemma_history_splits(middle, start);
        later.lemma_history_splits(middle, start);
        self.lemma_parallels_composes(after, later, start, start, start);
    }

    /// A slice of `first` instructions that comes to what the guest is in `middle`, and
    /// one of `middle` by `second` that comes to what it is in `later`, make one slice.
    proof fn lemma_alike_slices(
        self,
        s: SliceModel,
        middle: SliceModel,
        later: SliceModel,
        first: nat,
        second: nat,
    )
        requires
            self.guest.runnable(),
            self.slice(first, 0) == Some((s, first)),
            s.guest.runnable(),
            s.parallels(middle, self.exits.len(), self.exits.len()),
            s.wf(),
            middle.wf(),
            self.exits.is_prefix_of(middle.exits),
            middle.exits.is_prefix_of(later.exits),
            later.guest.id == middle.guest.id,
            middle.slice(second, 0) matches Some((after, ran)) && after.parallels(
                later,
                middle.exits.len(),
                middle.exits.len(),
            ),
        ensures
            self.slice(first + second, 0) matches Some((last, all)) && {
                let (after, ran) = middle.slice(second, 0)->0;
                last.parallels(later, self.exits.len(), self.exits.len()) && all == first + ran
            },
    {
        let start = self.exits.len();
        self.law_slices_compose(first, 0, second);
        s.lemma_slice_of_alike_exists(middle, second, 0);
        s.lemma_slice_of_alike(middle, second, 0, start, start);
        middle.lemma_slice_keeps(second, 0);
        let (after, ran) = middle.slice(second, 0)->0;
        let (last, later_ran) = s.slice(second, 0)->0;
        last.lemma_parallels_on(middle, after, later, start);
    }
}

impl MachineModel {
    proof fn lemma_round_runs_to(self, i: int, from: int)
        requires
            self.apart(i),
            self.wf(),
            0 <= from,
        ensures
            self.round_from(from) matches Some(m) ==> {
                &&& self.part(i).runs_to(m.part(i))
                &&& from <= i && m.guests[i].runnable() ==> self.part(i).retired_until(m.part(i))
                    == self.quantum
            },
        decreases self.guests.len() - from,
    {
        let start = self.exits.len();
        self.lemma_part_wf(i);
        self.part(i).lemma_alike_itself();
        self.part(i).lemma_unchanged_runs_to(self.part(i));
        if from < self.guests.len() {
            self.lemma_run_slice_keeps(from);
            self.lemma_run_slice_wf(from);
            if from == i {
                if self.guests[i].runnable() {
                    self.part(i).lemma_slice_runs_to(self.quantum as nat);
                    self.part(i).law_slice_end(self.quantum as nat, 0);
                    self.part(i).lemma_slice_retires(self.quantum as nat, 0);
                }
            } else {
                self.lemma_neighbor_parallels(i, from, start);
            }
            if let Some(m) = self.run_slice(from) {
                self.lemma_keeps_apart(m, i);
                m.lemma_part_wf(i);
                if from != i {
                    m.part(i).lemma_parallels_turn(self.part(i), start, start);
                    self.part(i).lemma_unchanged_runs_to(m.part(i));
                }
                m.lemma_round_runs_to(i, from + 1);
                if let Some(last) = m.round_from(from + 1) {
                    self.part(i).lemma_runs_to_composes(m.part(i), last.part(i));
                    m.lemma_round_keeps(from + 1);
                }
            }
        }
    }

    proof fn lemma_run_from_runs_to(self, i: int, rounds: nat)
        requires
            self.apart(i),
            self.wf(),
        ensures
            self.run_from(rounds) matches Some((m, all)) ==> {
                &&& rounds <= all
                &&& self.part(i).runs_to(m.part(i))
                &&& m.guests[i].runnable() ==> self.part(i).retired_until(m.part(i)) == (all
                    - rounds) * self.quantum
            },
        decreases self.max_rounds - rounds,
    {
        let quantum = self.quantum as int;
        self.lemma_part_wf(i);
        self.part(i).lemma_alike_itself();
        if self.any_runnable() {
            self.lemma_round_runs_to(i, 0);
            self.lemma_round_keeps(0);
            self.lemma_round_wf(0);
            assert((rounds + 1 - rounds) * quantum == quantum) by (nonlinear_arith);
            if let Some(m) = self.round() {
                self.lemma_keeps_apart(m, i);
                m.lemma_part_wf(i);
                if rounds + 1 < self.max_rounds {
                    m.lemma_run_from_runs_to(i, rounds + 1);
                    if let Some((last, all)) = m.run_from(rounds + 1) {
                        self.part(i).lemma_runs_to_composes(m.part(i), last.part(i));
                        assert((all - rounds) * quantum == (all - (rounds + 1)) * quantum
                            + quantum) by (nonlinear_arith);
                    }
                } else {
                    let last = MachineModel { budget_exhausted: m.any_runnable(), ..m };
                    assert(last.part(i) == m.part(i));
                }
            }
        } else {
            self.part(i).lemma_unchanged_runs_to(self.part(i));
        }
    }

    /// Law: time slicing is invisible to a guest. A run brings each guest that is apart
    /// from its neighbors to what one uninterrupted slice of it alone would have
    /// brought it to, with the same exits. A guest that is still runnable has used its
    /// whole quantum in every round.
    pub proof fn law_time_slicing_is_invisible(self, i: int)
        requires
            self.apart(i),
            self.wf(),
        ensures
            self.run() matches Some((m, rounds)) ==> {
                &&& self.part(i).runs_to(m.part(i))
                &&& m.guests[i].runnable() ==> self.part(i).retired_until(m.part(i)) == rounds
                    * self.quantum
            },
    {
        let start = MachineModel { budget_exhausted: false, ..self };
        self.lemma_keeps_apart(start, i);
        assert(start.part(i) == self.part(i));
        start.lemma_run_from_runs_to(i, 0);
    }

    /// A guest that, left alone, has always stopped after `needed` instructions has
    /// stopped in a run, when the run finishes within the budget or the budget admits
    /// those instructions. Returns the quantum of a slice of it alone with the same
    /// outcome.
    pub proof fn lemma_settles(self, i: int, needed: nat) -> (quantum: nat)
        requires
            self.apart(i),
            self.wf(),
            self.guests[i].runnable(),
            self.run() matches Some((m, rounds)) && (!m.budget_exhausted || needed
                < self.max_rounds * self.quantum),
            forall|quantum: nat|
                quantum > needed ==> (#[trigger] self.part(i).slice(quantum, 0) matches Some(
                    (s, ran),
                ) ==> !s.guest.runnable()),
        ensures
            quantum > needed,
            self.run() matches Some((m, rounds)) && (self.part(i).slice(quantum, 0) matches Some(
                (s, ran),
            ) && s.parallels(m.part(i), self.exits.len(), self.exits.len())),
    {
        let part = self.part(i);
        let (m, rounds) = self.run()->0;
        self.law_time_slicing_is_invisible(i);
        self.law_run_is_bounded();
        self.law_run_keeps_setup();
        let ran = part.retired_until(m.part(i));
        if m.guests[i].runnable() {
            assert(m.any_runnable());
            assert(part.slice(ran as nat, 0) is Some);
        }
        let longer = (needed + ran + 1) as nat;
        assert(part.slice(longer, 0) is Some);
        longer
    }

    /// Law: a guest that would stop when left alone stops in a run among any neighbors,
    /// with the same outcome and the same exits, as long as the run finishes within
    /// the round budget or the budget admits the instructions that the guest needs.
    pub proof fn law_terminating_guest_stops(self, i: int, quantum: nat)
        requires
            self.apart(i),
            self.wf(),
            self.guests[i].runnable(),
            self.part(i).slice(quantum, 0) matches Some((s, ran)) && !s.guest.runnable(),
        ensures
            self.run() matches Some((m, rounds)) ==> (self.part(i).slice(quantum, 0) matches Some(
                (s, ran),
            ) && (!m.budget_exhausted || ran < self.max_rounds * self.quantum ==> s.parallels(
                m.part(i),
                self.exits.len(),
                self.exits.len(),
            ))),
    {
        let part = self.part(i);
        let (s, ran) = part.slice(quantum, 0)->0;
        assert forall|other: nat| other > ran implies #[trigger] part.slice(other, 0) == Some(
            (s, ran),
        ) by {
            part.lemma_stop_ignores_quantum(quantum, 0, other);
        }
        if let Some((m, rounds)) = self.run() {
            if !m.budget_exhausted || ran < self.max_rounds * self.quantum {
                let other = self.lemma_settles(i, ran);
                assert(part.slice(other, 0) == Some((s, ran)));
            }
        }
    }

    /// Law: neither the quantum nor the neighbors show in what a guest computes. Take
    /// two machines, whatever their quanta, that are alike for guest `i` of one and
    /// guest `j` of the other, each apart from its neighbors. When both have finished
    /// within their budgets they are alike for them again, and the guests have taken
    /// the same exits.
    pub proof fn law_outcome_ignores_slicing(self, other: MachineModel, i: int, j: int)
        requires
            self.apart(i),
            self.wf(),
            other.apart(j),
            other.wf(),
            self.part(i).alike(other.part(j)),
        ensures
            self.run() matches Some((m, rounds)) ==> (other.run() matches Some((n, other_rounds))
                ==> (!m.budget_exhausted && !n.budget_exhausted ==> m.part(i).parallels(
                n.part(j),
                self.exits.len(),
                other.exits.len(),
            ))),
    {
        let (a, b) = (self.part(i), other.part(j));
        let (start, other_start) = (self.exits.len(), other.exits.len());
        self.law_time_slicing_is_invisible(i);
        other.law_time_slicing_is_invisible(j);
        self.law_run_is_bounded();
        other.law_run_is_bounded();
        self.law_run_keeps_setup();
        other.law_run_keeps_setup();
        if let Some((m, rounds)) = self.run() {
            if let Some((n, other_rounds)) = other.run() {
                if !m.budget_exhausted && !n.budget_exhausted {
                    let (c, d) = (m.part(i), n.part(j));
                    assert(!m.guests[i].runnable());
                    assert(!n.guests[j].runnable());
                    if a.guest.runnable() {
                        let long = (a.retired_until(c) + b.retired_until(d) + 1) as nat;
                        a.law_slice_depends_on_own_state(b, long, 0);
                        let (s, all) = a.slice(long, 0)->0;
                        let (o, other_all) = b.slice(long, 0)->0;
                        assert(a.reaches_as(s, all, c));
                        assert(b.reaches_as(o, other_all, d));
                        s.lemma_parallels_turn(c, start, start);
                        o.lemma_parallels_turn(d, other_start, other_start);
                        c.lemma_parallels_bridge(s, o, d, start, other_start);
                    } else {
                        a.lemma_alike_parallels(b);
                        a.lemma_parallels_turn(c, start, start);
                        b.lemma_parallels_turn(d, other_start, other_start);
                        c.lemma_parallels_bridge(a, b, d, start, other_start);
                    }
                }
            }
        }
    }
}

} // verus!
