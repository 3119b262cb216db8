//! Laws of the scheduler: bounded runs, fair rounds, bounded slices.
use crate::hypervisor::ScheduleTick;
use crate::machine::{MachineModel, SliceModel, Turn};
use vstd::prelude::*;

verus! {

impl MachineModel {
    /// Law: a run is bounded. It performs no more rounds than the budget. It
    /// reports the budget as exhausted exactly when it leaves some guest runnable,
    /// and only when it has used the whole budget.
    pub proof fn law_run_is_bounded(self)
        requires
            self.max_rounds > 0,
        ensures
            self.run() matches Some((m, rounds)) ==> {
                &&& rounds <= self.max_rounds
                &&& m.budget_exhausted <==> m.any_runnable()
                &&& m.budget_exhausted ==> rounds == self.max_rounds
            },
    {
        (MachineModel { budget_exhausted: false, ..self }).lemma_run_from_is_bounded(0);
    }

    proof fn lemma_run_from_is_bounded(self, rounds: nat)
        requires
            rounds < self.max_rounds,
            !self.budget_exhausted,
        ensures
            self.run_from(rounds) matches Some((m, all)) ==> {
                &&& rounds <= all <= self.max_rounds
                &&& m.budget_exhausted <==> m.any_runnable()
                &&& m.budget_exhausted ==> all == self.max_rounds
            },
        decreases self.max_rounds - rounds,
    {
        if self.any_runnable() {
            self.lemma_round_keeps(0);
            if let Some(m) = self.round() {
                if rounds + 1 < self.max_rounds {
                    m.lemma_run_from_is_bounded(rounds + 1);
                } else {
                    let last = MachineModel { budget_exhausted: m.any_runnable(), ..m };
                    assert(last.guests == m.guests);
                }
            }
        }
    }

    /// Law: a run keeps every guest's identity, program and page table, the size of
    /// host memory and what is handed out of it, the bindings of the rings, and
    /// the scheduler's settings, and it only appends to the exit log and the
    /// schedule.
    pub proof fn law_run_keeps_setup(self)
        ensures
            self.run() matches Some((m, rounds)) ==> self.keeps(m),
    {
        (MachineModel { budget_exhausted: false, ..self }).lemma_run_from_keeps(0);
    }

    /// Law: a guest retires at most a quantum of instructions in each round.
    pub proof fn law_run_retires_within_quantum(self, i: int)
        requires
            0 <= i < self.guests.len(),
        ensures
            self.run() matches Some((m, rounds)) ==> self.guests[i].vcpu.retired
                <= m.guests[i].vcpu.retired <= self.guests[i].vcpu.retired + rounds * self.quantum,
    {
        (MachineModel { budget_exhausted: false, ..self }).lemma_run_from_retires(0, i);
    }

    proof fn lemma_run_from_retires(self, rounds: nat, i: int)
        requires
            0 <= i < self.guests.len(),
        ensures
            self.run_from(rounds) matches Some((m, all)) ==> {
                &&& rounds <= all
                &&& self.guests[i].vcpu.retired <= m.guests[i].vcpu.retired
                    <= self.guests[i].vcpu.retired + (all - rounds) * self.quantum
            },
        decreases self.max_rounds - rounds,
    {
        let quantum = self.quantum as int;
        if self.any_runnable() {
            self.lemma_round_retires(0, i);
            self.lemma_round_keeps(0);
            assert((rounds + 1 - rounds) * quantum == quantum) by (nonlinear_arith);
            if let Some(m) = self.round() {
                if rounds + 1 < self.max_rounds {
                    m.lemma_run_from_retires(rounds + 1, i);
                    if let Some((last, all)) = m.run_from(rounds + 1) {
                        assert((all - rounds) * quantum == (all - (rounds + 1)) * quantum + quantum)
                            by (nonlinear_arith);
                    }
                }
            }
        } else {
            assert((rounds - rounds) * quantum == 0) by (nonlinear_arith);
        }
    }

    proof fn lemma_round_retires(self, from: int, i: int)
        requires
            0 <= i < self.guests.len(),
            0 <= from,
        ensures
            self.round_from(from) matches Some(m) ==> self.guests[i].vcpu.retired
                <= m.guests[i].vcpu.retired <= self.guests[i].vcpu.retired + self.quantum,
        decreases self.guests.len() - from,
    {
        if from < self.guests.len() {
            self.lemma_run_slice_keeps(from);
            self.part(from).lemma_slice_retires(self.quantum as nat, 0);
            if let Some(m) = self.run_slice(from) {
                m.lemma_round_keeps(from + 1);
                if i > from {
                    m.lemma_round_retires(from + 1, i);
                }
            }
        }
    }

    /// The ids of the guests from `i` up that are runnable, in order.
    pub open spec fn runnable_ids(self, i: int) -> Seq<u32>
        decreases self.guests.len() - i,
    {
        if !(0 <= i < self.guests.len()) {
            Seq::empty()
        } else if self.guests[i].runnable() {
            seq![self.guests[i].id] + self.runnable_ids(i + 1)
        } else {
            self.runnable_ids(i + 1)
        }
    }

    /// Law: round robin. A round enters each guest that is runnable at its start
    /// exactly once, in guest order, for a slice of at most a quantum, and records
    /// each entry in the schedule.
    pub proof fn law_round_robin(self)
        ensures
            self.round() matches Some(m) ==> {
                &&& m.schedule.len() == self.schedule.len() + self.runnable_ids(0).len()
                &&& m.vm_entries == self.vm_entries + self.runnable_ids(0).len()
                &&& forall|k: int|
                    0 <= k < self.schedule.len() ==> #[trigger] m.schedule[k] == self.schedule[k]
                &&& forall|k: int|
                    0 <= k < self.runnable_ids(0).len() ==> {
                        let entry = #[trigger] m.schedule[self.schedule.len() + k];
                        entry.guest_id == self.runnable_ids(0)[k] && entry.instructions_run
                            <= self.quantum
                    }
            },
    {
        self.lemma_round_robin(0);
    }

    proof fn lemma_round_robin(self, i: int)
        requires
            0 <= i,
        ensures
            self.round_from(i) matches Some(m) ==> {
                &&& m.schedule.len() == self.schedule.len() + self.runnable_ids(i).len()
                &&& m.vm_entries == self.vm_entries + self.runnable_ids(i).len()
                &&& forall|k: int|
                    0 <= k < self.schedule.len() ==> #[trigger] m.schedule[k] == self.schedule[k]
                &&& forall|k: int|
                    0 <= k < self.runnable_ids(i).len() ==> {
                        let entry = #[trigger] m.schedule[self.schedule.len() + k];
                        entry.guest_id == self.runnable_ids(i)[k] && entry.instructions_run
                            <= self.quantum
                    }
            },
        decreases self.guests.len() - i,
    {
        if i < self.guests.len() {
            self.lemma_run_slice_keeps(i);
            self.part(i).lemma_slice_keeps(self.quantum as nat, 0);
            self.part(i).lemma_slice_retires(self.quantum as nat, 0);
            if let Some(m) = self.run_slice(i) {
                m.lemma_round_robin(i + 1);
                m.lemma_same_runnable_ids(self, i + 1);
                if let Some(last) = m.round_from(i + 1) {
                    if self.guests[i].runnable() {
                        let later = self.runnable_ids(i + 1);
                        assert(m.schedule.len() == self.schedule.len() + 1);
                        assert forall|k: int| 0 <= k < self.runnable_ids(i).len() implies {
                            let entry = #[trigger] last.schedule[self.schedule.len() + k];
                            entry.guest_id == self.runnable_ids(i)[k] && entry.instructions_run
                                <= self.quantum
                        } by {
                            if k > 0 {
                                let entry = last.schedule[m.schedule.len() + (k - 1)];
                                assert(entry.guest_id == later[k - 1]);
                            } else {
                                assert(last.schedule[self.schedule.len() as int]
                                    == m.schedule[self.schedule.len() as int]);
                            }
                        }
                    }
                }
            }
        }
    }

    proof fn lemma_same_runnable_ids(self, other: MachineModel, i: int)
        requires
            self.guests.len() == other.guests.len(),
            forall|j: int| i <= j < self.guests.len() ==> self.guests[j] == other.guests[j],
        ensures
            self.runnable_ids(i) == other.runnable_ids(i),
        decreases self.guests.len() - i,
    {
        if 0 <= i < self.guests.len() {
            self.lemma_same_runnable_ids(other, i + 1);
        }
    }

    /// The ids of the guests that the next `rounds` rounds enter, in order: those
    /// runnable at the start of each round, round by round.
    pub open spec fn entered_ids(self, rounds: nat) -> Seq<u32>
        decreases rounds,
    {
        if rounds == 0 {
            Seq::empty()
        } else {
            self.runnable_ids(0) + match self.round() {
                Some(m) => m.entered_ids((rounds - 1) as nat),
                None => Seq::empty(),
            }
        }
    }

    /// Law: the schedule of a run. What a run appends to the schedule is, round by
    /// round, one entry for each guest that is runnable at the start of the round, in
    /// guest order, each of at most a quantum.
    pub proof fn law_run_is_round_robin(self)
        ensures
            self.run() matches Some((m, rounds)) ==> {
                let ids = self.entered_ids(rounds);
                &&& m.schedule.len() == self.schedule.len() + ids.len()
                &&& self.schedule.is_prefix_of(m.schedule)
                &&& forall|k: int|
                    0 <= k < ids.len() ==> {
                        let entry = #[trigger] m.schedule[self.schedule.len() + k];
                        entry.guest_id == ids[k] && entry.instructions_run <= self.quantum
                    }
            },
    {
        let start = MachineModel { budget_exhausted: false, ..self };
        start.lemma_run_from_schedule(0);
        self.law_run_keeps_setup();
        if let Some((m, rounds)) = self.run() {
            self.lemma_entered_ids_ignore_settings(rounds, self.max_rounds, false);
        }
    }

    proof fn lemma_run_from_schedule(self, done: nat)
        ensures
            self.run_from(done) matches Some((m, all)) ==> {
                let ids = self.entered_ids((all - done) as nat);
                &&& done <= all
                &&& m.schedule.len() == self.schedule.len() + ids.len()
                &&& forall|k: int|
                    0 <= k < self.schedule.len() ==> #[trigger] m.schedule[k] == self.schedule[k]
                &&& forall|k: int|
                    0 <= k < ids.len() ==> {
                        let entry = #[trigger] m.schedule[self.schedule.len() + k];
                        entry.guest_id == ids[k] && entry.instructions_run <= self.quantum
                    }
            },
        decreases self.max_rounds - done,
    {
        if self.any_runnable() {
            self.law_round_robin();
            self.lemma_round_keeps(0);
            if let Some(m) = self.round() {
                let first = self.runnable_ids(0);
                if done + 1 < self.max_rounds {
                    m.lemma_run_from_schedule(done + 1);
                    if let Some((last, all)) = m.run_from(done + 1) {
                        let later = m.entered_ids((all - (done + 1)) as nat);
                        let ids = self.entered_ids((all - done) as nat);
                        assert(ids == first + later);
                        assert forall|k: int| 0 <= k < ids.len() implies {
                            let entry = #[trigger] last.schedule[self.schedule.len() + k];
                            entry.guest_id == ids[k] && entry.instructions_run <= self.quantum
                        } by {
                            if k < first.len() {
                                assert(last.schedule[self.schedule.len() + k]
                                    == m.schedule[self.schedule.len() + k]);
                            } else {
                                let entry = last.schedule[m.schedule.len() + (k - first.len())];
                                assert(entry.guest_id == later[k - first.len()]);
                            }
                        }
                    }
                } else {
                    assert(m.entered_ids(0) =~= Seq::empty());
                    assert(self.entered_ids(1) =~= first);
                }
            }
        }
    }

    /// A round does not look at the round budget or at the budget report.
    proof fn lemma_round_ignores_settings(self, i: int, max_rounds: u64, report: bool)
        requires
            0 <= i,
        ensures
            (MachineModel { max_rounds, budget_exhausted: report, ..self }).round_from(i)
                == match self.round_from(i) {
                Some(m) => Some(MachineModel { max_rounds, budget_exhausted: report, ..m }),
                None => None,
            },
        decreases self.guests.len() - i,
    {
        let other = MachineModel { max_rounds, budget_exhausted: report, ..self };
        if i < self.guests.len() {
            assert(other.part(i) == self.part(i));
            self.lemma_run_slice_keeps(i);
            if let Some(m) = self.run_slice(i) {
                assert(other.run_slice(i) == Some(
                    MachineModel { max_rounds, budget_exhausted: report, ..m },
                ));
                m.lemma_round_ignores_settings(i + 1, max_rounds, report);
            }
        }
    }

    proof fn lemma_entered_ids_ignore_settings(self, rounds: nat, max_rounds: u64, report: bool)
        ensures
            (MachineModel { max_rounds, budget_exhausted: report, ..self }).entered_ids(rounds)
                == self.entered_ids(rounds),
        decreases rounds,
    {
        let other = MachineModel { max_rounds, budget_exhausted: report, ..self };
        if rounds > 0 {
            self.lemma_same_runnable_ids(other, 0);
            self.lemma_round_ignores_settings(0, max_rounds, report);
            if let Some(m) = self.round() {
                m.lemma_entered_ids_ignore_settings((rounds - 1) as nat, max_rounds, report);
            }
        }
    }

    /// The number of entries that guest `guest_id` has in `schedule`.
    pub open spec fn entries_of(schedule: Seq<ScheduleTick>, guest_id: u32) -> nat
        decreases schedule.len(),
    {
        if schedule.len() == 0 {
            0
        } else {
            Self::entries_of(schedule.drop_last(), guest_id) + if schedule.last().guest_id
                == guest_id {
                1nat
            } else {
                0
            }
        }
    }

    /// Law: every guest gets its turn. A run of some rounds enters a guest that it
    /// leaves runnable exactly once per round, one that was not runnable never, and any
    /// other at most once per round.
    pub proof fn law_run_enters_once_per_round(self, i: int)
        requires
            self.numbered(),
            0 <= i < self.guests.len(),
        ensures
            self.run() matches Some((m, rounds)) ==> {
                let entries = Self::entries_of(m.schedule, self.guests[i].id) - Self::entries_of(
                    self.schedule,
                    self.guests[i].id,
                );
                &&& 0 <= entries <= rounds
                &&& m.guests[i].runnable() ==> entries == rounds
                &&& !self.guests[i].runnable() ==> entries == 0
            },
    {
        (MachineModel { budget_exhausted: false, ..self }).lemma_run_from_entries(0, i);
    }

    proof fn lemma_round_entries(self, from: int, i: int)
        requires
            self.numbered(),
            0 <= i < self.guests.len(),
            0 <= from,
        ensures
            self.round_from(from) matches Some(m) ==> Self::entries_of(
                m.schedule,
                self.guests[i].id,
            ) == Self::entries_of(self.schedule, self.guests[i].id) + if from <= i
                && self.guests[i].runnable() {
                1nat
            } else {
                0
            },
        decreases self.guests.len() - from,
    {
        if from < self.guests.len() {
            self.lemma_run_slice_keeps(from);
            self.part(from).lemma_slice_keeps(self.quantum as nat, 0);
            if let Some(m) = self.run_slice(from) {
                m.lemma_round_entries(from + 1, i);
                if self.guests[from].runnable() {
                    assert(m.schedule.drop_last() =~= self.schedule);
                }
            }
        }
    }

    proof fn lemma_run_from_entries(self, rounds: nat, i: int)
        requires
            self.numbered(),
            0 <= i < self.guests.len(),
        ensures
            self.run_from(rounds) matches Some((m, all)) ==> {
                let entries = Self::entries_of(m.schedule, self.guests[i].id) - Self::entries_of(
                    self.schedule,
                    self.guests[i].id,
                );
                &&& rounds <= all
                &&& 0 <= entries <= all - rounds
                &&& m.guests[i].runnable() ==> entries == all - rounds
                &&& !self.guests[i].runnable() ==> entries == 0
            },
        decreases self.max_rounds - rounds,
    {
        if self.any_runnable() {
            self.lemma_round_entries(0, i);
            self.lemma_round_keeps(0);
            if !self.guests[i].runnable() {
                self.lemma_stopped_in_round(0, i);
            }
            if let Some(m) = self.round() {
                if rounds + 1 < self.max_rounds {
                    m.lemma_run_from_entries(rounds + 1, i);
                    if !m.guests[i].runnable() {
                        m.lemma_stopped_in_run(rounds + 1, i);
                    }
                }
            }
        }
    }

    /// Law: a run can be split. A run with budget `first`, and then one with budget
    /// `second`, leave the same guests, logs, memory, rings and report as one run with
    /// both budgets, and perform as many rounds together.
    pub proof fn law_runs_compose(self, first: u64, second: u64)
        requires
            0 < first,
            0 < second,
            first + second <= u64::MAX,
        ensures
            (MachineModel { max_rounds: (first + second) as u64, ..self }).run() == match (
            MachineModel { max_rounds: first, ..self }).run() {
                Some((m, rounds)) => match (MachineModel { max_rounds: second, ..m }).run() {
                    Some((n, more)) => Some(
                        (
                            MachineModel { max_rounds: (first + second) as u64, ..n },
                            rounds + more,
                        ),
                    ),
                    None => None,
                },
                None => None,
            },
    {
        let start = MachineModel { budget_exhausted: false, ..self };
        start.lemma_run_splits(0, first, second);
        assert((MachineModel {
            budget_exhausted: false,
            ..(MachineModel { max_rounds: first, ..self })
        }) == (MachineModel { max_rounds: first, ..start }));
        assert((MachineModel {
            budget_exhausted: false,
            ..(MachineModel { max_rounds: (first + second) as u64, ..self })
        }) == (MachineModel { max_rounds: (first + second) as u64, ..start }));
    }

    proof fn lemma_run_splits(self, done: nat, first: u64, second: u64)
        requires
            done < first,
            0 < second,
            first + second <= u64::MAX,
            !self.budget_exhausted,
        ensures
            (MachineModel { max_rounds: (first + second) as u64, ..self }).run_from(done)
                == match (MachineModel { max_rounds: first, ..self }).run_from(done) {
                Some((m, rounds)) => match (MachineModel {
                    max_rounds: second,
                    budget_exhausted: false,
                    ..m
                }).run_from(0) {
                    Some((n, more)) => Some(
                        (
                            MachineModel { max_rounds: (first + second) as u64, ..n },
                            rounds + more,
                        ),
                    ),
                    None => None,
                },
                None => None,
            },
        decreases first - done,
    {
        let both = (first + second) as u64;
        let a = MachineModel { max_rounds: first, ..self };
        let c = MachineModel { max_rounds: both, ..self };
        assert(a.any_runnable() == self.any_runnable());
        assert(c.any_runnable() == self.any_runnable());
        self.lemma_round_ignores_settings(0, first, false);
        self.lemma_round_ignores_settings(0, both, false);
        self.lemma_round_keeps(0);
        assert(a == MachineModel { max_rounds: first, budget_exhausted: false, ..self });
        assert(c == MachineModel { max_rounds: both, budget_exhausted: false, ..self });
        if !self.any_runnable() {
            let b = MachineModel { max_rounds: second, budget_exhausted: false, ..a };
            assert(b.any_runnable() == self.any_runnable());
            assert((MachineModel { max_rounds: both, ..b }) == c);
        } else if let Some(m) = self.round() {
            let next = MachineModel { budget_exhausted: false, ..m };
            assert(a.round() == Some(MachineModel { max_rounds: first, ..next }));
            assert(c.round() == Some(MachineModel { max_rounds: both, ..next }));
            if done + 1 < first {
                next.lemma_run_splits(done + 1, first, second);
            } else {
                next.lemma_run_shifts(0, second, first);
                let ended = MachineModel {
                    budget_exhausted: (MachineModel { max_rounds: first, ..next }).any_runnable(),
                    max_rounds: first,
                    ..next
                };
                assert(a.run_from(done) == Some((ended, done + 1)));
                assert((MachineModel { max_rounds: second, budget_exhausted: false, ..ended })
                    == (MachineModel { max_rounds: second, ..next }));
            }
        }
    }

    /// A run counts its rounds from where it starts: only the rest of the budget
    /// matters.
    proof fn lemma_run_shifts(self, done: nat, budget: u64, shift: u64)
        requires
            budget + shift <= u64::MAX,
        ensures
            (MachineModel { max_rounds: (budget + shift) as u64, ..self }).run_from(
                done + shift as nat,
            ) == match (MachineModel { max_rounds: budget, ..self }).run_from(done) {
                Some((m, all)) => Some(
                    (MachineModel { max_rounds: (budget + shift) as u64, ..m }, all + shift as nat),
                ),
                None => None,
            },
        decreases budget - done,
    {
        let longer = (budget + shift) as u64;
        let a = MachineModel { max_rounds: budget, ..self };
        let c = MachineModel { max_rounds: longer, ..self };
        assert(a.any_runnable() == self.any_runnable());
        assert(c.any_runnable() == self.any_runnable());
        self.lemma_round_ignores_settings(0, budget, self.budget_exhausted);
        self.lemma_round_ignores_settings(0, longer, self.budget_exhausted);
        self.lemma_round_keeps(0);
        if self.any_runnable() {
            if let Some(m) = self.round() {
                assert(a.round() == Some(MachineModel { max_rounds: budget, ..m }));
                assert(c.round() == Some(MachineModel { max_rounds: longer, ..m }));
                assert((MachineModel { max_rounds: budget, ..m }).any_runnable()
                    == m.any_runnable());
                assert((MachineModel { max_rounds: longer, ..m }).any_runnable()
                    == m.any_runnable());
                if done + 1 < budget {
                    m.lemma_run_shifts(done + 1, budget, shift);
                }
            }
        }
    }

    /// Law: the scheduler never enters a guest that has halted or faulted, so a run
    /// leaves it exactly as it is.
    pub proof fn law_stopped_guest_stays(self, i: int)
        requires
            0 <= i < self.guests.len(),
            !self.guests[i].runnable(),
        ensures
            self.run() matches Some((m, rounds)) ==> m.guests[i] == self.guests[i],
    {
        (MachineModel { budget_exhausted: false, ..self }).lemma_stopped_in_run(0, i);
    }

    proof fn lemma_stopped_in_run(self, rounds: nat, i: int)
        requires
            0 <= i < self.guests.len(),
            !self.guests[i].runnable(),
        ensures
            self.run_from(rounds) matches Some((m, all)) ==> m.guests[i] == self.guests[i],
        decreases self.max_rounds - rounds,
    {
        if self.any_runnable() {
            self.lemma_stopped_in_round(0, i);
            self.lemma_round_keeps(0);
            if let Some(m) = self.round() {
                if rounds + 1 < self.max_rounds {
                    m.lemma_stopped_in_run(rounds + 1, i);
                }
            }
        }
    }

    proof fn lemma_stopped_in_round(self, from: int, i: int)
        requires
            0 <= i < self.guests.len(),
            0 <= from,
            !self.guests[i].runnable(),
        ensures
            self.round_from(from) matches Some(m) ==> m.guests[i] == self.guests[i],
        decreases self.guests.len() - from,
    {
        if from < self.guests.len() {
            self.lemma_run_slice_keeps(from);
            if let Some(m) = self.run_slice(from) {
                m.lemma_stopped_in_round(from + 1, i);
            }
        }
    }

    /// Law: when no guest is runnable there is nothing to run. The run performs no
    /// round and changes nothing but the budget report.
    pub proof fn law_idle_machine_stays(self)
        requires
            !self.any_runnable(),
        ensures
            self.run() == Some((MachineModel { budget_exhausted: false, ..self }, 0nat)),
    {
        assert(!(MachineModel { budget_exhausted: false, ..self }).any_runnable());
    }

    /// Law: a run that finished within its budget is complete. Running again
    /// performs no round and changes nothing.
    pub proof fn law_finished_run_is_complete(self)
        requires
            self.max_rounds > 0,
        ensures
            self.run() matches Some((m, rounds)) ==> (!m.budget_exhausted ==> m.run() == Some(
                (m, 0nat),
            )),
    {
        self.law_run_is_bounded();
        if let Some((m, rounds)) = self.run() {
            if !m.budget_exhausted {
                m.law_idle_machine_stays();
                assert(m =~= (MachineModel { budget_exhausted: false, ..m }));
            }
        }
    }

    /// Law: over a whole run, VM entries are counted as slices are scheduled.
    pub proof fn law_run_counts_entries(self)
        ensures
            self.run() matches Some((m, rounds)) ==> m.vm_entries - self.vm_entries
                == m.schedule.len() - self.schedule.len(),
    {
        (MachineModel { budget_exhausted: false, ..self }).lemma_run_from_counts_entries(0);
    }

    proof fn lemma_run_from_counts_entries(self, rounds: nat)
        ensures
            self.run_from(rounds) matches Some((m, all)) ==> m.vm_entries - self.vm_entries
                == m.schedule.len() - self.schedule.len(),
        decreases self.max_rounds - rounds,
    {
        if self.any_runnable() {
            self.law_round_robin();
            self.lemma_round_keeps(0);
            if let Some(m) = self.round() {
                if rounds + 1 < self.max_rounds {
                    m.lemma_run_from_counts_entries(rounds + 1);
                }
            }
        }
    }

    /// Law: a run is a function of the machine. Two machines that are set up alike
    /// leave the same schedule, the same exit log and the same guests behind after
    /// the same number of rounds.
    pub proof fn law_run_is_reproducible(self, other: MachineModel)
        requires
            self == (MachineModel { budget_exhausted: self.budget_exhausted, ..other }),
        ensures
            self.run() == other.run(),
    {
        assert((MachineModel { budget_exhausted: false, ..self }) == (MachineModel {
            budget_exhausted: false,
            ..other
        }));
    }
}

impl SliceModel {
    /// Law: a slice ends on the instruction quantum, a halt or a fault, and on
    /// nothing else. The guest is still runnable exactly when it has used its whole
    /// quantum: one that stopped has retired fewer instructions.
    pub proof fn law_slice_end(self, quantum: nat, ran: nat)
        requires
            self.guest.runnable(),
            ran <= quantum,
        ensures
            self.slice(quantum, ran) matches Some((s, all)) ==> {
                &&& all <= quantum
                &&& s.guest.runnable() <==> all == quantum
            },
        decreases quantum - ran, self.guest.program.len() - self.guest.vcpu.pc,
    {
        if ran < quantum {
            self.lemma_turn_progress();
            match self.turn() {
                Some((s, Turn::Retired)) => s.law_slice_end(quantum, ran + 1),
                Some((s, Turn::Resumed)) => s.law_slice_end(quantum, ran),
                _ => {
                    self.lemma_slice_retires(quantum, ran);
                },
            }
        }
    }
}

} // verus!
