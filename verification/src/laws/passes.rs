//! What a slice, a round and a run are made of: turns, slices and rounds, one after
//! another.
use crate::guest::GuestState;
use crate::machine::{MachineModel, SliceModel, Turn};
use vstd::prelude::*;

verus! {

impl SliceModel {
    /// Whether a turn of the running guest leads from this slice to `next`, the guest
    /// having retired fewer than `bound` instructions before.
    pub open spec fn turns_into(self, next: SliceModel, bound: int) -> bool {
        &&& self.guest.state == GuestState::Running
        &&& self.guest.vcpu.retired < bound
        &&& self.turn() matches Some((s, turn)) && s == next
    }

    /// Whether `states` leads from this slice by turns of the guest, each taken while
    /// the guest is running and has retired fewer than `quantum` instructions, until it
    /// no longer runs or has retired that many.
    pub open spec fn turns_through(self, states: Seq<SliceModel>, quantum: nat) -> bool {
        let bound = self.guest.vcpu.retired + quantum;
        &&& states.len() > 0
        &&& states[0] == self
        &&& forall|k: int, l: int|
            0 <= k < states.len() - 1 && l == k + 1 ==> (#[trigger] states[k]).turns_into(
                #[trigger] states[l],
                bound as int,
            )
        &&& states.last().guest.state != GuestState::Running || states.last().guest.vcpu.retired
            == bound
    }

    /// Law: a slice is the turns of a running guest, one after another, until it has
    /// retired the quantum or has stopped. Its outcome is where they lead, and it tells
    /// how many instructions have retired.
    pub proof fn law_slice_is_its_turns(self, quantum: nat)
        requires
            self.guest.state == GuestState::Running,
        ensures
            self.slice(quantum, 0) matches Some((s, all)) ==> {
                &&& all == s.guest.vcpu.retired - self.guest.vcpu.retired
                &&& exists|states: Seq<SliceModel>| #[trigger]
                    self.turns_through(states, quantum) && states.last() == s
            },
    {
        if let Some((s, all)) = self.slice(quantum, 0) {
            let states = self.lemma_turns(quantum, 0);
            self.lemma_slice_retires(quantum, 0);
            assert(self.turns_through(states, quantum));
        }
    }

    proof fn lemma_turns(self, quantum: nat, ran: nat) -> (states: Seq<SliceModel>)
        requires
            self.guest.state == GuestState::Running,
            ran <= quantum,
            self.slice(quantum, ran) is Some,
        ensures
            self.turns_through(states, (quantum - ran) as nat),
            self.slice(quantum, ran) matches Some((s, all)) && states.last() == s,
        decreases quantum - ran, self.guest.program.len() - self.guest.vcpu.pc,
    {
        if ran < quantum {
            self.lemma_turn_progress();
            let (next, turn) = self.turn()->0;
            let rest = match turn {
                Turn::Retired => next.lemma_turns(quantum, ran + 1),
                Turn::Resumed => next.lemma_turns(quantum, ran),
                Turn::Stopped => seq![next],
            };
            let states = seq![self] + rest;
            assert(states.last() == rest.last());
            let bound = self.guest.vcpu.retired + (quantum - ran);
            assert forall|k: int, l: int| 0 <= k < states.len() - 1 && l == k + 1 implies (
            #[trigger] states[k]).turns_into(#[trigger] states[l], bound) by {
                assert(states[l] == rest[k]);
                if k > 0 {
                    assert(states[k] == rest[k - 1]);
                    assert(rest[k - 1].turns_into(rest[k], bound));
                }
            }
            states
        } else {
            seq![self]
        }
    }
}

impl MachineModel {
    /// Whether `later` is this machine after guest `k` has had its place in a round. A
    /// running guest has had one slice of the quantum, which is entered in the schedule
    /// with the tick it began at, the guest's id and the instructions retired, and
    /// counted as a VM entry. For any other guest nothing has happened.
    pub open spec fn passes(self, k: int, later: MachineModel) -> bool {
        let part = SliceModel {
            guest: self.guests[k],
            mem: self.mem,
            rings: self.rings,
            exits: self.exits,
            tick: self.tick,
        };
        if self.guests[k].state == GuestState::Running {
            part.slice(self.quantum as nat, 0) matches Some((s, ran)) && {
                let entry = later.schedule[self.schedule.len() as int];
                &&& later.guests.len() == self.guests.len()
                &&& later.guests[k] == s.guest
                &&& forall|j: int|
                    0 <= j < self.guests.len() && j != k ==> #[trigger] later.guests[j]
                        == self.guests[j]
                &&& later.mem == s.mem
                &&& later.rings == s.rings
                &&& later.exits == s.exits
                &&& later.tick == s.tick
                &&& later.schedule.len() == self.schedule.len() + 1
                &&& forall|n: int|
                    0 <= n < self.schedule.len() ==> #[trigger] later.schedule[n]
                        == self.schedule[n]
                &&& self.tick <= u64::MAX ==> entry.tick == self.tick
                &&& entry.guest_id == self.guests[k].id
                &&& entry.instructions_run == ran
                &&& later.vm_entries == self.vm_entries + 1
                &&& later.quantum == self.quantum
                &&& later.max_rounds == self.max_rounds
                &&& later.budget_exhausted == self.budget_exhausted
            }
        } else {
            later == self
        }
    }

    /// Whether `machines` leads from this machine through one round: each guest, in
    /// order, has its place once.
    pub open spec fn rounds_through(self, machines: Seq<MachineModel>) -> bool {
        &&& machines.len() == self.guests.len() + 1
        &&& machines[0] == self
        &&& forall|k: int, l: int|
            0 <= k < self.guests.len() && l == k + 1 ==> (#[trigger] machines[k]).passes(
                k,
                #[trigger] machines[l],
            )
    }

    /// Law: a round gives each guest its place once, in order.
    pub proof fn law_round_is_its_slices(self)
        ensures
            self.round() matches Some(m) ==> exists|machines: Seq<MachineModel>| #[trigger]
                self.rounds_through(machines) && machines.last() == m,
    {
        if let Some(m) = self.round() {
            let machines = self.lemma_passes(0);
            assert(self.rounds_through(machines));
        }
    }

    proof fn lemma_passes(self, from: int) -> (machines: Seq<MachineModel>)
        requires
            0 <= from <= self.guests.len(),
            self.round_from(from) is Some,
        ensures
            machines.len() == self.guests.len() - from + 1,
            machines[0] == self,
            self.round_from(from) == Some(machines.last()),
            forall|k: int, l: int|
                0 <= k < self.guests.len() - from && l == k + 1 ==> (#[trigger] machines[k]).passes(
                    from + k,
                    #[trigger] machines[l],
                ),
        decreases self.guests.len() - from,
    {
        if from < self.guests.len() {
            let m = self.run_slice(from)->0;
            self.lemma_run_slice_keeps(from);
            self.part(from).lemma_slice_keeps(self.quantum as nat, 0);
            self.part(from).lemma_slice_retires(self.quantum as nat, 0);
            let rest = m.lemma_passes(from + 1);
            let machines = seq![self] + rest;
            assert(machines.last() == rest.last());
            assert(self.passes(from, m));
            assert forall|k: int, l: int|
                0 <= k < self.guests.len() - from && l == k + 1 implies (
            #[trigger] machines[k]).passes(from + k, #[trigger] machines[l]) by {
                assert(machines[l] == rest[k]);
                if k > 0 {
                    assert(machines[k] == rest[k - 1]);
                    assert(rest[k - 1].passes(from + 1 + (k - 1), rest[k]));
                }
            }
            machines
        } else {
            seq![self]
        }
    }

    /// Whether some guest is running.
    pub open spec fn some_running(self) -> bool {
        exists|i: int|
            0 <= i < self.guests.len() && (#[trigger] self.guests[i]).state == GuestState::Running
    }

    /// Whether a round, begun while some guest is running, leads to `next`.
    pub open spec fn leads_to(self, next: MachineModel) -> bool {
        self.some_running() && self.round() == Some(next)
    }

    /// Whether `machines` leads from this machine by whole rounds, each begun while
    /// some guest is running.
    pub open spec fn runs_through(self, machines: Seq<MachineModel>) -> bool {
        &&& machines.len() > 0
        &&& machines[0] == self
        &&& forall|k: int, l: int|
            0 <= k < machines.len() - 1 && l == k + 1 ==> (#[trigger] machines[k]).leads_to(
                #[trigger] machines[l],
            )
    }

    /// Law: a run is whole rounds, one after another, as long as some guest is running
    /// and the budget has rounds left. It tells the number of rounds, and reports the
    /// budget as exhausted exactly when some guest is still running then. Nothing else
    /// distinguishes its outcome from where the rounds lead.
    pub proof fn law_run_is_its_rounds(self)
        requires
            self.max_rounds > 0,
        ensures
            self.run() matches Some((m, rounds)) ==> {
                let start = MachineModel { budget_exhausted: false, ..self };
                &&& rounds <= self.max_rounds
                &&& rounds == self.max_rounds || !m.some_running()
                &&& m.budget_exhausted == m.some_running()
                &&& exists|machines: Seq<MachineModel>| #[trigger]
                    start.runs_through(machines) && machines.len() == rounds + 1 && m == (
                    MachineModel { budget_exhausted: m.some_running(), ..machines.last() })
            },
    {
        let start = MachineModel { budget_exhausted: false, ..self };
        self.law_run_is_bounded();
        if let Some((m, rounds)) = self.run() {
            let machines = start.lemma_rounds(0);
            assert(start.runs_through(machines));
            assert(m.some_running() == m.any_runnable());
        }
    }

    proof fn lemma_rounds(self, done: nat) -> (machines: Seq<MachineModel>)
        requires
            done < self.max_rounds,
            !self.budget_exhausted,
            self.run_from(done) is Some,
        ensures
            self.runs_through(machines),
            self.run_from(done) matches Some((m, all)) && {
                &&& all == done + machines.len() - 1
                &&& m == (MachineModel {
                    budget_exhausted: m.any_runnable(),
                    ..machines.last()
                })
            },
        decreases self.max_rounds - done,
    {
        assert(self.some_running() == self.any_runnable()) by {
            if self.any_runnable() {
                let i = choose|i: int|
                    0 <= i < self.guests.len() && (#[trigger] self.guests[i]).runnable();
                assert(self.guests[i].state == GuestState::Running);
            }
        }
        if self.any_runnable() {
            let m = self.round()->0;
            self.lemma_round_keeps(0);
            if done + 1 < self.max_rounds {
                let rest = m.lemma_rounds(done + 1);
                let machines = seq![self] + rest;
                assert(machines.last() == rest.last());
                assert forall|k: int, l: int|
                    0 <= k < machines.len() - 1 && l == k + 1 implies (
                #[trigger] machines[k]).leads_to(#[trigger] machines[l]) by {
                    assert(machines[l] == rest[k]);
                    if k > 0 {
                        assert(machines[k] == rest[k - 1]);
                        assert(rest[k - 1].leads_to(rest[k]));
                    } else {
                        assert(self.leads_to(rest[0]));
                    }
                }
                machines
            } else {
                let last = MachineModel { budget_exhausted: m.any_runnable(), ..m };
                assert(last.guests == m.guests);
                assert(last.any_runnable() == m.any_runnable());
                let machines = seq![self, m];
                assert forall|k: int, l: int|
                    0 <= k < machines.len() - 1 && l == k + 1 implies (
                #[trigger] machines[k]).leads_to(#[trigger] machines[l]) by {
                    assert(self.leads_to(m));
                }
                machines
            }
        } else {
            seq![self]
        }
    }
}

} // verus!
