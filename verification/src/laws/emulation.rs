//! Laws of trap and emulate: every exit is recorded, and the recorded exits alone
//! explain what became of the devices and control registers.
use crate::cpu::ExitReason;
use crate::device::RING_DOORBELL_PORT;
use crate::guest::{GuestModel, GuestState};
use crate::hypervisor::ExitRecord;
use crate::machine::{MachineModel, SliceModel, Turn};
use vstd::prelude::*;

verus! {

/// The state of a guest that only the hypervisor may change, on an exit: its
/// console, its control registers, its lifecycle state, and its exit counts.
#[verifier::ext_equal]
pub struct Privileged {
    pub console: Seq<u8>,
    pub cr: Seq<u64>,
    pub state: GuestState,
    pub io_exits: nat,
    pub cr_exits: nat,
    pub fault_exits: nat,
}

impl Privileged {
    /// This state of `guest`.
    pub open spec fn of(guest: GuestModel) -> Privileged {
        Privileged {
            console: guest.console,
            cr: guest.vcpu.cr,
            state: guest.state,
            io_exits: guest.io_exits,
            cr_exits: guest.cr_exits,
            fault_exits: guest.fault_exits,
        }
    }

    /// This state after an exit with `reason` is emulated. A device write appends
    /// the low byte to the console, unless it rings the doorbell. A control register
    /// write sets the register. A halt or the end of the program halts the guest, and
    /// a memory fault or an invalid operation stops it as faulted.
    pub open spec fn after(self, reason: ExitReason) -> Privileged {
        match reason {
            ExitReason::DeviceIo { port, value } => Privileged {
                console: if port == RING_DOORBELL_PORT {
                    self.console
                } else {
                    self.console.push((value % 256) as u8)
                },
                io_exits: self.io_exits + 1,
                ..self
            },
            ExitReason::SetControlReg { cr, value } => Privileged {
                cr: self.cr.update(cr as int, value),
                cr_exits: self.cr_exits + 1,
                ..self
            },
            ExitReason::Halt | ExitReason::EndOfProgram => Privileged {
                state: GuestState::Halted,
                ..self
            },
            ExitReason::MemFault { .. } | ExitReason::InvalidOp { .. } => Privileged {
                state: GuestState::Faulted,
                fault_exits: self.fault_exits + 1,
                ..self
            },
        }
    }

    /// This state after the exits of guest `guest_id` in `log` are emulated.
    pub open spec fn replay(self, log: Seq<ExitRecord>, guest_id: u32) -> Privileged
        decreases log.len(),
    {
        if log.len() == 0 {
            self
        } else if log.last().guest_id == guest_id {
            self.replay(log.drop_last(), guest_id).after(log.last().reason)
        } else {
            self.replay(log.drop_last(), guest_id)
        }
    }

    proof fn lemma_replay_composes(self, first: Seq<ExitRecord>, second: Seq<ExitRecord>, id: u32)
        ensures
            self.replay(first + second, id) == self.replay(first, id).replay(second, id),
        decreases second.len(),
    {
        if second.len() == 0 {
            assert(first + second =~= first);
        } else {
            self.lemma_replay_composes(first, second.drop_last(), id);
            assert((first + second).drop_last() =~= first + second.drop_last());
            assert((first + second).last() == second.last());
        }
    }

    proof fn lemma_replay_of_others(self, log: Seq<ExitRecord>, id: u32)
        requires
            forall|n: int| 0 <= n < log.len() ==> (#[trigger] log[n]).guest_id != id,
        ensures
            self.replay(log, id) == self,
        decreases log.len(),
    {
        if log.len() > 0 {
            assert(log.last() == log[log.len() - 1]);
            let rest = log.drop_last();
            assert forall|n: int| 0 <= n < rest.len() implies (#[trigger] rest[n]).guest_id
                != id by {
                assert(rest[n] == log[n]);
            }
            self.lemma_replay_of_others(rest, id);
        }
    }
}

/// The records that `later` has beyond `earlier`.
pub open spec fn new_records(earlier: Seq<ExitRecord>, later: Seq<ExitRecord>) -> Seq<ExitRecord> {
    later.skip(earlier.len() as int)
}

impl SliceModel {
    /// Whether the exits recorded from this slice to `later` are the guest's own,
    /// numbered on from the tick, and explain what became of the guest's privileged
    /// state.
    pub open spec fn explains(self, later: SliceModel) -> bool {
        let fresh = new_records(self.exits, later.exits);
        &&& self.exits.is_prefix_of(later.exits)
        &&& later.tick == self.tick + fresh.len()
        &&& forall|n: int|
            0 <= n < fresh.len() ==> {
                &&& (#[trigger] fresh[n]).guest_id == self.guest.id
                &&& fresh[n].tick == (self.tick + n + 1) as u64
            }
        &&& later.guest.id == self.guest.id
        &&& Privileged::of(later.guest) == Privileged::of(self.guest).replay(fresh, self.guest.id)
    }

    proof fn lemma_turn_explains(self)
        ensures
            self.turn() matches Some((s, turn)) ==> {
                &&& self.explains(s)
                &&& turn is Retired ==> s.exits == self.exits
            },
    {
        reveal(SliceModel::turn);
        self.lemma_turn_keeps();
        self.guest.vcpu.law_trap_cannot_be_bypassed(
            self.guest.program,
            self.guest.page_table,
            self.mem,
        );
        if let Some((s, turn)) = self.turn() {
            let fresh = new_records(self.exits, s.exits);
            if turn is Retired {
                assert(fresh =~= Seq::empty());
            } else {
                let record = s.exits.last();
                assert(fresh =~= seq![record]);
                assert(fresh.drop_last() =~= Seq::empty());
                let start = Privileged::of(self.guest);
                assert(start.replay(fresh.drop_last(), self.guest.id) == start);
                assert(start.replay(fresh, self.guest.id) == start.after(record.reason));
            }
        }
    }

    proof fn lemma_explains_composes(self, middle: SliceModel, later: SliceModel)
        requires
            self.explains(middle),
            middle.explains(later),
        ensures
            self.explains(later),
    {
        let first = new_records(self.exits, middle.exits);
        let second = new_records(middle.exits, later.exits);
        let fresh = new_records(self.exits, later.exits);
        assert(fresh =~= first + second);
        Privileged::of(self.guest).lemma_replay_composes(first, second, self.guest.id);
        assert forall|n: int| 0 <= n < fresh.len() implies {
            &&& (#[trigger] fresh[n]).guest_id == self.guest.id
            &&& fresh[n].tick == (self.tick + n + 1) as u64
        } by {
            if n < first.len() {
                assert(fresh[n] == first[n]);
            } else {
                assert(fresh[n] == second[n - first.len()]);
            }
        }
    }

    /// Law: every exit in a slice is recorded under the guest's id with the next
    /// tick, and the recorded exits alone explain what became of the guest's
    /// console, control registers, lifecycle state and exit counts.
    pub proof fn law_slice_is_explained(self, quantum: nat, ran: nat)
        ensures
            self.slice(quantum, ran) matches Some((s, all)) ==> self.explains(s),
        decreases quantum - ran, self.guest.program.len() - self.guest.vcpu.pc,
    {
        if ran >= quantum {
            assert(new_records(self.exits, self.exits) =~= Seq::empty());
        } else {
            self.lemma_turn_progress();
            self.lemma_turn_explains();
            match self.turn() {
                Some((s, Turn::Retired)) => {
                    s.law_slice_is_explained(quantum, ran + 1);
                    if let Some((last, all)) = s.slice(quantum, ran + 1) {
                        self.lemma_explains_composes(s, last);
                    }
                },
                Some((s, Turn::Resumed)) => {
                    s.law_slice_is_explained(quantum, ran);
                    if let Some((last, all)) = s.slice(quantum, ran) {
                        self.lemma_explains_composes(s, last);
                    }
                },
                _ => {},
            }
        }
    }
}

impl MachineModel {
    /// Whether the exits recorded from this machine to `later` are numbered on from
    /// the tick, and explain what became of every guest's privileged state.
    pub open spec fn explains(self, later: MachineModel) -> bool {
        let fresh = new_records(self.exits, later.exits);
        &&& self.exits.is_prefix_of(later.exits)
        &&& later.tick == self.tick + fresh.len()
        &&& forall|n: int|
            0 <= n < fresh.len() ==> (#[trigger] fresh[n]).tick == (self.tick + n + 1) as u64
        &&& later.guests.len() == self.guests.len()
        &&& forall|i: int|
            0 <= i < self.guests.len() ==> {
                &&& (#[trigger] later.guests[i]).id == self.guests[i].id
                &&& Privileged::of(later.guests[i]) == Privileged::of(self.guests[i]).replay(
                    fresh,
                    self.guests[i].id,
                )
            }
    }

    /// Law: over a whole run every exit is recorded with the next tick, and each
    /// guest's recorded exits alone explain what became of its console, control
    /// registers, lifecycle state and exit counts. One guest's exits never show on
    /// another's console.
    pub proof fn law_run_is_explained(self)
        requires
            self.numbered(),
        ensures
            self.run() matches Some((m, rounds)) ==> self.explains(m),
    {
        let start = MachineModel { budget_exhausted: false, ..self };
        start.lemma_run_from_explains(0);
    }

    proof fn lemma_explains_itself(self)
        ensures
            self.explains(self),
    {
        assert(new_records(self.exits, self.exits) =~= Seq::empty());
    }

    proof fn lemma_explains_composes(self, middle: MachineModel, later: MachineModel)
        requires
            self.explains(middle),
            middle.explains(later),
        ensures
            self.explains(later),
    {
        let first = new_records(self.exits, middle.exits);
        let second = new_records(middle.exits, later.exits);
        let fresh = new_records(self.exits, later.exits);
        assert(fresh =~= first + second);
        assert forall|i: int| 0 <= i < self.guests.len() implies {
            &&& (#[trigger] later.guests[i]).id == self.guests[i].id
            &&& Privileged::of(later.guests[i]) == Privileged::of(self.guests[i]).replay(
                fresh,
                self.guests[i].id,
            )
        } by {
            assert(middle.guests[i].id == self.guests[i].id);
            Privileged::of(self.guests[i]).lemma_replay_composes(first, second, self.guests[i].id);
        }
        assert forall|n: int| 0 <= n < fresh.len() implies (#[trigger] fresh[n]).tick == (self.tick
            + n + 1) as u64 by {
            if n < first.len() {
                assert(fresh[n] == first[n]);
            } else {
                assert(fresh[n] == second[n - first.len()]);
            }
        }
    }

    proof fn lemma_run_slice_explains(self, j: int)
        requires
            self.numbered(),
            0 <= j < self.guests.len(),
        ensures
            self.run_slice(j) matches Some(m) ==> self.explains(m),
    {
        self.lemma_explains_itself();
        self.lemma_run_slice_keeps(j);
        self.part(j).law_slice_is_explained(self.quantum as nat, 0);
        if let Some(m) = self.run_slice(j) {
            if self.guests[j].runnable() {
                let fresh = new_records(self.exits, m.exits);
                assert forall|i: int| 0 <= i < self.guests.len() implies {
                    &&& (#[trigger] m.guests[i]).id == self.guests[i].id
                    &&& Privileged::of(m.guests[i]) == Privileged::of(self.guests[i]).replay(
                        fresh,
                        self.guests[i].id,
                    )
                } by {
                    if i != j {
                        Privileged::of(self.guests[i]).lemma_replay_of_others(
                            fresh,
                            self.guests[i].id,
                        );
                    }
                }
            }
        }
    }

    proof fn lemma_round_explains(self, from: int)
        requires
            self.numbered(),
            0 <= from,
        ensures
            self.round_from(from) matches Some(m) ==> self.explains(m) && m.numbered(),
        decreases self.guests.len() - from,
    {
        self.lemma_explains_itself();
        if from < self.guests.len() {
            self.lemma_run_slice_explains(from);
            if let Some(m) = self.run_slice(from) {
                m.lemma_round_explains(from + 1);
                if let Some(last) = m.round_from(from + 1) {
                    self.lemma_explains_composes(m, last);
                }
            }
        }
    }

    proof fn lemma_run_from_explains(self, rounds: nat)
        requires
            self.numbered(),
        ensures
            self.run_from(rounds) matches Some((m, all)) ==> self.explains(m),
        decreases self.max_rounds - rounds,
    {
        self.lemma_explains_itself();
        if self.any_runnable() {
            self.lemma_round_explains(0);
            self.lemma_round_keeps(0);
            if let Some(m) = self.round() {
                if rounds + 1 < self.max_rounds {
                    m.lemma_run_from_explains(rounds + 1);
                    if let Some((last, all)) = m.run_from(rounds + 1) {
                        self.lemma_explains_composes(m, last);
                    }
                }
            }
        }
    }
}

} // verus!
