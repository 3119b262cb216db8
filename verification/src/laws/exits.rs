//! What one turn of a guest does to the machine: what is recorded, what is emulated,
//! and what a doorbell delivers.
use crate::cpu::{ExitReason, StepModel, StepResult, VCpuModel};
use crate::device::RingModel;
use crate::guest::{GuestModel, GuestState};
use crate::machine::SliceModel;
use crate::mem::MemoryModel;
use vstd::prelude::*;

verus! {

/// The number that a word of the ring's indices wraps at.
pub open spec fn index_wrap() -> int {
    0x1_0000_0000_0000_0000
}

impl RingModel {
    /// How many published entries the host has not consumed, in the ring that lies in
    /// host frame `hfn`: how far the head, word 0, is ahead of the tail, word 1.
    pub open spec fn unconsumed(mem: MemoryModel, hfn: u64) -> int {
        (mem.frames[hfn as int][0] - mem.frames[hfn as int][1]) % index_wrap()
    }

    /// How many of them one drain takes: all, but no more than the fourteen slots.
    pub open spec fn taken(mem: MemoryModel, hfn: u64) -> int {
        if Self::unconsumed(mem, hfn) <= 14 {
            Self::unconsumed(mem, hfn)
        } else {
            14
        }
    }

    /// The word in the slot of the entry that is `n` behind the tail.
    pub open spec fn entry(mem: MemoryModel, hfn: u64, n: int) -> u64 {
        mem.frames[hfn as int][2 + ((mem.frames[hfn as int][1] + n) % index_wrap()) % 14]
    }

    /// Whether `after` is this ring, and `after_mem` host memory, when the host has
    /// taken the published entries: they come behind what was received, in order, as
    /// long as no more than `max_keep` words are held. The tail has moved on by the
    /// entries taken, and no other word and nothing else of the ring has changed.
    pub open spec fn delivers(
        self,
        mem: MemoryModel,
        max_keep: int,
        after: RingModel,
        after_mem: MemoryModel,
    ) -> bool {
        let taken = Self::taken(mem, self.hfn);
        let room = max_keep - self.received.len();
        let kept = if room <= 0 {
            0
        } else if room < taken {
            room
        } else {
            taken
        };
        &&& after.guest_id == self.guest_id
        &&& after.hfn == self.hfn
        &&& after.gpn == self.gpn
        &&& after.received.len() == self.received.len() + kept
        &&& forall|n: int|
            0 <= n < self.received.len() ==> #[trigger] after.received[n] == self.received[n]
        &&& forall|n: int|
            0 <= n < kept ==> #[trigger] after.received[self.received.len() + n] == Self::entry(
                mem,
                self.hfn,
                n,
            )
        &&& after_mem.next_free == mem.next_free
        &&& after_mem.frames.len() == mem.frames.len()
        &&& forall|f: int|
            0 <= f < mem.frames.len() ==> (#[trigger] after_mem.frames[f]).len()
                == mem.frames[f].len()
        &&& after_mem.frames[self.hfn as int][1] == (mem.frames[self.hfn as int][1] + taken)
            % index_wrap()
        &&& forall|f: int, w: int|
            0 <= f < mem.frames.len() && 0 <= w < mem.frames[f].len() && (f != self.hfn || w != 1)
                ==> #[trigger] after_mem.frames[f][w] == mem.frames[f][w]
    }

    /// Law: a drain delivers what was published, once, and says how many entries it
    /// took.
    pub proof fn law_drain_delivers(self, mem: MemoryModel, max_keep: nat)
        requires
            self.hfn < mem.frames.len(),
            mem.frames[self.hfn as int].len() == 16,
        ensures
            self.delivers(
                mem,
                max_keep as int,
                self.drained(mem, max_keep),
                self.drained_mem(mem),
            ),
            self.available(mem) == Self::taken(mem, self.hfn),
    {
        let fresh = self.published(mem);
        let frame = mem.frames[self.hfn as int];
        assert(self.available(mem) == Self::taken(mem, self.hfn));
        assert forall|n: int| 0 <= n < fresh.len() implies #[trigger] fresh[n] == Self::entry(
            mem,
            self.hfn,
            n,
        ) by {}
    }
}

impl RingModel {
    /// Of two deliveries, the second takes up where the first left off.
    proof fn lemma_two_deliveries(
        self,
        mem: MemoryModel,
        once: RingModel,
        once_mem: MemoryModel,
        later_mem: MemoryModel,
        twice: RingModel,
        twice_mem: MemoryModel,
    )
        requires
            self.received.len() + 28 <= 4096,
            self.delivers(mem, 4096, once, once_mem),
            once.delivers(later_mem, 4096, twice, twice_mem),
            later_mem.frames[self.hfn as int][1] == once_mem.frames[self.hfn as int][1],
        ensures
            ({
                let hfn = self.hfn;
                let had = self.received.len();
                let first = Self::taken(mem, hfn);
                let second = Self::taken(later_mem, hfn);
                let tail = mem.frames[hfn as int][1];
                &&& once.received.len() == had + first
                &&& twice.received.len() == had + first + second
                &&& forall|n: int|
                    0 <= n < had + first ==> #[trigger] twice.received[n] == once.received[n]
                &&& forall|n: int|
                    0 <= n < second ==> #[trigger] twice.received[had + first + n]
                        == later_mem.frames[hfn as int][2 + ((tail + first + n) % index_wrap())
                        % 14]
                &&& later_mem.frames[hfn as int][0] == mem.frames[hfn as int][0]
                    && Self::unconsumed(mem, hfn) <= 14 ==> {
                    &&& second == 0
                    &&& twice.received == once.received
                    &&& twice_mem.frames[hfn as int][1] == once_mem.frames[hfn as int][1]
                }
            }),
    {
        let hfn = self.hfn;
        let had = self.received.len();
        let first = Self::taken(mem, hfn);
        let second = Self::taken(later_mem, hfn);
        let tail = mem.frames[hfn as int][1];
        assert forall|n: int| 0 <= n < second implies #[trigger] twice.received[had + first + n]
            == later_mem.frames[hfn as int][2 + ((tail + first + n) % index_wrap()) % 14] by {
            assert(twice.received[once.received.len() + n] == Self::entry(later_mem, hfn, n));
            assert((((tail + first) % index_wrap()) + n) % index_wrap() == (tail + first + n)
                % index_wrap());
        }
        if later_mem.frames[hfn as int][0] == mem.frames[hfn as int][0] && Self::unconsumed(
            mem,
            hfn,
        ) <= 14 {
            assert(second == 0);
            assert(twice.received =~= once.received);
        }
    }
}

impl SliceModel {
    /// The step that the guest's vCPU takes next.
    pub open spec fn next_step(self) -> Option<StepModel> {
        self.guest.vcpu.step(self.guest.program, self.guest.page_table, self.mem)
    }

    /// Whether one more exit can be counted, and every ring and every frame is in
    /// order: frames have sixteen words, and rings lie in frames that exist.
    pub open spec fn in_order(self) -> bool {
        &&& self.tick < u64::MAX
        &&& self.guest.io_exits < u64::MAX
        &&& self.guest.cr_exits < u64::MAX
        &&& self.guest.fault_exits < u64::MAX
        &&& self.guest.vcpu.pc <= usize::MAX
        &&& forall|f: int|
            0 <= f < self.mem.frames.len() ==> (#[trigger] self.mem.frames[f]).len() == 16
        &&& forall|k: int|
            0 <= k < self.rings.len() ==> (#[trigger] self.rings[k]).hfn < self.mem.frames.len()
    }

    /// Whether `later` has one more record in the log, with the next tick, the guest's
    /// id, the place of the instruction that the guest left at, and `reason`.
    pub open spec fn records(self, later: SliceModel, reason: ExitReason) -> bool {
        let record = later.exits[self.exits.len() as int];
        &&& later.tick == self.tick + 1
        &&& later.exits.len() == self.exits.len() + 1
        &&& forall|n: int| 0 <= n < self.exits.len() ==> #[trigger] later.exits[n] == self.exits[n]
        &&& record.tick == self.tick + 1
        &&& record.guest_id == self.guest.id
        &&& record.pc == self.guest.vcpu.pc
        &&& record.reason == reason
    }

    /// Whether the first ring bound to the guest, if there is one, has been drained from
    /// this slice, with host memory `mem`, to `later`, and no other ring has changed.
    pub open spec fn rung(self, mem: MemoryModel, later: SliceModel) -> bool {
        &&& later.rings.len() == self.rings.len()
        &&& (forall|k: int|
            0 <= k < self.rings.len() ==> (#[trigger] self.rings[k]).guest_id != self.guest.id)
            ==> later.rings == self.rings && later.mem == mem
        &&& forall|k: int|
            0 <= k < self.rings.len() && (#[trigger] self.rings[k]).guest_id == self.guest.id && (
            forall|j: int| 0 <= j < k ==> (#[trigger] self.rings[j]).guest_id != self.guest.id)
                ==> {
                &&& self.rings[k].delivers(mem, 4096, later.rings[k], later.mem)
                &&& forall|j: int|
                    0 <= j < self.rings.len() && j != k ==> #[trigger] later.rings[j]
                        == self.rings[j]
            }
    }

    /// Law: a turn in which an instruction retires is that step of the vCPU and nothing
    /// else. Nothing is recorded, no device and no ring changes.
    pub proof fn law_retired_turn(self, step: StepModel)
        requires
            self.next_step() == Some(step),
            step.result is Continue,
        ensures
            self.turn() matches Some((s, turn)) && {
                &&& turn is Retired
                &&& s.guest == (GuestModel { vcpu: step.vcpu, ..self.guest })
                &&& s.mem == step.mem
                &&& s.rings == self.rings
                &&& s.exits == self.exits
                &&& s.tick == self.tick
            },
    {
        reveal(SliceModel::turn);
    }

    /// Law: a device write is recorded and emulated, and the guest goes on. On the
    /// doorbell port, 0xD0, the guest's ring is drained. On any other port the low byte
    /// of the value comes behind what the guest's console holds.
    pub proof fn law_device_turn(self, step: StepModel, port: u16, value: u64)
        requires
            self.next_step() == Some(step),
            step.result == StepResult::Exit(ExitReason::DeviceIo { port, value }),
            self.in_order(),
        ensures
            self.turn() matches Some((s, turn)) && {
                &&& turn is Resumed
                &&& self.records(s, ExitReason::DeviceIo { port, value })
                &&& s.guest == (GuestModel {
                    vcpu: step.vcpu,
                    console: s.guest.console,
                    io_exits: self.guest.io_exits + 1,
                    ..self.guest
                })
                &&& port == 0xD0 ==> s.guest.console == self.guest.console && self.rung(
                    step.mem,
                    s,
                )
                &&& port != 0xD0 ==> {
                    &&& s.guest.console.len() == self.guest.console.len() + 1
                    &&& s.guest.console[self.guest.console.len() as int] == value % 256
                    &&& forall|n: int|
                        0 <= n < self.guest.console.len() ==> #[trigger] s.guest.console[n]
                            == self.guest.console[n]
                    &&& s.mem == step.mem
                    &&& s.rings == self.rings
                }
            },
    {
        reveal(SliceModel::turn);
        self.guest.vcpu.law_step_writes_are_confined(
            self.guest.program,
            self.guest.page_table,
            self.mem,
        );
        Self::lemma_ring_of(self.rings, self.guest.id);
        if let Some(k) = Self::ring_of(self.rings, self.guest.id) {
            self.rings[k].law_drain_delivers(step.mem, 4096);
        } else {
            Self::lemma_ring_exists(self.rings, self.guest.id, self.rings.len() as int);
        }
        let (s, turn) = self.turn()->0;
        assert forall|k: int|
            0 <= k < self.rings.len() && (#[trigger] self.rings[k]).guest_id == self.guest.id && (
            forall|j: int|
                0 <= j < k ==> (#[trigger] self.rings[j]).guest_id != self.guest.id) && port
                == 0xD0 implies {
            &&& self.rings[k].delivers(step.mem, 4096, s.rings[k], s.mem)
            &&& forall|j: int|
                0 <= j < self.rings.len() && j != k ==> #[trigger] s.rings[j] == self.rings[j]
        } by {
            assert(Self::first_ring(self.rings, self.guest.id, k));
        }
    }

    /// Law: a control register write is recorded and emulated, and the guest goes on. It
    /// sets that control register of the guest and no other.
    pub proof fn law_control_turn(self, step: StepModel, cr: u8, value: u64)
        requires
            self.next_step() == Some(step),
            step.result == StepResult::Exit(ExitReason::SetControlReg { cr, value }),
            self.guest.vcpu.cr.len() == 4,
            self.in_order(),
        ensures
            self.turn() matches Some((s, turn)) && {
                &&& turn is Resumed
                &&& self.records(s, ExitReason::SetControlReg { cr, value })
                &&& cr < 4
                &&& s.guest.vcpu == (VCpuModel { cr: s.guest.vcpu.cr, ..step.vcpu })
                &&& s.guest.vcpu.cr.len() == 4
                &&& s.guest.vcpu.cr[cr as int] == value
                &&& forall|r: int|
                    0 <= r < 4 && r != cr ==> #[trigger] s.guest.vcpu.cr[r]
                        == self.guest.vcpu.cr[r]
                &&& s.guest == (GuestModel {
                    vcpu: s.guest.vcpu,
                    cr_exits: self.guest.cr_exits + 1,
                    ..self.guest
                })
                &&& s.mem == step.mem
                &&& s.rings == self.rings
            },
    {
        reveal(SliceModel::turn);
    }

    /// Law: a halt or the end of the program is recorded and halts the guest, and a memory
    /// fault or an invalid operation is recorded, counted and stops it as faulted.
    /// Nothing else of the machine changes.
    pub proof fn law_stopping_turn(self, step: StepModel, reason: ExitReason)
        requires
            self.next_step() == Some(step),
            step.result == StepResult::Exit(reason),
            self.in_order(),
        ensures
            reason is Halt || reason is EndOfProgram ==> (self.turn() matches Some((s, turn)) && {
                &&& turn is Stopped
                &&& self.records(s, reason)
                &&& s.guest == (GuestModel {
                    vcpu: step.vcpu,
                    state: GuestState::Halted,
                    ..self.guest
                })
                &&& s.mem == step.mem
                &&& s.rings == self.rings
            }),
            reason is MemFault || reason is InvalidOp ==> (self.turn() matches Some((s, turn)) && {
                &&& turn is Stopped
                &&& self.records(s, reason)
                &&& s.guest == (GuestModel {
                    vcpu: step.vcpu,
                    state: GuestState::Faulted,
                    fault_exits: self.guest.fault_exits + 1,
                    ..self.guest
                })
                &&& s.mem == step.mem
                &&& s.rings == self.rings
            }),
    {
        reveal(SliceModel::turn);
    }

    /// Whether the next turn of the guest is an emulated doorbell.
    pub open spec fn rings_next(self) -> bool {
        self.next_step() matches Some(step) && (step.result matches StepResult::Exit(
            ExitReason::DeviceIo { port, value },
        ) && port == 0xD0)
    }

    /// Law: each entry is delivered once. Let the guest ring the doorbell, and ring it
    /// again when it has left the tail alone, possibly with more published. The second
    /// doorbell takes up behind the first: it delivers the entries from the tail that
    /// the first one left on, and when the head has not moved either and the first one
    /// took all, nothing.
    pub proof fn law_doorbells_deliver_once(self, again: SliceModel, k: int)
        requires
            self.in_order(),
            again.in_order(),
            self.rings_next(),
            again.rings_next(),
            0 <= k < self.rings.len(),
            self.rings[k].guest_id == self.guest.id,
            forall|j: int| 0 <= j < k ==> (#[trigger] self.rings[j]).guest_id != self.guest.id,
            again.guest.id == self.guest.id,
            self.turn() matches Some((s, turn)) && {
                &&& again.rings == s.rings
                &&& again.mem.frames.len() == s.mem.frames.len()
                &&& again.mem.frames[self.rings[k].hfn as int][1]
                    == s.mem.frames[self.rings[k].hfn as int][1]
            },
            self.rings[k].received.len() + 28 <= 4096,
        ensures
            self.turn() matches Some((s, turn)) && (again.turn() matches Some((t, other)) && {
                let hfn = self.rings[k].hfn;
                let had = self.rings[k].received.len();
                let first = RingModel::taken(self.mem, hfn);
                let second = RingModel::taken(again.mem, hfn);
                let tail = self.mem.frames[hfn as int][1];
                &&& s.rings[k].received.len() == had + first
                &&& t.rings[k].received.len() == had + first + second
                &&& forall|n: int|
                    0 <= n < had + first ==> #[trigger] t.rings[k].received[n]
                        == s.rings[k].received[n]
                &&& forall|n: int|
                    0 <= n < second ==> #[trigger] t.rings[k].received[had + first + n]
                        == again.mem.frames[hfn as int][2 + ((tail + first + n) % index_wrap())
                        % 14]
                &&& again.mem.frames[hfn as int][0] == self.mem.frames[hfn as int][0]
                    && RingModel::unconsumed(self.mem, hfn) <= 14 ==> {
                    &&& second == 0
                    &&& t.rings[k].received == s.rings[k].received
                    &&& t.mem.frames[hfn as int][1] == s.mem.frames[hfn as int][1]
                }
            }),
    {
        self.lemma_doorbell_delivers(k);
        let (s, turn) = self.turn()->0;
        assert forall|j: int| 0 <= j < k implies (#[trigger] again.rings[j]).guest_id
            != again.guest.id by {
            assert(s.rings[j] == self.rings[j]);
        }
        again.lemma_doorbell_delivers(k);
        let (t, other) = again.turn()->0;
        self.rings[k].lemma_two_deliveries(
            self.mem,
            s.rings[k],
            s.mem,
            again.mem,
            t.rings[k],
            t.mem,
        );
    }

    /// A doorbell drains the first ring bound to the guest.
    proof fn lemma_doorbell_delivers(self, k: int)
        requires
            self.in_order(),
            self.rings_next(),
            0 <= k < self.rings.len(),
            self.rings[k].guest_id == self.guest.id,
            forall|j: int| 0 <= j < k ==> (#[trigger] self.rings[j]).guest_id != self.guest.id,
        ensures
            self.turn() matches Some((s, turn)) && {
                &&& self.rings[k].delivers(self.mem, 4096, s.rings[k], s.mem)
                &&& s.rings.len() == self.rings.len()
                &&& forall|j: int| 0 <= j < k ==> #[trigger] s.rings[j] == self.rings[j]
            },
    {
        let step = self.next_step()->0;
        let reason = step.result->Exit_0;
        self.law_device_turn(step, reason->port, reason->DeviceIo_value);
        self.guest.vcpu.law_trap_cannot_be_bypassed(
            self.guest.program,
            self.guest.page_table,
            self.mem,
        );
    }
}

} // verus!
