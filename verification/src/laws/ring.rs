//! Laws of the shared ring: what a drain takes, what it leaves, and when it
//! happens.
use crate::cpu::ExitReason;
use crate::device::{RingModel, SharedRing, RING_DOORBELL_PORT};
use crate::hypervisor::{ExitRecord, RING_MAX_KEEP};
use crate::machine::{MachineModel, SliceModel};
use crate::mem::{MemoryModel, PAGE_WORDS};
use vstd::prelude::*;

verus! {

/// Law: a byte of a word is its low eight bits, and a row of words gives one byte each,
/// in order.
pub proof fn law_low_bytes(words: Seq<u64>, word: u64)
    ensures
        crate::device::low_byte(word) == word % 256,
        crate::device::low_bytes(words).len() == words.len(),
        forall|n: int|
            0 <= n < words.len() ==> #[trigger] crate::device::low_bytes(words)[n] == words[n]
                % 256,
{
}

impl RingModel {
    /// Law: the number of drained entries is clamped. Whatever head the guest
    /// writes, a drain takes at most as many entries as the ring has slots, and
    /// reads each from a slot of the ring's own frame.
    pub proof fn law_drain_is_clamped(self, mem: MemoryModel, position: u64)
        ensures
            self.available(mem) <= SharedRing::CAP,
            self.published(mem).len() == self.available(mem),
            SharedRing::FIRST_SLOT <= Self::slot(position) < PAGE_WORDS,
    {
    }

    /// Law: what the host retains is capped. A drain never takes the history past
    /// `max_keep` words, and never drops a word it has retained.
    pub proof fn law_history_is_capped(self, mem: MemoryModel, max_keep: nat)
        ensures
            self.received.is_prefix_of(self.drained(mem, max_keep).received),
            self.drained(mem, max_keep).received.len() <= max_keep || self.drained(
                mem,
                max_keep,
            ).received == self.received,
    {
        let fresh = self.published(mem);
        if self.received.len() < max_keep && self.received.len() + fresh.len() > max_keep {
            assert(fresh.take(max_keep - self.received.len()).len() == max_keep
                - self.received.len());
        }
    }

    /// Law: the host receives exactly what the guest published. When the guest has
    /// put `payload` into the slots from tail up and has moved head past it, a drain
    /// appends the payload, in order, as far as the history has room.
    pub proof fn law_drain_receives_payload(
        self,
        mem: MemoryModel,
        payload: Seq<u64>,
        max_keep: nat,
    )
        requires
            payload.len() <= SharedRing::CAP,
            self.head(mem) == self.tail(mem).wrapping_add(payload.len() as u64),
            forall|k: int|
                0 <= k < payload.len() ==> #[trigger] payload[k] == mem.word(
                    self.hfn,
                    Self::slot(self.tail(mem).wrapping_add(k as u64)),
                ),
            self.received.len() + payload.len() <= max_keep,
        ensures
            self.published(mem) == payload,
            self.drained(mem, max_keep).received == self.received + payload,
    {
        assert(self.published(mem) =~= payload);
        assert(self.received + Seq::<u64>::empty() =~= self.received);
        if self.received.len() >= max_keep {
            assert(payload =~= Seq::<u64>::empty());
        }
    }

    /// Law: a drain consumes. It moves tail on by what it took and changes no other
    /// word, and when no more entries were outstanding than the ring has slots, a
    /// second drain finds nothing.
    pub proof fn law_drain_consumes(self, mem: MemoryModel, hfn: u64, offset: u64)
        requires
            mem.wf(),
            mem.has_frame(self.hfn),
            mem.has_frame(hfn),
            offset < PAGE_WORDS,
        ensures
            self.drained_mem(mem).wf(),
            hfn != self.hfn || offset != SharedRing::TAIL ==> self.drained_mem(mem).word(
                hfn,
                offset,
            ) == mem.word(hfn, offset),
            self.head(self.drained_mem(mem)) == self.head(mem),
            self.tail(self.drained_mem(mem)) == self.tail(mem).wrapping_add(self.available(mem)),
            self.head(mem).wrapping_sub(self.tail(mem)) <= SharedRing::CAP ==> self.available(
                self.drained_mem(mem),
            ) == 0,
    {
    }
}

/// Whether `record` is a doorbell rung by guest `guest_id`.
pub open spec fn rings_doorbell(record: ExitRecord, guest_id: u32) -> bool {
    record.guest_id == guest_id && (record.reason matches ExitReason::DeviceIo { port, value }
        && port == RING_DOORBELL_PORT)
}

impl SliceModel {
    /// Law: a ring is drained only on its guest's doorbell. A slice in which no
    /// doorbell exit is recorded leaves every ring as it is.
    pub proof fn law_ring_waits_for_doorbell(self, quantum: nat, ran: nat)
        ensures
            self.slice(quantum, ran) matches Some((s, all)) ==> ((forall|n: int|
                self.exits.len() <= n < s.exits.len() ==> !rings_doorbell(
                    #[trigger] s.exits[n],
                    self.guest.id,
                )) ==> s.rings == self.rings),
        decreases quantum - ran, self.guest.program.len() - self.guest.vcpu.pc,
    {
        if ran < quantum {
            reveal(SliceModel::turn);
            self.lemma_turn_progress();
            self.lemma_turn_keeps();
            match self.turn() {
                Some((s, turn)) => {
                    let now = if turn is Retired {
                        ran + 1
                    } else {
                        ran
                    };
                    if turn !is Stopped {
                        s.law_ring_waits_for_doorbell(quantum, now);
                        s.lemma_slice_keeps(quantum, now);
                        if let Some((last, all)) = s.slice(quantum, now) {
                            if turn is Resumed {
                                let n = self.exits.len() as int;
                                assert(last.exits[n] == s.exits[n]);
                            }
                        }
                    } else {
                        assert(s.rings == self.rings);
                    }
                },
                None => {},
            }
        }
    }

    proof fn lemma_slice_caps_history(self, quantum: nat, ran: nat, k: int)
        requires
            0 <= k < self.rings.len(),
        ensures
            self.slice(quantum, ran) matches Some((s, all)) ==> {
                &&& self.rings[k].received.is_prefix_of(s.rings[k].received)
                &&& s.rings[k].received.len() <= RING_MAX_KEEP || s.rings[k].received
                    == self.rings[k].received
            },
        decreases quantum - ran, self.guest.program.len() - self.guest.vcpu.pc,
    {
        if ran < quantum {
            reveal(SliceModel::turn);
            self.lemma_turn_progress();
            self.lemma_turn_keeps();
            SliceModel::lemma_ring_of(self.rings, self.guest.id);
            match self.turn() {
                Some((s, turn)) => {
                    if let Some(step) = self.guest.vcpu.step(
                        self.guest.program,
                        self.guest.page_table,
                        self.mem,
                    ) {
                        self.rings[k].law_history_is_capped(step.mem, RING_MAX_KEEP as nat);
                    }
                    if turn is Retired {
                        s.lemma_slice_caps_history(quantum, ran + 1, k);
                    } else if turn is Resumed {
                        s.lemma_slice_caps_history(quantum, ran, k);
                    }
                },
                None => {},
            }
        }
    }
}

impl MachineModel {
    /// Whether the exits that `later` has beyond this machine hold no doorbell of
    /// guest `guest_id`.
    pub open spec fn silent_until(self, later: MachineModel, guest_id: u32) -> bool {
        forall|n: int|
            self.exits.len() <= n < later.exits.len() ==> !rings_doorbell(
                #[trigger] later.exits[n],
                guest_id,
            )
    }

    /// Law: the host reads a ring only on the doorbell trap of the ring's own guest.
    /// A run in which no such exit is recorded leaves the ring as it is, whatever the
    /// guest has published and whatever the other guests do.
    pub proof fn law_run_waits_for_doorbell(self, k: int)
        requires
            0 <= k < self.rings.len(),
        ensures
            self.run() matches Some((m, rounds)) ==> (self.silent_until(m, self.rings[k].guest_id)
                ==> m.rings[k] == self.rings[k]),
    {
        (MachineModel { budget_exhausted: false, ..self }).lemma_run_from_waits(0, k);
    }

    proof fn lemma_run_slice_waits(self, i: int, k: int)
        requires
            0 <= i < self.guests.len(),
            0 <= k < self.rings.len(),
        ensures
            self.run_slice(i) matches Some(m) ==> (self.silent_until(m, self.rings[k].guest_id)
                ==> m.rings[k] == self.rings[k]),
    {
        let part = self.part(i);
        part.law_ring_waits_for_doorbell(self.quantum as nat, 0);
        part.law_slice_is_confined(self.quantum as nat, 0);
        SliceModel::lemma_ring_of(self.rings, part.guest.id);
        if let Some(m) = self.run_slice(i) {
            if self.guests[i].runnable() && self.rings[k].guest_id == part.guest.id {
                let (s, ran) = part.slice(self.quantum as nat, 0)->0;
                assert(m.exits == s.exits);
            }
        }
    }

    proof fn lemma_round_waits(self, from: int, k: int)
        requires
            0 <= from,
            0 <= k < self.rings.len(),
        ensures
            self.round_from(from) matches Some(m) ==> (self.silent_until(m, self.rings[k].guest_id)
                ==> m.rings[k] == self.rings[k]),
        decreases self.guests.len() - from,
    {
        if from < self.guests.len() {
            self.lemma_run_slice_keeps(from);
            self.lemma_run_slice_waits(from, k);
            if let Some(m) = self.run_slice(from) {
                m.lemma_round_waits(from + 1, k);
                m.lemma_round_keeps(from + 1);
                if let Some(last) = m.round_from(from + 1) {
                    if self.silent_until(last, self.rings[k].guest_id) {
                        assert forall|n: int|
                            self.exits.len() <= n < m.exits.len() implies !rings_doorbell(
                            #[trigger] m.exits[n],
                            self.rings[k].guest_id,
                        ) by {
                            assert(last.exits[n] == m.exits[n]);
                        }
                    }
                }
            }
        }
    }

    proof fn lemma_run_from_waits(self, rounds: nat, k: int)
        requires
            0 <= k < self.rings.len(),
        ensures
            self.run_from(rounds) matches Some((m, all)) ==> (self.silent_until(
                m,
                self.rings[k].guest_id,
            ) ==> m.rings[k] == self.rings[k]),
        decreases self.max_rounds - rounds,
    {
        if self.any_runnable() {
            self.lemma_round_waits(0, k);
            self.lemma_round_keeps(0);
            if let Some(m) = self.round() {
                if rounds + 1 < self.max_rounds {
                    m.lemma_run_from_waits(rounds + 1, k);
                    m.lemma_run_from_keeps(rounds + 1);
                    if let Some((last, all)) = m.run_from(rounds + 1) {
                        if self.silent_until(last, self.rings[k].guest_id) {
                            assert forall|n: int|
                                self.exits.len() <= n < m.exits.len() implies !rings_doorbell(
                                #[trigger] m.exits[n],
                                self.rings[k].guest_id,
                            ) by {
                                assert(last.exits[n] == m.exits[n]);
                            }
                        }
                    }
                } else {
                    let last = MachineModel { budget_exhausted: true, ..m };
                    assert(last.exits == m.exits);
                    assert(self.silent_until(last, self.rings[k].guest_id) == self.silent_until(
                        m,
                        self.rings[k].guest_id,
                    ));
                }
            }
        }
    }

    /// Law: a guest cannot grow host memory without bound. However often it rings
    /// the doorbell in a run, what the host has received only grows at its end, and
    /// never past the retained maximum.
    pub proof fn law_run_caps_history(self, k: int)
        requires
            0 <= k < self.rings.len(),
        ensures
            self.run() matches Some((m, rounds)) ==> {
                &&& self.rings[k].received.is_prefix_of(m.rings[k].received)
                &&& m.rings[k].received.len() <= RING_MAX_KEEP || m.rings[k].received
                    == self.rings[k].received
            },
    {
        (MachineModel { budget_exhausted: false, ..self }).lemma_run_from_caps_history(0, k);
    }

    proof fn lemma_round_caps_history(self, from: int, k: int)
        requires
            0 <= k < self.rings.len(),
            0 <= from,
        ensures
            self.round_from(from) matches Some(m) ==> {
                &&& self.rings[k].received.is_prefix_of(m.rings[k].received)
                &&& m.rings[k].received.len() <= RING_MAX_KEEP || m.rings[k].received
                    == self.rings[k].received
            },
        decreases self.guests.len() - from,
    {
        if from < self.guests.len() {
            self.lemma_run_slice_keeps(from);
            self.part(from).lemma_slice_caps_history(self.quantum as nat, 0, k);
            if let Some(m) = self.run_slice(from) {
                m.lemma_round_caps_history(from + 1, k);
            }
        }
    }

    proof fn lemma_run_from_caps_history(self, rounds: nat, k: int)
        requires
            0 <= k < self.rings.len(),
        ensures
            self.run_from(rounds) matches Some((m, all)) ==> {
                &&& self.rings[k].received.is_prefix_of(m.rings[k].received)
                &&& m.rings[k].received.len() <= RING_MAX_KEEP || m.rings[k].received
                    == self.rings[k].received
            },
        decreases self.max_rounds - rounds,
    {
        if self.any_runnable() {
            self.lemma_round_caps_history(0, k);
            self.lemma_round_keeps(0);
            if let Some(m) = self.round() {
                if rounds + 1 < self.max_rounds {
                    m.lemma_run_from_caps_history(rounds + 1, k);
                }
            }
        }
    }
}

} // verus!
