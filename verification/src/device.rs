//! Virtual devices shared across guests through trap and emulate.
//!
//! A guest writes to its console with the privileged
//! [`crate::cpu::Instr::Out`] instruction, which cannot execute in guest
//! context. It traps, and the hypervisor calls [`VirtualConsole::write`] on the
//! guest's behalf. Because the device is only ever reached from the hypervisor's
//! exit handler, a guest cannot touch device state directly, and each guest's
//! output is kept in its own buffer so one guest cannot observe or corrupt
//! another's console.
//!
//! A write to the doorbell port drains the guest's shared memory ring instead.
use crate::mem::{HostMemory, MemoryModel, PAGE_WORDS};
use crate::text::decode_lossy;
use vstd::prelude::*;

verus! {

/// The device IO port a guest writes to ring the shared ring doorbell. Any other
/// port is an ordinary console write.
pub const RING_DOORBELL_PORT: u16 = 0x0D0;

/// The low eight bits of a word.
pub open spec fn low_byte(value: u64) -> u8 {
    (value % 256) as u8
}

/// The low eight bits of each word.
pub open spec fn low_bytes(words: Seq<u64>) -> Seq<u8> {
    words.map_values(|word: u64| low_byte(word))
}

fn truncate_to_byte(value: u64) -> (byte: u8)
    ensures
        byte == low_byte(value),
{
    assert(value & 0xFF == value % 256) by (bit_vector);
    (value & 0xFF) as u8
}

/// A shared ring's binding and what the host has received through it.
#[verifier::ext_equal]
pub struct RingModel {
    pub guest_id: u32,
    pub hfn: u64,
    pub gpn: u64,
    pub received: Seq<u64>,
}

impl RingModel {
    /// The producer index in the shared frame.
    pub open spec fn head(self, mem: MemoryModel) -> u64 {
        mem.word(self.hfn, SharedRing::HEAD)
    }

    /// The consumer index in the shared frame.
    pub open spec fn tail(self, mem: MemoryModel) -> u64 {
        mem.word(self.hfn, SharedRing::TAIL)
    }

    /// How many entries a drain consumes: those between tail and head, clamped
    /// to the number of slots.
    pub open spec fn available(self, mem: MemoryModel) -> u64 {
        let outstanding = self.head(mem).wrapping_sub(self.tail(mem));
        if outstanding < SharedRing::CAP {
            outstanding
        } else {
            SharedRing::CAP
        }
    }

    /// The word index of the slot that ring position `position` uses.
    pub open spec fn slot(position: u64) -> u64 {
        (SharedRing::FIRST_SLOT + position % SharedRing::CAP) as u64
    }

    /// The entries a drain consumes, oldest first.
    pub open spec fn published(self, mem: MemoryModel) -> Seq<u64> {
        Seq::new(
            self.available(mem) as nat,
            |k: int| mem.word(self.hfn, Self::slot(self.tail(mem).wrapping_add(k as u64))),
        )
    }

    /// The words `received` becomes when `fresh` arrives and at most `max_keep`
    /// words are retained: later words are dropped once the history is full.
    pub open spec fn retained(received: Seq<u64>, fresh: Seq<u64>, max_keep: nat) -> Seq<u64> {
        if received.len() >= max_keep {
            received
        } else if received.len() + fresh.len() <= max_keep {
            received + fresh
        } else {
            received + fresh.take(max_keep - received.len())
        }
    }

    /// This ring after a drain.
    pub open spec fn drained(self, mem: MemoryModel, max_keep: nat) -> RingModel {
        RingModel {
            received: Self::retained(self.received, self.published(mem), max_keep),
            ..self
        }
    }

    /// Host memory after a drain of this ring.
    pub open spec fn drained_mem(self, mem: MemoryModel) -> MemoryModel {
        mem.with_word(
            self.hfn,
            SharedRing::TAIL,
            self.tail(mem).wrapping_add(self.available(mem)),
        )
    }
}

/// A virtio style shared memory ring between one guest and the host.
///
/// The ring lives in a single host frame that the hypervisor grants into the
/// guest's address space read write (an explicit shared frame, the only frame
/// two owners may touch). The guest is the producer, the host the consumer.
/// Layout inside the frame, in words:
///   [0]    head, the producer index, written by the guest
///   [1]    tail, the consumer index, written by the host during emulation
///   [2..]  the ring slots, one payload word each
///
/// The guest fills a slot and bumps head with ordinary stores, then rings the
/// doorbell with a privileged [`crate::cpu::Instr::Out`], which traps. Only on
/// that trap does the host read the shared frame and drain new entries, so the
/// guest never reaches host state directly and the transfer still goes through
/// trap and emulate.
#[derive(Debug, Clone)]
pub struct SharedRing {
    /// The guest this ring is bound to. No other guest maps its frame.
    pub guest_id: u32,
    /// The host frame backing the ring.
    pub hfn: u64,
    /// The guest page the ring is mapped at in that guest's address space.
    pub gpn: u64,
    received: Vec<u64>,
}

impl View for SharedRing {
    type V = RingModel;

    closed spec fn view(&self) -> RingModel {
        RingModel {
            guest_id: self.guest_id,
            hfn: self.hfn,
            gpn: self.gpn,
            received: self.received@,
        }
    }
}

impl SharedRing {
    /// Word index of the producer head.
    pub const HEAD: u64 = 0;

    /// Word index of the consumer tail.
    pub const TAIL: u64 = 1;

    /// Word index of the first ring slot.
    pub const FIRST_SLOT: u64 = 2;

    /// Number of usable ring slots in one frame.
    pub const CAP: u64 = PAGE_WORDS - Self::FIRST_SLOT;

    /// Bind a ring to guest `guest_id`, backed by host frame `hfn`, mapped at
    /// guest page `gpn`.
    #[must_use]
    pub fn new(guest_id: u32, hfn: u64, gpn: u64) -> (ring: Self)
        ensures
            ring@ == (RingModel { guest_id, hfn, gpn, received: Seq::<u64>::empty() }),
    {
        Self { guest_id, hfn, gpn, received: Vec::new() }
    }

    /// Whether this ring is bound to guest `guest_id`.
    #[must_use]
    pub(crate) fn serves(&self, guest_id: u32) -> (yes: bool)
        ensures
            yes == (self@.guest_id == guest_id),
    {
        self.guest_id == guest_id
    }

    /// Consume every entry the guest has published since the last drain, advancing
    /// the consumer index in the shared frame. Returns how many entries were
    /// consumed.
    ///
    /// The number of outstanding entries is clamped to [`Self::CAP`], so even a
    /// malformed head that runs far ahead of tail can only make the host read a
    /// bounded number of slots from the guest's own shared frame. The retained
    /// history is capped at `max_keep` so a guest cannot grow host memory without
    /// bound by ringing the doorbell in a loop.
    pub fn drain(&mut self, mem: &mut HostMemory, max_keep: usize) -> (consumed: u64)
        requires
            old(mem)@.has_frame(old(self)@.hfn),
        ensures
            consumed == old(self)@.available(old(mem)@),
            final(self)@ == old(self)@.drained(old(mem)@, max_keep as nat),
            final(mem)@ == old(self)@.drained_mem(old(mem)@),
    {
        let head: u64 = mem.read_word(self.hfn, Self::HEAD);
        let first: u64 = mem.read_word(self.hfn, Self::TAIL);
        let outstanding: u64 = head.wrapping_sub(first);
        let available: u64 = if outstanding < Self::CAP {
            outstanding
        } else {
            Self::CAP
        };
        let ghost fresh = self@.published(mem@);
        let mut tail: u64 = first;
        let mut count: u64 = 0;
        assert(fresh.take(0) =~= Seq::<u64>::empty());
        while count < available
            invariant
                count <= available,
                available == old(self)@.available(old(mem)@),
                first == old(self)@.tail(old(mem)@),
                fresh == old(self)@.published(old(mem)@),
                tail == first.wrapping_add(count),
                mem@ == old(mem)@,
                mem@.has_frame(self.hfn),
                self.guest_id == old(self).guest_id,
                self.hfn == old(self).hfn,
                self.gpn == old(self).gpn,
                self@.received == RingModel::retained(
                    old(self)@.received,
                    fresh.take(count as int),
                    max_keep as nat,
                ),
            decreases available - count,
        {
            let slot: u64 = Self::FIRST_SLOT + (tail % Self::CAP);
            let value: u64 = mem.read_word(self.hfn, slot);
            assert(value == fresh[count as int]);
            assert(fresh.take(count + 1) =~= fresh.take(count as int).push(value));
            if self.received.len() < max_keep {
                self.received.push(value);
            }
            assert(self@.received =~= RingModel::retained(
                old(self)@.received,
                fresh.take(count + 1),
                max_keep as nat,
            ));
            tail = tail.wrapping_add(1);
            count = count + 1;
        }
        assert(fresh.take(count as int) =~= fresh);
        mem.write_word(self.hfn, Self::TAIL, tail);
        available
    }

    /// The payload words the host has drained from this ring so far.
    #[must_use]
    pub fn received(&self) -> (words: &[u64])
        ensures
            words@ == self@.received,
    {
        self.received.as_slice()
    }

    /// The drained payload low bytes decoded as a UTF-8 string, lossily.
    #[must_use]
    pub fn received_string(&self) -> (text: String)
        ensures
            text@ == crate::text::lossy_text(low_bytes(self@.received)),
            vstd::utf8::valid_utf8(low_bytes(self@.received)) ==> text@
                == vstd::utf8::decode_utf8(low_bytes(self@.received)),
    {
        let mut bytes: Vec<u8> = Vec::new();
        let mut i: usize = 0;
        while i < self.received.len()
            invariant
                i <= self.received.len(),
                bytes@ == low_bytes(self.received@.take(i as int)),
            decreases self.received.len() - i,
        {
            bytes.push(truncate_to_byte(self.received[i]));
            assert(self.received@.take(i + 1) =~= self.received@.take(i as int).push(
                self.received@[i as int],
            ));
            i = i + 1;
        }
        assert(self.received@.take(i as int) =~= self.received@);
        decode_lossy(bytes.as_slice())
    }
}

/// A per guest console that accumulates bytes written by the guest.
#[derive(Debug)]
pub struct VirtualConsole {
    bytes: Vec<u8>,
    writes: u64,
}

impl View for VirtualConsole {
    type V = Seq<u8>;

    closed spec fn view(&self) -> Seq<u8> {
        self.bytes@
    }
}

impl Clone for VirtualConsole {
    fn clone(&self) -> (console: Self)
        ensures
            console@ == self@,
    {
        proof {
            use_type_invariant(self);
        }
        let bytes = self.bytes.clone();
        assert(bytes@ =~= self.bytes@);
        Self { bytes, writes: self.writes }
    }
}

impl Default for VirtualConsole {
    fn default() -> (console: Self)
        ensures
            console@ == Seq::<u8>::empty(),
    {
        Self::new()
    }
}

impl VirtualConsole {
    /// Every write has appended one byte.
    #[verifier::type_invariant]
    spec fn counts_bytes(self) -> bool {
        self.writes == self.bytes@.len()
    }

    /// A fresh empty console.
    #[must_use]
    pub fn new() -> (console: Self)
        ensures
            console@ == Seq::<u8>::empty(),
    {
        Self { bytes: Vec::new(), writes: 0 }
    }

    /// Emulate a device write. The low eight bits of `value` are appended as a
    /// byte, matching a simple character output port.
    pub fn write(&mut self, value: u64)
        ensures
            final(self)@ == old(self)@.push(low_byte(value)),
    {
        proof {
            use_type_invariant(&*self);
        }
        let mut before = Self::new();
        std::mem::swap(&mut before, self);
        let Self { mut bytes, writes } = before;
        bytes.push(truncate_to_byte(value));
        // The count cannot overflow: it is the number of bytes held.
        assert(bytes@.len() == bytes.len());
        *self = Self { bytes, writes: writes + 1 };
    }

    /// The raw bytes written so far.
    #[must_use]
    pub fn bytes(&self) -> (bytes: &[u8])
        ensures
            bytes@ == self@,
    {
        self.bytes.as_slice()
    }

    /// The number of device writes serviced.
    #[must_use]
    pub fn write_count(&self) -> (count: u64)
        ensures
            count == self@.len(),
    {
        proof {
            use_type_invariant(self);
        }
        self.writes
    }

    /// The output decoded as UTF-8, lossily.
    #[must_use]
    pub fn as_string(&self) -> (text: String)
        ensures
            text@ == crate::text::lossy_text(self@),
            vstd::utf8::valid_utf8(self@) ==> text@ == vstd::utf8::decode_utf8(self@),
    {
        decode_lossy(self.bytes.as_slice())
    }
}

} // verus!
