//! Laws of the demonstration programs: what they do to the guest that runs them,
//! alone and among any neighbors.
use crate::cpu::{ExitReason, FaultKind, Instr, MemAccess, VCpuModel};
use crate::device::{SharedRing, RING_DOORBELL_PORT};
use crate::guest::{GuestModel, GuestState};
use crate::hypervisor::RING_MAX_KEEP;
use crate::machine::{MachineModel, SliceModel};
use crate::mem::{MemoryModel, Perm, TableModel, PAGE_WORDS};
use vstd::prelude::*;

verus! {

impl TableModel {
    /// Whether the guest may read and write guest physical address `gpa`.
    pub open spec fn owns(self, gpa: u64) -> bool {
        self.translate(gpa, true) is Ok && self.translate(gpa, false) is Ok
    }

    /// The word that a load of guest physical address `gpa` gives.
    pub open spec fn sees(self, mem: MemoryModel, gpa: u64) -> u64 {
        let (hfn, offset) = self.translate(gpa, false)->Ok_0;
        mem.word(hfn, offset)
    }
}

impl SliceModel {
    /// This slice with the guest's vCPU and host memory replaced.
    pub open spec fn moved(self, vcpu: VCpuModel, mem: MemoryModel) -> SliceModel {
        SliceModel { guest: GuestModel { vcpu, ..self.guest }, mem, ..self }
    }

    /// The instruction `ahead` places after the next one.
    pub open spec fn instr(self, ahead: int) -> Instr {
        self.guest.program[self.guest.vcpu.pc + ahead]
    }

    /// Whether `count` more instructions can be counted, as the slice having an outcome
    /// shows for those it retires.
    pub open spec fn can_retire(self, count: nat, quantum: nat, ran: nat) -> bool {
        self.slice(quantum, ran) is Some || self.guest.vcpu.retired + count <= u64::MAX
    }

    /// A step that continues is one turn of the slice.
    proof fn lemma_continues(self, quantum: nat, ran: nat)
        requires
            ran < quantum,
            ({
                let step = self.guest.vcpu.step(
                    self.guest.program,
                    self.guest.page_table,
                    self.mem,
                );
                &&& step is Some || self.slice(quantum, ran) is Some
                &&& step matches Some(step) ==> step.result is Continue
            }),
        ensures
            self.guest.vcpu.step(self.guest.program, self.guest.page_table, self.mem) is Some,
            ({
                let step = self.guest.vcpu.step(
                    self.guest.program,
                    self.guest.page_table,
                    self.mem,
                )->0;
                self.slice(quantum, ran) == self.moved(step.vcpu, step.mem).slice(quantum, ran + 1)
            }),
    {
        reveal(SliceModel::turn);
    }

    /// This slice after the three instructions that store `value` at `gpa`.
    pub open spec fn stored(self, gpa: u64, value: u64) -> SliceModel {
        let vcpu = self.guest.vcpu;
        let (hfn, offset) = self.guest.page_table.translate(gpa, true)->Ok_0;
        self.moved(
            VCpuModel {
                regs: vcpu.regs.update(0, value).update(1, gpa),
                pc: vcpu.pc + 3,
                retired: vcpu.retired + 3,
                ..vcpu
            },
            self.mem.with_word(hfn, offset, value),
        )
    }

    proof fn lemma_stores_word(self, gpa: u64, value: u64, quantum: nat, ran: nat)
        requires
            self.wf(),
            self.guest.vcpu.wf(),
            !self.guest.vcpu.halted,
            self.guest.vcpu.pc + 3 <= self.guest.program.len(),
            self.instr(0) == Instr::Movi(0, value),
            self.instr(1) == Instr::Movi(1, gpa),
            self.instr(2) == Instr::Store(1, 0),
            self.can_retire(3, quantum, ran),
            self.guest.page_table.owns(gpa),
            ran + 3 <= quantum,
        ensures
            self.slice(quantum, ran) == self.stored(gpa, value).slice(quantum, ran + 3),
    {
        let vcpu = self.guest.vcpu;
        let v1 = VCpuModel {
            regs: vcpu.regs.update(0, value),
            pc: vcpu.pc + 1,
            retired: vcpu.retired + 1,
            ..vcpu
        };
        let v2 = VCpuModel {
            regs: v1.regs.update(1, gpa),
            pc: v1.pc + 1,
            retired: v1.retired + 1,
            ..v1
        };
        self.lemma_continues(quantum, ran);
        self.moved(v1, self.mem).lemma_continues(quantum, ran + 1);
        self.moved(v2, self.mem).lemma_continues(quantum, ran + 2);
    }

    /// Whether the guest is about to run `program` from its start, with registers
    /// of their architectural sizes and no frame behind two of its pages.
    pub open spec fn starts(self, program: Seq<Instr>) -> bool {
        &&& self.wf()
        &&& self.guest.runnable()
        &&& self.guest.vcpu.wf()
        &&& self.guest.vcpu.pc == 0
        &&& !self.guest.vcpu.halted
        &&& self.guest.program == program
        &&& program.len() <= usize::MAX
        &&& self.guest.page_table.unaliased()
    }

    /// Whether `later` is this slice after code that stored `bytes` at the addresses
    /// from `base` up has run. The guest sees the bytes there and all else as
    /// before.
    pub open spec fn has_stored(self, base: nat, bytes: Seq<u8>, later: SliceModel) -> bool {
        let table = self.guest.page_table;
        let vcpu = later.guest.vcpu;
        &&& later == self.moved(vcpu, later.mem)
        &&& vcpu.wf()
        &&& vcpu.pc == self.guest.vcpu.pc + 3 * bytes.len()
        &&& vcpu.halted == self.guest.vcpu.halted
        &&& vcpu.cr == self.guest.vcpu.cr
        &&& vcpu.retired == self.guest.vcpu.retired + 3 * bytes.len()
        &&& later.mem.wf()
        &&& later.mem.frames.len() == self.mem.frames.len()
        &&& later.mem.next_free == self.mem.next_free
        &&& forall|gpa: u64| #[trigger]
            table.owns(gpa) ==> table.sees(later.mem, gpa) == if base <= gpa < base + bytes.len() {
                bytes[gpa - base] as u64
            } else {
                table.sees(self.mem, gpa)
            }
    }

    /// The slice that the code which stores `bytes` leads to.
    proof fn lemma_stores_bytes(self, base: nat, bytes: Seq<u8>, quantum: nat, ran: nat) -> (later:
        SliceModel)
        requires
            self.wf(),
            self.guest.vcpu.wf(),
            self.guest.vcpu.pc == 0,
            !self.guest.vcpu.halted,
            self.guest.page_table.unaliased(),
            crate::demo::store_code(base, bytes).is_prefix_of(self.guest.program),
            self.can_retire(3 * bytes.len(), quantum, ran),
            base + bytes.len() <= u64::MAX,
            forall|gpa: u64|
                base <= gpa < base + bytes.len() ==> #[trigger] self.guest.page_table.owns(gpa),
            ran + 3 * bytes.len() <= quantum,
        ensures
            self.has_stored(base, bytes, later),
            self.slice(quantum, ran) == later.slice(quantum, ran + 3 * bytes.len()),
        decreases bytes.len(),
    {
        if bytes.len() == 0 {
            self
        } else {
            let table = self.guest.page_table;
            let rest = bytes.drop_last();
            let code = crate::demo::store_code(base, bytes);
            let before = crate::demo::store_code(base, rest);
            crate::demo::lemma_store_code(base, rest);
            crate::demo::lemma_store_code(base, bytes);
            assert(before =~= code.take(before.len() as int));
            let middle = self.lemma_stores_bytes(base, rest, quantum, ran);
            let gpa = (base + rest.len()) as u64;
            let value = bytes.last() as u64;
            let at = before.len() as int;
            assert(middle.instr(0) == code[at]);
            assert(middle.instr(1) == code[at + 1]);
            assert(middle.instr(2) == code[at + 2]);
            assert(table.owns(gpa));
            middle.lemma_stores_word(gpa, value, quantum, ran + 3 * rest.len());
            let later = middle.stored(gpa, value);
            assert forall|other: u64| #[trigger] table.owns(other) implies table.sees(
                later.mem,
                other,
            ) == if base <= other < base + bytes.len() {
                bytes[other - base] as u64
            } else {
                table.sees(self.mem, other)
            } by {
                if other != gpa && table.translate(other, false) == table.translate(gpa, false) {
                    table.law_translation_is_injective(other, gpa, false, false);
                }
            }
            later
        }
    }

    /// A device write to a port other than the doorbell prints a byte.
    proof fn lemma_prints_byte(self, port: u16, byte: u8, quantum: nat, ran: nat) -> (later:
        SliceModel)
        requires
            self.wf(),
            self.guest.vcpu.wf(),
            !self.guest.vcpu.halted,
            self.guest.vcpu.pc < self.guest.program.len(),
            self.instr(0) == Instr::Out(port, 0),
            port != RING_DOORBELL_PORT,
            self.guest.vcpu.reg(0) == byte,
            ran < quantum,
        ensures
            later.wf(),
            later.guest == (GuestModel {
                vcpu: VCpuModel { pc: self.guest.vcpu.pc + 1, ..self.guest.vcpu },
                console: self.guest.console.push(byte),
                io_exits: self.guest.io_exits + 1,
                ..self.guest
            }),
            later.mem == self.mem,
            later.rings == self.rings,
            self.slice(quantum, ran) == later.slice(quantum, ran),
    {
        reveal(SliceModel::turn);
        self.lemma_turn_wf();
        let (later, turn) = self.turn()->0;
        assert(turn is Resumed);
        later
    }

    /// A halt stops the guest.
    proof fn lemma_halts(self, quantum: nat, ran: nat)
        requires
            self.wf(),
            !self.guest.vcpu.halted,
            self.guest.vcpu.pc < self.guest.program.len(),
            self.instr(0) == Instr::Halt,
            ran < quantum,
        ensures
            self.slice(quantum, ran) matches Some((s, all)) && {
                &&& all == ran
                &&& s.guest == (GuestModel {
                    vcpu: VCpuModel { halted: true, ..self.guest.vcpu },
                    state: GuestState::Halted,
                    ..self.guest
                })
                &&& s.mem == self.mem
                &&& s.rings == self.rings
            },
    {
        reveal(SliceModel::turn);
        self.lemma_turn_wf();
    }

    /// Whether the guest is at the head of the print loop, about to print the byte at
    /// address `k` of `bytes`, which are followed by a zero.
    spec fn printing(self, bytes: Seq<u8>, k: int) -> bool {
        let table = self.guest.page_table;
        &&& self.wf()
        &&& self.guest.runnable()
        &&& self.guest.vcpu.wf()
        &&& !self.guest.vcpu.halted
        &&& self.guest.program == crate::demo::print_program_code(bytes)
        &&& self.guest.program.len() <= usize::MAX
        &&& self.guest.vcpu.pc == 3 * bytes.len() + 1
        &&& self.guest.vcpu.reg(1) == k
        &&& forall|gpa: u64|
            gpa <= bytes.len() ==> #[trigger] table.owns(gpa) && table.sees(self.mem, gpa) == (
            if gpa < bytes.len() {
                bytes[gpa as int] as u64
            } else {
                0
            })
    }

    proof fn lemma_print_loop(self, bytes: Seq<u8>, k: int, quantum: nat, ran: nat)
        requires
            0 <= k <= bytes.len() < u64::MAX,
            self.printing(bytes, k),
            forall|n: int| 0 <= n < bytes.len() ==> #[trigger] bytes[n] != 0,
            self.can_retire((4 * (bytes.len() - k) + 2) as nat, quantum, ran),
            ran + 4 * (bytes.len() - k) + 2 < quantum,
        ensures
            self.slice(quantum, ran) matches Some((s, all)) && {
                &&& all == ran + 4 * (bytes.len() - k) + 2
                &&& s.guest.state == GuestState::Halted
                &&& s.guest.console == self.guest.console + bytes.skip(k)
                &&& s.guest.io_exits == self.guest.io_exits + (bytes.len() - k)
                &&& s.guest.fault_exits == self.guest.fault_exits
                &&& s.mem == self.mem
                &&& s.rings == self.rings
            },
        decreases bytes.len() - k,
    {
        let table = self.guest.page_table;
        let start = 3 * bytes.len();
        let code = crate::demo::print_code(start);
        crate::demo::lemma_store_code(0, bytes);
        assert forall|ahead: int| 0 <= ahead < 7 implies #[trigger] self.guest.program[start
            + ahead] == code[ahead] by {}
        let vcpu = self.guest.vcpu;
        assert(table.owns(k as u64));
        let word = table.sees(self.mem, k as u64);
        assert(self.instr(0) == code[1]);
        self.lemma_continues(quantum, ran);
        let loaded = self.moved(
            VCpuModel {
                regs: vcpu.regs.update(0, word),
                pc: vcpu.pc + 1,
                retired: vcpu.retired + 1,
                ..vcpu
            },
            self.mem,
        );
        assert(self.slice(quantum, ran) == loaded.slice(quantum, ran + 1));
        assert(loaded.instr(0) == code[2]);
        loaded.lemma_continues(quantum, ran + 1);
        if k == bytes.len() {
            let done = loaded.moved(
                VCpuModel {
                    pc: (start + 6) as nat,
                    retired: vcpu.retired + 2,
                    ..loaded.guest.vcpu
                },
                self.mem,
            );
            assert(done.instr(0) == code[6]);
            done.lemma_halts(quantum, ran + 2);
            assert(self.guest.console + bytes.skip(k) =~= self.guest.console);
        } else {
            let byte = bytes[k];
            let tested = loaded.moved(
                VCpuModel { pc: vcpu.pc + 2, retired: vcpu.retired + 2, ..loaded.guest.vcpu },
                self.mem,
            );
            assert(tested.instr(0) == code[3]);
            let printed = tested.lemma_prints_byte(0, byte, quantum, ran + 2);
            assert(printed.instr(0) == code[4]);
            printed.lemma_continues(quantum, ran + 2);
            let advanced = printed.moved(
                VCpuModel {
                    regs: printed.guest.vcpu.regs.update(1, (k + 1) as u64),
                    pc: vcpu.pc + 4,
                    retired: vcpu.retired + 3,
                    ..printed.guest.vcpu
                },
                self.mem,
            );
            assert(advanced.instr(0) == code[5]);
            advanced.lemma_continues(quantum, ran + 3);
            let again = advanced.moved(
                VCpuModel { pc: vcpu.pc, retired: vcpu.retired + 4, ..advanced.guest.vcpu },
                self.mem,
            );
            again.lemma_print_loop(bytes, k + 1, quantum, ran + 4);
            assert(self.guest.console.push(byte) + bytes.skip(k + 1) =~= self.guest.console
                + bytes.skip(k));
        }
    }

    /// Law: the printing program prints its text. A guest that runs it from the start,
    /// with memory of its own for the bytes and a zero behind them, prints exactly
    /// those bytes, one device exit each, and halts. A slice that lets it has an
    /// outcome as long as its instructions can be counted.
    pub proof fn law_print_program_prints(self, bytes: Seq<u8>, quantum: nat)
        requires
            self.starts(crate::demo::print_program_code(bytes)),
            forall|gpa: u64| gpa <= bytes.len() ==> #[trigger] self.guest.page_table.owns(gpa),
            self.guest.page_table.sees(self.mem, bytes.len() as u64) == 0,
            forall|n: int| 0 <= n < bytes.len() ==> #[trigger] bytes[n] != 0,
            7 * bytes.len() + 3 < quantum,
        ensures
            self.guest.vcpu.retired + 7 * bytes.len() + 3 <= u64::MAX ==> self.slice(quantum, 0)
                is Some,
            self.slice(quantum, 0) matches Some((s, all)) ==> {
                &&& all == 7 * bytes.len() + 3
                &&& s.guest.state == GuestState::Halted
                &&& s.guest.console == self.guest.console + bytes
                &&& s.guest.io_exits == self.guest.io_exits + bytes.len()
                &&& s.guest.fault_exits == self.guest.fault_exits
                &&& s.rings == self.rings
            },
    {
        if self.can_retire(7 * bytes.len() + 3, quantum, 0) {
            let table = self.guest.page_table;
            let code = crate::demo::store_code(0, bytes);
            let start = 3 * bytes.len();
            crate::demo::lemma_store_code(0, bytes);
            assert(code =~= self.guest.program.take(start as int));
            let stored = self.lemma_stores_bytes(0, bytes, quantum, 0);
            assert(stored.instr(0) == crate::demo::print_code(start)[0]);
            stored.lemma_continues(quantum, start);
            let vcpu = stored.guest.vcpu;
            let ready = stored.moved(
                VCpuModel {
                    regs: vcpu.regs.update(1, 0),
                    pc: vcpu.pc + 1,
                    retired: vcpu.retired + 1,
                    ..vcpu
                },
                stored.mem,
            );
            assert(table.owns(bytes.len() as u64));
            assert forall|gpa: u64| gpa <= bytes.len() implies #[trigger] table.owns(gpa)
                && table.sees(ready.mem, gpa) == (if gpa < bytes.len() {
                bytes[gpa as int] as u64
            } else {
                0
            }) by {
                assert(table.owns(gpa));
            }
            ready.lemma_print_loop(bytes, 0, quantum, start + 1);
            assert(bytes.skip(0) =~= bytes);
        }
    }

    /// The doorbell drains the guest's ring.
    proof fn lemma_rings_doorbell(self, k: int, quantum: nat, ran: nat) -> (later: SliceModel)
        requires
            self.wf(),
            self.guest.vcpu.wf(),
            !self.guest.vcpu.halted,
            self.guest.vcpu.pc < self.guest.program.len(),
            self.instr(0) == Instr::Out(RING_DOORBELL_PORT, 0),
            Self::ring_of(self.rings, self.guest.id) == Some(k),
            ran < quantum,
        ensures
            later.wf(),
            later.guest == (GuestModel {
                vcpu: VCpuModel { pc: self.guest.vcpu.pc + 1, ..self.guest.vcpu },
                io_exits: self.guest.io_exits + 1,
                ..self.guest
            }),
            later.rings == self.rings.update(
                k,
                self.rings[k].drained(self.mem, RING_MAX_KEEP as nat),
            ),
            self.slice(quantum, ran) == later.slice(quantum, ran),
    {
        reveal(SliceModel::turn);
        Self::lemma_ring_of(self.rings, self.guest.id);
        self.lemma_turn_wf();
        let (later, turn) = self.turn()->0;
        assert(turn is Resumed);
        later
    }

    /// Law: the ring program hands its text to the host. A guest that runs it from
    /// the start, with its ring at guest page 1 and nothing consumed through it yet,
    /// makes the host receive exactly those bytes on one doorbell exit, and halts.
    pub proof fn law_ring_program_publishes(self, bytes: Seq<u8>, k: int, quantum: nat)
        requires
            self.starts(crate::demo::ring_program_code(bytes)),
            bytes.len() <= SharedRing::CAP,
            Self::ring_of(self.rings, self.guest.id) == Some(k),
            self.guest.page_table.map.contains_key(1),
            self.guest.page_table.map[1].hfn == self.rings[k].hfn,
            self.guest.page_table.map[1].perm.read,
            self.guest.page_table.map[1].perm.write,
            self.rings[k].tail(self.mem) == 0,
            self.rings[k].received.len() + bytes.len() <= RING_MAX_KEEP,
            self.guest.vcpu.retired + 3 * bytes.len() + 4 <= u64::MAX,
            3 * bytes.len() + 4 < quantum,
        ensures
            self.slice(quantum, 0) matches Some((s, all)) && {
                &&& all == 3 * bytes.len() + 4
                &&& s.guest.state == GuestState::Halted
                &&& s.guest.console == self.guest.console
                &&& s.guest.io_exits == self.guest.io_exits + 1
                &&& s.guest.fault_exits == self.guest.fault_exits
                &&& s.rings.len() == self.rings.len()
                &&& s.rings[k].received == self.rings[k].received + bytes.map_values(
                    |byte: u8| byte as u64,
                )
            },
    {
        let table = self.guest.page_table;
        let ring = self.rings[k];
        let base = (PAGE_WORDS + SharedRing::FIRST_SLOT) as nat;
        let head = (PAGE_WORDS + SharedRing::HEAD) as u64;
        let tail = (PAGE_WORDS + SharedRing::TAIL) as u64;
        let count = bytes.len() as u64;
        let start = 3 * bytes.len();
        let code = crate::demo::publish_code(head, count);
        Self::lemma_ring_of(self.rings, self.guest.id);
        crate::demo::lemma_store_code(base, bytes);
        assert(crate::demo::store_code(base, bytes) =~= self.guest.program.take(start as int));
        assert forall|gpa: u64| PAGE_WORDS <= gpa < 2 * PAGE_WORDS implies #[trigger] table.owns(
            gpa,
        ) && table.translate(gpa, false) == Ok::<(u64, u64), crate::mem::PhysFault>(
            (ring.hfn, (gpa - PAGE_WORDS) as u64),
        ) by {}
        let stored = self.lemma_stores_bytes(base, bytes, quantum, 0);
        assert(stored.instr(0) == code[0] && stored.instr(1) == code[1] && stored.instr(2)
            == code[2]);
        assert(table.owns(head) && table.owns(tail));
        stored.lemma_stores_word(head, count, quantum, start);
        let published = stored.stored(head, count);
        assert(published.instr(0) == code[3]);
        published.lemma_continues(quantum, start + 3);
        let vcpu = published.guest.vcpu;
        let ready = published.moved(
            VCpuModel {
                regs: vcpu.regs.update(0, 0),
                pc: vcpu.pc + 1,
                retired: vcpu.retired + 1,
                ..vcpu
            },
            published.mem,
        );
        assert(ready.instr(0) == code[4]);
        let drained = ready.lemma_rings_doorbell(k, quantum, start + 4);
        assert(drained.instr(0) == code[5]);
        drained.lemma_halts(quantum, start + 4);
        let payload = bytes.map_values(|byte: u8| byte as u64);
        assert(ring.head(ready.mem) == count);
        assert(table.sees(stored.mem, tail) == 0);
        assert(ring.tail(ready.mem) == 0);
        assert forall|n: int| 0 <= n < payload.len() implies #[trigger] payload[n]
            == ready.mem.word(
            ring.hfn,
            crate::device::RingModel::slot(ring.tail(ready.mem).wrapping_add(n as u64)),
        ) by {
            let gpa = (base + n) as u64;
            assert(table.owns(gpa));
            assert(table.sees(stored.mem, gpa) == payload[n]);
        }
        ring.law_drain_receives_payload(ready.mem, payload, RING_MAX_KEEP as nat);
    }

    /// Law: the rogue program faults and leaks nothing. A guest that runs it from the
    /// start, with a writable first page and without the page it reaches for, is
    /// stopped by a memory fault and has printed nothing.
    pub proof fn law_out_of_bounds_program_faults(self, quantum: nat)
        requires
            self.starts(crate::demo::out_of_bounds_code()),
            self.guest.page_table.owns(4),
            !self.guest.page_table.map.contains_key(9999u64 / PAGE_WORDS),
            self.guest.vcpu.retired + 4 <= u64::MAX,
            4 < quantum,
        ensures
            self.slice(quantum, 0) matches Some((s, all)) && {
                &&& all == 4
                &&& s.guest.state == GuestState::Faulted
                &&& s.guest.console == self.guest.console
                &&& s.guest.vcpu.reg(0) == 42
                &&& s.guest.io_exits == self.guest.io_exits
                &&& s.guest.fault_exits == self.guest.fault_exits + 1
                &&& s.exits == self.exits.push(s.exits.last())
                &&& s.exits.last().reason == ExitReason::MemFault {
                    gpa: 9999,
                    access: MemAccess::Read,
                    kind: FaultKind::Unmapped,
                }
                &&& s.rings == self.rings
            },
    {
        let code = crate::demo::out_of_bounds_code();
        assert(self.instr(0) == code[0] && self.instr(1) == code[1] && self.instr(2) == code[2]);
        self.lemma_stores_word(4, 42, quantum, 0);
        let stored = self.stored(4, 42);
        assert(stored.instr(0) == code[3]);
        stored.lemma_continues(quantum, 3);
        let vcpu = stored.guest.vcpu;
        let ready = stored.moved(
            VCpuModel {
                regs: vcpu.regs.update(1, 9999),
                pc: vcpu.pc + 1,
                retired: vcpu.retired + 1,
                ..vcpu
            },
            stored.mem,
        );
        assert(ready.instr(0) == code[4]);
        reveal(SliceModel::turn);
        ready.lemma_turn_wf();
    }
}

impl MachineModel {
    /// What holds of a guest right after it was added: it is apart from the others and
    /// about to run its program from the start, in memory of its own that holds
    /// zeroes.
    proof fn lemma_added_guest_starts(
        self,
        name: Seq<char>,
        program: Seq<Instr>,
        pages: u64,
        perm: Perm,
    )
        requires
            self.isolated(),
            self.wf(),
            self.pristine(),
            self.guests.len() <= u32::MAX,
            self.mem.next_free + pages <= self.mem.frames.len(),
            program.len() <= usize::MAX,
        ensures
            ({
                let m = self.with_guest(name, program, pages, perm);
                let part = m.part(self.guests.len() as int);
                &&& m.isolated()
                &&& m.apart(self.guests.len() as int)
                &&& m.wf()
                &&& part.starts(program)
                &&& forall|gpa: u64|
                    gpa / PAGE_WORDS < pages && perm.read && perm.write
                        ==> #[trigger] part.guest.page_table.owns(gpa)
                        && part.guest.page_table.sees(m.mem, gpa) == 0
            }),
    {
        let m = self.with_guest(name, program, pages, perm);
        let table = m.guests[self.guests.len() as int].page_table;
        self.law_add_guest_keeps_isolation(name, program, pages, perm);
        self.law_add_guest_keeps_wf(name, program, pages, perm);
        m.law_isolated_guests_are_apart(self.guests.len() as int);
        m.lemma_part_wf(self.guests.len() as int);
        assert forall|gpa: u64| gpa / PAGE_WORDS < pages && perm.read && perm.write implies
            #[trigger] table.owns(gpa) && table.sees(m.mem, gpa) == 0 by {
            let f = self.mem.next_free + (gpa / PAGE_WORDS) as nat;
            assert(m.mem.frames[f as int] == MemoryModel::zeroed_frame());
        }
    }

    /// Law: a guest with the printing program prints its text among any neighbors and
    /// however the machine is sliced. Its console holds what it held and then exactly
    /// the text, it has taken one device exit per byte and no fault, and it has halted,
    /// as long as the run finishes within the round budget or the budget admits the
    /// instructions.
    pub proof fn law_printer_prints(self, i: int, bytes: Seq<u8>)
        requires
            self.apart(i),
            self.wf(),
            self.part(i).starts(crate::demo::print_program_code(bytes)),
            forall|gpa: u64| gpa <= bytes.len() ==> #[trigger] self.guests[i].page_table.owns(gpa),
            self.guests[i].page_table.sees(self.mem, bytes.len() as u64) == 0,
            forall|n: int| 0 <= n < bytes.len() ==> #[trigger] bytes[n] != 0,
        ensures
            self.run() matches Some((m, rounds)) ==> (!m.budget_exhausted || 7 * bytes.len() + 3
                < self.max_rounds * self.quantum ==> {
                &&& m.guests[i].state == GuestState::Halted
                &&& m.guests[i].console == self.guests[i].console + bytes
                &&& m.guests[i].io_exits == self.guests[i].io_exits + bytes.len()
                &&& m.guests[i].fault_exits == self.guests[i].fault_exits
            }),
    {
        let needed = 7 * bytes.len() + 3;
        assert forall|quantum: nat| quantum > needed implies (
        #[trigger] self.part(i).slice(quantum, 0) matches Some((s, ran)) ==> !s.guest.runnable())
            by {
            self.part(i).law_print_program_prints(bytes, quantum);
        }
        if let Some((m, rounds)) = self.run() {
            if !m.budget_exhausted || needed < self.max_rounds * self.quantum {
                let quantum = self.lemma_settles(i, needed);
                self.part(i).law_print_program_prints(bytes, quantum);
            }
        }
    }

    /// Law: add a guest with the printing program to an isolated machine and run it.
    /// Whatever its neighbors do and however the machine is sliced, the guest's
    /// console holds exactly the text, the guest has taken one device exit per byte
    /// and no fault, and it has halted, as long as its pages hold the text and the run
    /// finishes within the round budget or the budget admits the instructions.
    pub proof fn law_added_printer_prints(self, name: Seq<char>, bytes: Seq<u8>, pages: u64)
        requires
            self.isolated(),
            self.wf(),
            self.pristine(),
            self.guests.len() <= u32::MAX,
            self.mem.next_free + pages <= self.mem.frames.len(),
            crate::demo::print_program_code(bytes).len() <= usize::MAX,
            forall|n: int| 0 <= n < bytes.len() ==> #[trigger] bytes[n] != 0,
            bytes.len() < pages * PAGE_WORDS,
        ensures
            self.with_guest(
                name,
                crate::demo::print_program_code(bytes),
                pages,
                Perm { read: true, write: true },
            ).run() matches Some((m, rounds)) ==> (!m.budget_exhausted || 7 * bytes.len() + 3
                < self.max_rounds * self.quantum ==> {
                let guest = m.guests[self.guests.len() as int];
                &&& guest.state == GuestState::Halted
                &&& guest.console == bytes
                &&& guest.io_exits == bytes.len()
                &&& guest.fault_exits == 0
            }),
    {
        let program = crate::demo::print_program_code(bytes);
        let perm = Perm { read: true, write: true };
        let added = self.with_guest(name, program, pages, perm);
        let i = self.guests.len() as int;
        let table = added.guests[i].page_table;
        self.lemma_added_guest_starts(name, program, pages, perm);
        assert forall|gpa: u64| gpa <= bytes.len() implies #[trigger] table.owns(gpa)
            && table.sees(added.mem, gpa) == 0 by {}
        assert(table.owns(bytes.len() as u64));
        added.law_printer_prints(i, bytes);
        assert(Seq::<u8>::empty() + bytes =~= bytes);
    }

    /// Law: add a guest with the ring program and one page to an isolated machine,
    /// attach a ring at its page 1, and run it. Whatever its neighbors do, the host
    /// has received exactly the text through that ring, the guest has taken one device
    /// exit and no fault, its console is empty, and it has halted, as long as the text
    /// fits the ring and the run finishes within the round budget or the budget admits
    /// the instructions.
    pub proof fn law_added_ringer_publishes(self, name: Seq<char>, bytes: Seq<u8>, perm: Perm)
        requires
            self.isolated(),
            self.wf(),
            self.pristine(),
            self.guests.len() <= u32::MAX,
            self.mem.next_free + 2 <= self.mem.frames.len(),
            bytes.len() <= SharedRing::CAP,
        ensures
            self.with_guest(name, crate::demo::ring_program_code(bytes), 1, perm).with_ring(
                self.guests.len() as u32,
                1,
            ).run() matches Some((m, rounds)) ==> (!m.budget_exhausted || 3 * bytes.len() + 4
                < self.max_rounds * self.quantum ==> {
                let guest = m.guests[self.guests.len() as int];
                &&& guest.state == GuestState::Halted
                &&& guest.console == Seq::<u8>::empty()
                &&& guest.io_exits == 1
                &&& guest.fault_exits == 0
                &&& SliceModel::ring_of(m.rings, guest.id) == Some(self.rings.len() as int)
                &&& m.rings[self.rings.len() as int].received == bytes.map_values(
                    |byte: u8| byte as u64,
                )
            }),
    {
        let program = crate::demo::ring_program_code(bytes);
        let i = self.guests.len() as int;
        let id = self.guests.len() as u32;
        let k = self.rings.len() as int;
        crate::demo::lemma_store_code((PAGE_WORDS + SharedRing::FIRST_SLOT) as nat, bytes);
        self.lemma_added_guest_starts(name, program, 1, perm);
        let added = self.with_guest(name, program, 1, perm);
        added.law_attach_ring_keeps_isolation(id, 1);
        assert forall|l: int| 0 <= l < added.rings.len() implies (
        #[trigger] added.rings[l]).guest_id != id by {
            assert(self.rings[l].guest_id < self.guests.len());
        }
        added.law_attach_ring_keeps_wf(id, 1);
        let m = added.with_ring(id, 1);
        m.law_isolated_guests_are_apart(i);
        m.lemma_part_wf(i);
        let part = m.part(i);
        let quantum = 3 * bytes.len() + 5;
        assert(m.maps(i, 1));
        let table = part.guest.page_table;
        assert(table.unaliased()) by {
            assert forall|p: u64, q: u64|
                #![trigger table.map.contains_key(p), table.map.contains_key(q)]
                table.map.contains_key(p) && table.map.contains_key(q) && table.map[p].hfn
                    == table.map[q].hfn implies p == q by {
                assert(m.maps(i, p) && m.maps(i, q));
            }
        }
        SliceModel::lemma_ring_of(m.rings, id);
        assert(SliceModel::first_ring(m.rings, id, k)) by {
            assert forall|j: int| 0 <= j < k implies (#[trigger] m.rings[j]).guest_id != id by {
                assert(m.rings[j] == self.rings[j]);
            }
        }
        assert(m.mem.frames[added.mem.next_free as int] == MemoryModel::zeroed_frame());
        part.law_ring_program_publishes(bytes, k, quantum);
        m.law_terminating_guest_stops(i, quantum);
        m.law_run_keeps_setup();
        if let Some((last, rounds)) = m.run() {
            let (s, all) = part.slice(quantum, 0)->0;
            part.lemma_slice_keeps(quantum, 0);
            SliceModel::lemma_ring_of_same(part.rings, s.rings, id);
            SliceModel::lemma_ring_of_same(m.rings, last.rings, id);
            assert(Seq::<u64>::empty() + bytes.map_values(|byte: u8| byte as u64)
                =~= bytes.map_values(|byte: u8| byte as u64));
        }
    }

    /// Law: add a guest with the rogue program to an isolated machine and run it. It
    /// is stopped by a memory fault with an empty console, as long as its address
    /// space ends before the address it reaches for and the run finishes within the
    /// round budget or the budget admits the instructions.
    pub proof fn law_added_rogue_faults(self, name: Seq<char>, pages: u64)
        requires
            self.isolated(),
            self.wf(),
            self.pristine(),
            self.guests.len() <= u32::MAX,
            self.mem.next_free + pages <= self.mem.frames.len(),
            0 < pages <= 9999u64 / PAGE_WORDS,
        ensures
            self.with_guest(
                name,
                crate::demo::out_of_bounds_code(),
                pages,
                Perm { read: true, write: true },
            ).run() matches Some((m, rounds)) ==> (!m.budget_exhausted || 4 < self.max_rounds
                * self.quantum ==> {
                let guest = m.guests[self.guests.len() as int];
                &&& guest.state == GuestState::Faulted
                &&& guest.console == Seq::<u8>::empty()
                &&& guest.io_exits == 0
                &&& guest.fault_exits == 1
            }),
    {
        let perm = Perm { read: true, write: true };
        let added = self.with_guest(name, crate::demo::out_of_bounds_code(), pages, perm);
        let i = self.guests.len() as int;
        self.lemma_added_guest_starts(name, crate::demo::out_of_bounds_code(), pages, perm);
        added.part(i).law_out_of_bounds_program_faults(5);
        added.law_terminating_guest_stops(i, 5);
    }
}

} // verus!
