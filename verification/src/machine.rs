//! What the machine does, as mathematics: one turn of a guest, one time slice,
//! one scheduler round, and a whole run.
//!
//! Each function here is a function of the machine's state alone, so the
//! schedule, the exit log and every guest's output are determined by the
//! configuration. An outcome is `None` exactly where there is none: a guest or
//! the host would access a host frame that does not exist, or a count would
//! leave its machine word. A count that is no larger than the log it counts
//! always fits, because the log has to fit in memory first.
use crate::cpu::{ExitReason, Instr, StepModel, StepResult};
use crate::device::{RingModel, RING_DOORBELL_PORT};
use crate::guest::{GuestModel, GuestState};
use crate::hypervisor::{ExitRecord, ScheduleTick, DEFAULT_MAX_ROUNDS, RING_MAX_KEEP};
use crate::mem::{MemoryModel, Perm, TableModel};
use vstd::prelude::*;

verus! {

/// Whether one more can be counted on top of `count`, in a machine word, when
/// each count stands for an entry of a log that is now `log_len` long.
pub open spec fn countable(count: nat, log_len: nat) -> bool {
    count < u64::MAX || count < log_len
}

/// Whether the ticks of `log` number its records from 1, as far as a machine word
/// can tell them apart.
pub open spec fn numbered_log(log: Seq<ExitRecord>) -> bool {
    forall|k: int|
        0 <= k < log.len() && k < u64::MAX ==> (#[trigger] log[k]).tick == k + 1
}

/// How one turn of a guest ended.
pub enum Turn {
    /// An instruction retired in guest context.
    Retired,
    /// The guest trapped, the request was emulated, and the guest resumes.
    Resumed,
    /// The guest halted or faulted.
    Stopped,
}

/// The part of the machine that a guest's time slice can touch: the guest, host
/// memory, the rings, and the exit log with its tick.
#[verifier::ext_equal]
pub struct SliceModel {
    pub guest: GuestModel,
    pub mem: MemoryModel,
    pub rings: Seq<RingModel>,
    pub exits: Seq<ExitRecord>,
    pub tick: nat,
}

impl SliceModel {
    /// Whether ring `k` is the first one bound to guest `guest_id`.
    pub open spec fn first_ring(rings: Seq<RingModel>, guest_id: u32, k: int) -> bool {
        &&& 0 <= k < rings.len()
        &&& rings[k].guest_id == guest_id
        &&& forall|j: int| 0 <= j < k ==> (#[trigger] rings[j]).guest_id != guest_id
    }

    /// The index of the first ring bound to guest `guest_id`, if there is one.
    pub open spec fn ring_of(rings: Seq<RingModel>, guest_id: u32) -> Option<int> {
        if exists|k: int| Self::first_ring(rings, guest_id, k) {
            Some(choose|k: int| Self::first_ring(rings, guest_id, k))
        } else {
            None
        }
    }

    /// This slice after the vCPU has taken `step`.
    pub open spec fn stepped(self, step: StepModel) -> SliceModel {
        SliceModel {
            guest: GuestModel { vcpu: step.vcpu, ..self.guest },
            mem: step.mem,
            ..self
        }
    }

    /// This slice after an exit with `reason` at `pc` is recorded.
    pub open spec fn logged(self, pc: nat, reason: ExitReason) -> SliceModel {
        SliceModel {
            exits: self.exits.push(
                ExitRecord {
                    tick: (self.tick + 1) as u64,
                    guest_id: self.guest.id,
                    pc: pc as usize,
                    reason,
                },
            ),
            tick: self.tick + 1,
            ..self
        }
    }

    /// This slice after the doorbell is rung: the guest's ring is drained.
    pub open spec fn doorbell(self) -> Option<SliceModel> {
        match Self::ring_of(self.rings, self.guest.id) {
            None => Some(self),
            Some(k) => if self.mem.has_frame(self.rings[k].hfn) {
                Some(
                    SliceModel {
                        rings: self.rings.update(
                            k,
                            self.rings[k].drained(self.mem, RING_MAX_KEEP as nat),
                        ),
                        mem: self.rings[k].drained_mem(self.mem),
                        ..self
                    },
                )
            } else {
                None
            },
        }
    }

    /// This slice after the device write of `value` to `port` is emulated.
    pub open spec fn device_write(self, port: u16, value: u64) -> Option<SliceModel> {
        if port == RING_DOORBELL_PORT {
            self.doorbell()
        } else {
            Some(
                SliceModel {
                    guest: GuestModel {
                        console: self.guest.console.push(crate::device::low_byte(value)),
                        ..self.guest
                    },
                    ..self
                },
            )
        }
    }

    /// This slice after the recorded exit `reason` is emulated.
    pub open spec fn emulated(self, reason: ExitReason) -> Option<(SliceModel, Turn)> {
        let log_len = self.exits.len();
        match reason {
            ExitReason::DeviceIo { port, value } => match self.device_write(port, value) {
                Some(s) if countable(self.guest.io_exits, log_len) => Some(
                    (
                        SliceModel {
                            guest: GuestModel { io_exits: s.guest.io_exits + 1, ..s.guest },
                            ..s
                        },
                        Turn::Resumed,
                    ),
                ),
                _ => None,
            },
            ExitReason::SetControlReg { cr, value } => if countable(self.guest.cr_exits, log_len) {
                let vcpu = crate::cpu::VCpuModel {
                    cr: self.guest.vcpu.cr.update(cr as int, value),
                    ..self.guest.vcpu
                };
                let guest = GuestModel { vcpu, cr_exits: self.guest.cr_exits + 1, ..self.guest };
                Some((SliceModel { guest, ..self }, Turn::Resumed))
            } else {
                None
            },
            ExitReason::Halt | ExitReason::EndOfProgram => {
                let guest = GuestModel { state: GuestState::Halted, ..self.guest };
                Some((SliceModel { guest, ..self }, Turn::Stopped))
            },
            ExitReason::MemFault { .. } | ExitReason::InvalidOp { .. } => if countable(
                self.guest.fault_exits,
                log_len,
            ) {
                let guest = GuestModel {
                    state: GuestState::Faulted,
                    fault_exits: self.guest.fault_exits + 1,
                    ..self.guest
                };
                Some((SliceModel { guest, ..self }, Turn::Stopped))
            } else {
                None
            },
        }
    }

    /// This slice after the guest left with `reason` at `pc` and the hypervisor
    /// has recorded and emulated the exit.
    pub open spec fn trapped(self, pc: nat, reason: ExitReason) -> Option<(SliceModel, Turn)> {
        let recorded = self.logged(pc, reason);
        if countable(self.tick, recorded.exits.len()) {
            recorded.emulated(reason)
        } else {
            None
        }
    }

    /// One turn of the guest: one vCPU step, and the emulation of the exit it
    /// takes, if any.
    #[verifier::opaque]
    pub open spec fn turn(self) -> Option<(SliceModel, Turn)> {
        match self.guest.vcpu.step(self.guest.program, self.guest.page_table, self.mem) {
            None => None,
            Some(step) => match step.result {
                StepResult::Continue => Some((self.stepped(step), Turn::Retired)),
                StepResult::Exit(reason) => self.stepped(step).trapped(
                    self.guest.vcpu.pc,
                    reason,
                ),
            },
        }
    }

    /// What a turn does to the vCPU's progress. A retired turn counts one
    /// instruction, a resumed one moves on in the program, and a stopped one leaves
    /// the guest not runnable.
    pub proof fn lemma_turn_progress(self)
        ensures
            self.turn() matches Some((s, turn)) ==> {
                &&& s.guest.program == self.guest.program
                &&& match turn {
                    Turn::Retired => {
                        &&& s.guest.vcpu.retired == self.guest.vcpu.retired + 1
                        &&& s.guest.state == self.guest.state
                    },
                    Turn::Resumed => {
                        &&& s.guest.vcpu.retired == self.guest.vcpu.retired
                        &&& s.guest.state == self.guest.state
                        &&& self.guest.vcpu.pc < self.guest.program.len()
                        &&& s.guest.vcpu.pc == self.guest.vcpu.pc + 1
                    },
                    Turn::Stopped => {
                        &&& s.guest.vcpu.retired == self.guest.vcpu.retired
                        &&& !s.guest.runnable()
                    },
                }
            },
    {
        reveal(SliceModel::turn);
    }

    /// The rest of a time slice of `quantum` retired instructions of which `ran`
    /// have retired: where it leaves the machine, and how many retired in all.
    pub open spec fn slice(self, quantum: nat, ran: nat) -> Option<(SliceModel, nat)>
        decreases quantum - ran, self.guest.program.len() - self.guest.vcpu.pc,
    {
        if ran >= quantum {
            Some((self, ran))
        } else {
            proof {
                self.lemma_turn_progress();
            }
            match self.turn() {
                None => None,
                Some((s, Turn::Retired)) => s.slice(quantum, ran + 1),
                Some((s, Turn::Resumed)) => s.slice(quantum, ran),
                Some((s, Turn::Stopped)) => Some((s, ran)),
            }
        }
    }
}

impl SliceModel {
    /// Frames have the size of a page, the ticks number the log and the counts agree
    /// with it, and every frame that the guest or a ring can reach exists.
    pub open spec fn wf(self) -> bool {
        &&& self.mem.wf()
        &&& self.tick == self.exits.len()
        &&& numbered_log(self.exits)
        &&& self.guest.io_exits <= self.exits.len()
        &&& self.guest.cr_exits <= self.exits.len()
        &&& self.guest.fault_exits <= self.exits.len()
        &&& self.guest.page_table.fits(self.mem)
        &&& forall|k: int|
            0 <= k < self.rings.len() ==> self.mem.has_frame((#[trigger] self.rings[k]).hfn)
    }

    /// What a guest's turns leave as it is: the guest's identity, program and page
    /// table, the size of host memory and what is handed out of it, how the rings
    /// are bound, and the exits recorded before.
    pub open spec fn keeps(self, later: SliceModel) -> bool {
        &&& later.guest.id == self.guest.id
        &&& later.guest.name == self.guest.name
        &&& later.guest.page_table == self.guest.page_table
        &&& later.guest.program == self.guest.program
        &&& later.mem.frames.len() == self.mem.frames.len()
        &&& later.mem.next_free == self.mem.next_free
        &&& later.rings.len() == self.rings.len()
        &&& forall|k: int|
            0 <= k < self.rings.len() ==> {
                &&& (#[trigger] later.rings[k]).guest_id == self.rings[k].guest_id
                &&& later.rings[k].hfn == self.rings[k].hfn
                &&& later.rings[k].gpn == self.rings[k].gpn
            }
        &&& self.exits.is_prefix_of(later.exits)
    }

    /// A turn keeps what [`Self::keeps`] says.
    pub proof fn lemma_turn_keeps(self)
        ensures
            self.turn() matches Some((s, turn)) ==> self.keeps(s),
    {
        reveal(SliceModel::turn);
    }

    /// A turn of a well formed slice keeps it well formed. It has an outcome as
    /// long as one more instruction can be counted.
    pub proof fn lemma_turn_wf(self)
        requires
            self.wf(),
        ensures
            self.turn() matches Some((s, turn)) ==> s.wf(),
            self.guest.vcpu.retired < u64::MAX ==> self.turn() is Some,
    {
        reveal(SliceModel::turn);
        self.lemma_turn_keeps();
    }

    /// A slice keeps what [`Self::keeps`] says.
    pub proof fn lemma_slice_keeps(self, quantum: nat, ran: nat)
        ensures
            self.slice(quantum, ran) matches Some((s, all)) ==> self.keeps(s),
        decreases quantum - ran, self.guest.program.len() - self.guest.vcpu.pc,
    {
        if ran < quantum {
            self.lemma_turn_progress();
            self.lemma_turn_keeps();
            match self.turn() {
                Some((s, Turn::Retired)) => s.lemma_slice_keeps(quantum, ran + 1),
                Some((s, Turn::Resumed)) => s.lemma_slice_keeps(quantum, ran),
                _ => {},
            }
        }
    }

    /// A slice records exactly the exits that its guest takes, at most one of them a
    /// fault, which stops the guest.
    pub proof fn lemma_slice_counts_exits(self, quantum: nat, ran: nat)
        requires
            self.guest.runnable(),
        ensures
            self.slice(quantum, ran) matches Some((s, all)) ==> {
                &&& s.exits.len() - self.exits.len() == s.guest.exits_taken()
                    - self.guest.exits_taken()
                &&& s.guest.fault_exits - self.guest.fault_exits == if s.guest.state is Faulted {
                    1int
                } else {
                    0
                }
            },
        decreases quantum - ran, self.guest.program.len() - self.guest.vcpu.pc,
    {
        if ran < quantum {
            self.lemma_turn_progress();
            self.lemma_turn_counts_exits();
            match self.turn() {
                Some((s, Turn::Retired)) => s.lemma_slice_counts_exits(quantum, ran + 1),
                Some((s, Turn::Resumed)) => s.lemma_slice_counts_exits(quantum, ran),
                _ => {},
            }
        }
    }

    proof fn lemma_turn_counts_exits(self)
        requires
            self.guest.runnable(),
        ensures
            self.turn() matches Some((s, turn)) ==> {
                &&& s.exits.len() - self.exits.len() == s.guest.exits_taken()
                    - self.guest.exits_taken()
                &&& s.guest.fault_exits - self.guest.fault_exits == if s.guest.state is Faulted {
                    1int
                } else {
                    0
                }
            },
    {
        reveal(SliceModel::turn);
    }

    /// How many instructions have retired in a slice: no more than the quantum,
    /// and as many as the guest has retired meanwhile.
    pub proof fn lemma_slice_retires(self, quantum: nat, ran: nat)
        requires
            ran <= quantum,
        ensures
            self.slice(quantum, ran) matches Some((s, all)) ==> {
                &&& ran <= all <= quantum
                &&& s.guest.vcpu.retired == self.guest.vcpu.retired + (all - ran)
            },
        decreases quantum - ran, self.guest.program.len() - self.guest.vcpu.pc,
    {
        if ran < quantum {
            self.lemma_turn_progress();
            match self.turn() {
                Some((s, Turn::Retired)) => s.lemma_slice_retires(quantum, ran + 1),
                Some((s, Turn::Resumed)) => s.lemma_slice_retires(quantum, ran),
                _ => {},
            }
        }
    }

    /// A slice of a well formed part leaves it well formed. It has an outcome as
    /// long as the rest of the quantum can be counted.
    pub proof fn lemma_slice_wf(self, quantum: nat, ran: nat)
        requires
            self.wf(),
            ran <= quantum,
        ensures
            self.slice(quantum, ran) matches Some((s, all)) ==> s.wf(),
            self.guest.vcpu.retired + (quantum - ran) <= u64::MAX ==> self.slice(quantum, ran)
                is Some,
        decreases quantum - ran, self.guest.program.len() - self.guest.vcpu.pc,
    {
        if ran < quantum {
            self.lemma_turn_progress();
            self.lemma_turn_wf();
            match self.turn() {
                Some((s, Turn::Retired)) => s.lemma_slice_wf(quantum, ran + 1),
                Some((s, Turn::Resumed)) => s.lemma_slice_wf(quantum, ran),
                _ => {},
            }
        }
    }
}

/// The hypervisor and the machine it runs, as mathematical values.
#[verifier::ext_equal]
pub struct MachineModel {
    pub mem: MemoryModel,
    pub guests: Seq<GuestModel>,
    pub quantum: u64,
    pub exits: Seq<ExitRecord>,
    pub schedule: Seq<ScheduleTick>,
    pub rings: Seq<RingModel>,
    pub max_rounds: u64,
    pub budget_exhausted: bool,
    pub tick: nat,
    pub vm_entries: nat,
}

impl MachineModel {
    /// A machine with `frame_count` zeroed frames and no guests.
    pub open spec fn booted(frame_count: nat, quantum: u64) -> MachineModel {
        MachineModel {
            mem: MemoryModel::zeroed(frame_count),
            guests: Seq::empty(),
            quantum,
            exits: Seq::empty(),
            schedule: Seq::empty(),
            rings: Seq::empty(),
            max_rounds: DEFAULT_MAX_ROUNDS,
            budget_exhausted: false,
            tick: 0,
            vm_entries: 0,
        }
    }

    /// The machine with a new guest whose `pages` pages are backed by the next
    /// free frames.
    pub open spec fn with_guest(
        self,
        name: Seq<char>,
        program: Seq<Instr>,
        pages: u64,
        perm: Perm,
    ) -> MachineModel {
        MachineModel {
            mem: MemoryModel { next_free: self.mem.next_free + pages as nat, ..self.mem },
            guests: self.guests.push(
                GuestModel::fresh(
                    self.guests.len() as u32,
                    name,
                    program,
                    TableModel::contiguous(self.mem.next_free, pages, perm),
                ),
            ),
            ..self
        }
    }

    /// The machine with page `gpn` of guest `i` mapped to host frame `hfn`.
    pub open spec fn with_mapping(self, i: int, gpn: u64, hfn: u64, perm: Perm) -> MachineModel {
        MachineModel {
            guests: self.guests.update(
                i,
                GuestModel {
                    page_table: self.guests[i].page_table.with(gpn, hfn, perm),
                    ..self.guests[i]
                },
            ),
            ..self
        }
    }

    /// The machine with a ring attached to guest `guest_id`: the next free frame,
    /// mapped read write at the guest's page `gpn`.
    pub open spec fn with_ring(self, guest_id: u32, gpn: u64) -> MachineModel {
        let hfn = self.mem.next_free as u64;
        let mapped = self.with_mapping(
            guest_id as int,
            gpn,
            hfn,
            Perm { read: true, write: true },
        );
        MachineModel {
            mem: MemoryModel { next_free: self.mem.next_free + 1, ..self.mem },
            rings: self.rings.push(RingModel { guest_id, hfn, gpn, received: Seq::empty() }),
            ..mapped
        }
    }

    /// The memory map of the first `n` guests.
    pub open spec fn memory_map(self, n: int) -> Seq<char>
        decreases n,
    {
        if n <= 0 {
            Seq::empty()
        } else {
            self.memory_map(n - 1) + self.guests[n - 1].memory_map()
        }
    }

    /// The part of the machine that a slice of guest `i` can touch.
    pub open spec fn part(self, i: int) -> SliceModel {
        SliceModel {
            guest: self.guests[i],
            mem: self.mem,
            rings: self.rings,
            exits: self.exits,
            tick: self.tick,
        }
    }

    /// The machine with the part of guest `i` replaced.
    pub open spec fn with_part(self, i: int, part: SliceModel) -> MachineModel {
        MachineModel {
            guests: self.guests.update(i, part.guest),
            mem: part.mem,
            rings: part.rings,
            exits: part.exits,
            tick: part.tick,
            ..self
        }
    }

    /// The machine after a slice of guest `i` that left its part as `part`, having
    /// retired `ran` instructions, is entered in the schedule.
    pub open spec fn scheduled(self, i: int, part: SliceModel, ran: nat) -> MachineModel {
        MachineModel {
            schedule: self.schedule.push(
                ScheduleTick {
                    tick: self.tick as u64,
                    guest_id: part.guest.id,
                    instructions_run: ran as u64,
                },
            ),
            vm_entries: self.vm_entries + 1,
            ..self.with_part(i, part)
        }
    }

    /// What running leaves as it is: the guests with their identities, programs
    /// and page tables, the size of host memory and what is handed out of it, how
    /// the rings are bound, the scheduler's settings, and what the exit log and the
    /// schedule held before.
    pub open spec fn keeps(self, later: MachineModel) -> bool {
        &&& later.guests.len() == self.guests.len()
        &&& forall|i: int|
            0 <= i < self.guests.len() ==> {
                &&& (#[trigger] later.guests[i]).id == self.guests[i].id
                &&& later.guests[i].name == self.guests[i].name
                &&& later.guests[i].page_table == self.guests[i].page_table
                &&& later.guests[i].program == self.guests[i].program
            }
        &&& later.mem.frames.len() == self.mem.frames.len()
        &&& later.mem.next_free == self.mem.next_free
        &&& later.rings.len() == self.rings.len()
        &&& forall|k: int|
            0 <= k < self.rings.len() ==> {
                &&& (#[trigger] later.rings[k]).guest_id == self.rings[k].guest_id
                &&& later.rings[k].hfn == self.rings[k].hfn
                &&& later.rings[k].gpn == self.rings[k].gpn
            }
        &&& self.exits.is_prefix_of(later.exits)
        &&& self.schedule.is_prefix_of(later.schedule)
        &&& later.quantum == self.quantum
        &&& later.max_rounds == self.max_rounds
    }

    /// There is a round budget, frames have the size of a page, every frame that a
    /// guest or a ring can reach exists, and no guest has two rings. The tick counts
    /// the exit log, whose records are numbered from 1, the VM entries count the
    /// schedule, and the exit log holds exactly the exits that the guests have taken. A
    /// guest has taken one fault if it has faulted, and none otherwise. Machines that
    /// are set up through the hypervisor's operations are well formed, and stay so when
    /// they run.
    pub open spec fn wf(self) -> bool {
        &&& self.max_rounds > 0
        &&& self.mem.wf()
        &&& self.tick == self.exits.len()
        &&& numbered_log(self.exits)
        &&& self.vm_entries == self.schedule.len()
        &&& GuestModel::all_exits_taken(self.guests) == self.exits.len()
        &&& forall|i: int|
            0 <= i < self.guests.len() ==> {
                &&& (#[trigger] self.guests[i]).page_table.fits(self.mem)
                &&& self.guests[i].fault_exits == if self.guests[i].state is Faulted {
                    1nat
                } else {
                    0
                }
            }
        &&& forall|k: int|
            0 <= k < self.rings.len() ==> self.mem.has_frame((#[trigger] self.rings[k]).hfn)
        &&& forall|k: int, l: int|
            0 <= k < l < self.rings.len() ==> (#[trigger] self.rings[k]).guest_id != (
            #[trigger] self.rings[l]).guest_id
    }

    /// Every instruction that `rounds` more rounds can retire can be counted.
    pub open spec fn rounds_fit(self, rounds: nat) -> bool {
        forall|i: int|
            0 <= i < self.guests.len() ==> (#[trigger] self.guests[i]).vcpu.retired + rounds
                * self.quantum <= u64::MAX
    }

    /// The machine can run whatever its guests do: it is well formed, and every
    /// instruction that the round budget admits can be counted.
    pub open spec fn ready(self) -> bool {
        self.wf() && self.rounds_fit(self.max_rounds as nat)
    }

    /// The machine after guest `i` has had one time slice, if it is runnable.
    pub open spec fn run_slice(self, i: int) -> Option<MachineModel> {
        if !self.guests[i].runnable() {
            Some(self)
        } else {
            match self.part(i).slice(self.quantum as nat, 0) {
                Some((part, ran)) if countable(self.vm_entries, self.schedule.len() + 1) => Some(
                    self.scheduled(i, part, ran),
                ),
                _ => None,
            }
        }
    }

    /// The machine after guests `i` and up have each had one time slice, in order.
    pub open spec fn round_from(self, i: int) -> Option<MachineModel>
        decreases self.guests.len() - i,
    {
        if !(0 <= i < self.guests.len()) {
            Some(self)
        } else {
            match self.run_slice(i) {
                None => None,
                Some(m) => m.round_from(i + 1),
            }
        }
    }

    /// A slice keeps what [`Self::keeps`] says.
    pub proof fn lemma_run_slice_keeps(self, i: int)
        requires
            0 <= i < self.guests.len(),
        ensures
            self.run_slice(i) matches Some(m) ==> {
                &&& self.keeps(m)
                &&& m.budget_exhausted == self.budget_exhausted
                &&& forall|j: int|
                    0 <= j < self.guests.len() && j != i ==> #[trigger] m.guests[j]
                        == self.guests[j]
            },
    {
        self.part(i).lemma_slice_keeps(self.quantum as nat, 0);
    }

    /// A round keeps what [`Self::keeps`] says.
    pub proof fn lemma_round_keeps(self, i: int)
        requires
            0 <= i,
        ensures
            self.round_from(i) matches Some(m) ==> {
                &&& self.keeps(m)
                &&& m.budget_exhausted == self.budget_exhausted
                &&& forall|j: int|
                    0 <= j < i && j < self.guests.len() ==> #[trigger] m.guests[j]
                        == self.guests[j]
            },
        decreases self.guests.len() - i,
    {
        if i < self.guests.len() {
            self.lemma_run_slice_keeps(i);
            if let Some(m) = self.run_slice(i) {
                m.lemma_round_keeps(i + 1);
            }
        }
    }

    /// The machine after one round robin pass over all guests.
    pub open spec fn round(self) -> Option<MachineModel> {
        self.round_from(0)
    }

    /// Whether some guest is runnable.
    pub open spec fn any_runnable(self) -> bool {
        exists|i: int| 0 <= i < self.guests.len() && (#[trigger] self.guests[i]).runnable()
    }

    /// The rest of a run of which `rounds` rounds are done: where it leaves the
    /// machine, and the number of rounds in all. It goes on while some guest is
    /// runnable and ends when the round budget is reached. The budget is exhausted if
    /// some guest is still runnable then.
    pub open spec fn run_from(self, rounds: nat) -> Option<(MachineModel, nat)>
        decreases self.max_rounds - rounds,
    {
        if !self.any_runnable() {
            Some((self, rounds))
        } else {
            match self.round() {
                None => None,
                Some(m) => if rounds + 1 >= self.max_rounds {
                    Some((MachineModel { budget_exhausted: m.any_runnable(), ..m }, rounds + 1))
                } else {
                    proof {
                        self.lemma_round_keeps(0);
                    }
                    m.run_from(rounds + 1)
                },
            }
        }
    }

    /// A whole run: the machine it leaves, and the number of rounds it took.
    pub open spec fn run(self) -> Option<(MachineModel, nat)> {
        (MachineModel { budget_exhausted: false, ..self }).run_from(0)
    }

    /// A run keeps what [`Self::keeps`] says.
    pub proof fn lemma_run_from_keeps(self, rounds: nat)
        ensures
            self.run_from(rounds) matches Some((m, all)) ==> self.keeps(m),
        decreases self.max_rounds - rounds,
    {
        if self.any_runnable() {
            self.lemma_round_keeps(0);
            if let Some(m) = self.round() {
                if rounds + 1 < self.max_rounds {
                    m.lemma_run_from_keeps(rounds + 1);
                }
            }
        }
    }

    /// Law: adding a guest keeps the machine well formed.
    pub proof fn law_add_guest_keeps_wf(
        self,
        name: Seq<char>,
        program: Seq<Instr>,
        pages: u64,
        perm: Perm,
    )
        requires
            self.wf(),
            self.mem.next_free + pages <= self.mem.frames.len() <= u64::MAX,
        ensures
            self.with_guest(name, program, pages, perm).wf(),
    {
        let added = self.with_guest(name, program, pages, perm);
        assert(added.guests.drop_last() =~= self.guests);
    }

    /// Law: sharing a frame that exists keeps the machine well formed.
    pub proof fn law_share_frame_keeps_wf(self, i: int, gpn: u64, hfn: u64, perm: Perm)
        requires
            self.wf(),
            0 <= i < self.guests.len(),
            self.mem.has_frame(hfn),
        ensures
            self.with_mapping(i, gpn, hfn, perm).wf(),
    {
        let guest = self.with_mapping(i, gpn, hfn, perm).guests[i];
        GuestModel::lemma_all_exits_taken(self.guests, i, guest);
    }

    /// Law: attaching a ring to a guest that has none keeps the machine well formed, so
    /// no guest ever has two.
    pub proof fn law_attach_ring_keeps_wf(self, guest_id: u32, gpn: u64)
        requires
            self.wf(),
            guest_id < self.guests.len(),
            self.mem.next_free < self.mem.frames.len() <= u64::MAX,
            forall|k: int|
                0 <= k < self.rings.len() ==> (#[trigger] self.rings[k]).guest_id != guest_id,
        ensures
            self.with_ring(guest_id, gpn).wf(),
    {
        let guest = self.with_ring(guest_id, gpn).guests[guest_id as int];
        GuestModel::lemma_all_exits_taken(self.guests, guest_id as int, guest);
    }

    /// What a slice of a well formed machine can touch is well formed.
    pub proof fn lemma_part_wf(self, i: int)
        requires
            self.wf(),
            0 <= i < self.guests.len(),
        ensures
            self.part(i).wf(),
    {
        GuestModel::lemma_all_exits_taken(self.guests, i, self.guests[i]);
    }

    /// A slice of a well formed machine leaves it well formed, retires at most a
    /// quantum, and has an outcome as long as that can be counted.
    pub proof fn lemma_run_slice_wf(self, i: int)
        requires
            self.wf(),
            0 <= i < self.guests.len(),
        ensures
            self.run_slice(i) matches Some(m) ==> {
                &&& m.wf()
                &&& m.guests[i].vcpu.retired <= self.guests[i].vcpu.retired + self.quantum
            },
            self.guests[i].vcpu.retired + self.quantum <= u64::MAX ==> self.run_slice(i) is Some,
    {
        let part = self.part(i);
        GuestModel::lemma_all_exits_taken(self.guests, i, self.guests[i]);
        self.lemma_run_slice_keeps(i);
        part.lemma_slice_keeps(self.quantum as nat, 0);
        part.lemma_slice_wf(self.quantum as nat, 0);
        part.lemma_slice_retires(self.quantum as nat, 0);
        if self.guests[i].runnable() {
            part.lemma_slice_counts_exits(self.quantum as nat, 0);
            if let Some(m) = self.run_slice(i) {
                GuestModel::lemma_all_exits_taken(self.guests, i, m.guests[i]);
            }
        }
    }

    /// A round of a well formed machine leaves it well formed, lets each guest
    /// retire at most a quantum, and has an outcome as long as that can be counted.
    pub proof fn lemma_round_wf(self, i: int)
        requires
            self.wf(),
            0 <= i,
        ensures
            self.round_from(i) matches Some(m) ==> {
                &&& m.wf()
                &&& forall|j: int|
                    0 <= j < self.guests.len() ==> (#[trigger] m.guests[j]).vcpu.retired
                        <= self.guests[j].vcpu.retired + self.quantum
            },
            (forall|j: int|
                i <= j < self.guests.len() ==> (#[trigger] self.guests[j]).vcpu.retired
                    + self.quantum <= u64::MAX) ==> self.round_from(i) is Some,
        decreases self.guests.len() - i,
    {
        if i < self.guests.len() {
            self.lemma_run_slice_wf(i);
            self.lemma_run_slice_keeps(i);
            if let Some(m) = self.run_slice(i) {
                m.lemma_round_wf(i + 1);
                m.lemma_round_keeps(i + 1);
            }
        }
    }

    /// A run of a well formed machine leaves it well formed, lets each guest retire
    /// at most a quantum per round, and has an outcome as long as that can be
    /// counted.
    pub proof fn lemma_run_from_wf(self, rounds: nat)
        requires
            self.wf(),
        ensures
            self.run_from(rounds) matches Some((m, all)) ==> {
                &&& m.wf()
                &&& rounds <= all
                &&& forall|j: int|
                    0 <= j < self.guests.len() ==> (#[trigger] m.guests[j]).vcpu.retired
                        <= self.guests[j].vcpu.retired + (all - rounds) * self.quantum
            },
            rounds < self.max_rounds && self.rounds_fit((self.max_rounds - rounds) as nat)
                ==> self.run_from(rounds) is Some,
        decreases self.max_rounds - rounds,
    {
        if self.any_runnable() {
            self.lemma_round_wf(0);
            self.lemma_round_keeps(0);
            let quantum = self.quantum as int;
            assert((rounds + 1 - rounds) * quantum == quantum) by (nonlinear_arith);
            let left = self.max_rounds - rounds;
            if rounds < self.max_rounds && self.rounds_fit(left as nat) {
                assert(left * quantum == (left - 1) * quantum + quantum && (left - 1) * quantum
                    >= 0) by (nonlinear_arith)
                    requires
                        left >= 1,
                        quantum >= 0,
                ;
                assert(self.round() is Some);
            }
            if let Some(m) = self.round() {
                if rounds + 1 < self.max_rounds {
                    m.lemma_run_from_wf(rounds + 1);
                    if let Some((last, all)) = m.run_from(rounds + 1) {
                        assert((all - rounds) * quantum == (all - (rounds + 1)) * quantum + quantum)
                            by (nonlinear_arith);
                    }
                }
            }
        } else {
            assert((rounds - rounds) * self.quantum == 0) by (nonlinear_arith);
        }
    }

    /// Law: the host survives arbitrary guests. A machine that is ready has a run
    /// with an outcome, whatever its guests do, and it is still well formed then.
    pub proof fn law_ready_machine_runs(self)
        requires
            self.ready(),
        ensures
            self.run() matches Some((m, rounds)) && m.wf(),
    {
        let start = MachineModel { budget_exhausted: false, ..self };
        assert(start.guests == self.guests);
        start.lemma_run_from_wf(0);
    }

    /// Law: a run of a well formed machine leaves it well formed, with every exit
    /// accounted for, and lets each guest retire at most what the round budget admits.
    pub proof fn law_run_keeps_wf(self)
        requires
            self.wf(),
        ensures
            self.run() matches Some((m, rounds)) ==> {
                &&& m.wf()
                &&& forall|i: int|
                    0 <= i < self.guests.len() ==> (#[trigger] m.guests[i]).vcpu.retired
                        <= self.guests[i].vcpu.retired + self.max_rounds * self.quantum
            },
    {
        (MachineModel { budget_exhausted: false, ..self }).lemma_run_from_wf(0);
        self.law_run_is_bounded();
        if let Some((m, rounds)) = self.run() {
            let quantum = self.quantum as int;
            let max_rounds = self.max_rounds as int;
            assert(rounds * quantum <= max_rounds * quantum) by (nonlinear_arith)
                requires
                    rounds <= max_rounds,
                    quantum >= 0,
            ;
        }
    }
}

} // verus!
