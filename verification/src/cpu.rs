//! The emulated guest CPU and its instruction set.
//!
//! The ISA is deliberately small: eight general registers, a program counter,
//! word sized memory, simple arithmetic and branches, a halt, and two
//! privileged instructions. A guest is never allowed to perform a privileged
//! operation itself. When the vCPU decodes one it stops and returns a
//! [`StepResult::Exit`] carrying the decoded request, which is a VM exit. The
//! hypervisor emulates the request and performs a VM entry to resume the guest.
//!
//! Instructions live in a separate program vector indexed by the program counter
//! (a Harvard split). Data lives in the guest's virtualized physical address
//! space and is reached only through second level translation, so every load and
//! store is subject to the isolation checks in [`crate::mem`].
use crate::mem::{HostMemory, MemoryModel, PageTable, PhysFault, TableModel};
use vstd::prelude::*;

verus! {

/// Number of general purpose registers.
pub const NUM_REGS: usize = 8;

/// Number of shadow control registers.
pub const CR_COUNT: usize = 4;

/// A register index, `r0` through `r7`.
pub type Reg = usize;

/// The guest instruction set.
///
/// Register operands are indices in `0..NUM_REGS`. Jump targets are program
/// counter values (instruction indices).
#[derive(Debug, Clone, Copy, PartialEq, Eq)]
pub enum Instr {
    /// `rd = imm`.
    Movi(Reg, u64),
    /// `rd = rs`.
    Mov(Reg, Reg),
    /// `rd = rs + rt` (wrapping).
    Add(Reg, Reg, Reg),
    /// `rd = rs - rt` (wrapping).
    Sub(Reg, Reg, Reg),
    /// `rd = rs + imm` (wrapping).
    Addi(Reg, Reg, u64),
    /// `rd = mem[rs]`, a guest physical load through the SLAT.
    Load(Reg, Reg),
    /// `mem[rd] = rs`, a guest physical store through the SLAT.
    Store(Reg, Reg),
    /// `if rs == 0 { pc = target }`.
    Jz(Reg, usize),
    /// `pc = target`.
    Jmp(usize),
    /// Privileged. Device IO write of `rs` to `port`. Traps to the hypervisor.
    Out(u16, Reg),
    /// Privileged. Set virtual control register `cr` to `rs`. Traps to the
    /// hypervisor.
    SetCr(u8, Reg),
    /// Stop this vCPU.
    Halt,
}

impl Instr {
    /// Whether the instruction must trap: a device write or a control register
    /// write.
    pub open spec fn privileged(self) -> bool {
        self is Out || self is SetCr
    }

    /// Whether every operand is architecturally in range: registers below
    /// [`NUM_REGS`], control registers below [`CR_COUNT`].
    pub open spec fn in_range(self) -> bool {
        match self {
            Instr::Movi(rd, _) => rd < NUM_REGS,
            Instr::Mov(rd, rs) => rd < NUM_REGS && rs < NUM_REGS,
            Instr::Add(rd, rs, rt) => rd < NUM_REGS && rs < NUM_REGS && rt < NUM_REGS,
            Instr::Sub(rd, rs, rt) => rd < NUM_REGS && rs < NUM_REGS && rt < NUM_REGS,
            Instr::Addi(rd, rs, _) => rd < NUM_REGS && rs < NUM_REGS,
            Instr::Load(rd, rs) => rd < NUM_REGS && rs < NUM_REGS,
            Instr::Store(rd, rs) => rd < NUM_REGS && rs < NUM_REGS,
            Instr::Jz(rs, _) => rs < NUM_REGS,
            Instr::Jmp(_) => true,
            Instr::Out(_, rs) => rs < NUM_REGS,
            Instr::SetCr(cr, rs) => cr < CR_COUNT && rs < NUM_REGS,
            Instr::Halt => true,
        }
    }

    /// Whether this instruction is privileged and must trap rather than execute
    /// in guest context.
    #[must_use]
    pub fn is_privileged(self) -> (yes: bool)
        ensures
            yes == self.privileged(),
    {
        matches!(self, Instr::Out(..) | Instr::SetCr(..))
    }

    /// Whether every register and control register operand this instruction
    /// names is architecturally in range. A malformed guest image that encodes
    /// an out of range operand must not be able to index host state, so the vCPU
    /// treats it as an invalid operation fault rather than executing it.
    #[must_use]
    pub fn operands_in_range(self) -> (yes: bool)
        ensures
            yes == self.in_range(),
    {
        match self {
            Instr::Movi(rd, _) => rd < NUM_REGS,
            Instr::Mov(rd, rs)
            | Instr::Addi(rd, rs, _)
            | Instr::Load(rd, rs)
            | Instr::Store(rd, rs) => rd < NUM_REGS && rs < NUM_REGS,
            Instr::Add(rd, rs, rt) | Instr::Sub(rd, rs, rt) => {
                rd < NUM_REGS && rs < NUM_REGS && rt < NUM_REGS
            },
            Instr::Jz(rs, _) | Instr::Out(_, rs) => rs < NUM_REGS,
            Instr::SetCr(cr, rs) => (cr as usize) < CR_COUNT && rs < NUM_REGS,
            Instr::Jmp(_) | Instr::Halt => true,
        }
    }
}

/// The direction of a faulting memory access.
#[derive(Debug, Clone, Copy, PartialEq, Eq)]
pub enum MemAccess {
    Read,
    Write,
}

/// The kind of a guest memory fault, mirroring [`PhysFault`] plus the access.
#[derive(Debug, Clone, Copy, PartialEq, Eq)]
pub enum FaultKind {
    Unmapped,
    Protection,
}

impl FaultKind {
    /// The fault kind that reports translation fault `fault`.
    pub open spec fn of(fault: PhysFault) -> FaultKind {
        match fault {
            PhysFault::Unmapped => FaultKind::Unmapped,
            PhysFault::Protection => FaultKind::Protection,
        }
    }
}

impl From<PhysFault> for FaultKind {
    fn from(f: PhysFault) -> (kind: Self) {
        match f {
            PhysFault::Unmapped => FaultKind::Unmapped,
            PhysFault::Protection => FaultKind::Protection,
        }
    }
}

impl vstd::std_specs::convert::FromSpecImpl<PhysFault> for FaultKind {
    open spec fn obeys_from_spec() -> bool {
        true
    }

    open spec fn from_spec(f: PhysFault) -> FaultKind {
        FaultKind::of(f)
    }
}

/// Why a vCPU stopped running and returned control to the hypervisor.
#[derive(Debug, Clone, Copy, PartialEq, Eq)]
pub enum ExitReason {
    /// The guest executed [`Instr::Halt`].
    Halt,
    /// The guest ran off the end of its program (no more instructions).
    EndOfProgram,
    /// A privileged device IO write. Carries the decoded `port` and `value`.
    DeviceIo { port: u16, value: u64 },
    /// A privileged control register write. Carries the decoded `cr` and value.
    SetControlReg { cr: u8, value: u64 },
    /// A guest physical memory access could not be completed.
    MemFault { gpa: u64, access: MemAccess, kind: FaultKind },
    /// The guest tried to execute an instruction whose operands are out of
    /// architectural range (a malformed guest image). The equivalent of an
    /// invalid opcode fault. Nothing is executed in guest context.
    InvalidOp { pc: usize },
}

/// The result of stepping a vCPU once.
#[derive(Debug, Clone, Copy, PartialEq, Eq)]
pub enum StepResult {
    /// The instruction executed in guest context. Keep running.
    Continue,
    /// The vCPU took a VM exit. Control belongs to the hypervisor.
    Exit(ExitReason),
}

/// The architectural state of one virtual CPU, as mathematical values.
#[verifier::ext_equal]
pub struct VCpuModel {
    pub regs: Seq<u64>,
    pub pc: nat,
    pub halted: bool,
    pub cr: Seq<u64>,
    pub retired: nat,
}

/// What one step leaves behind: the vCPU, host memory, and the step's result.
#[verifier::ext_equal]
pub struct StepModel {
    pub vcpu: VCpuModel,
    pub mem: MemoryModel,
    pub result: StepResult,
}

impl VCpuModel {
    /// The register files have their architectural sizes.
    pub open spec fn wf(self) -> bool {
        self.regs.len() == NUM_REGS && self.cr.len() == CR_COUNT
    }

    /// A freshly reset vCPU.
    pub open spec fn reset() -> VCpuModel {
        VCpuModel {
            regs: Seq::new(NUM_REGS as nat, |r: int| 0u64),
            pc: 0,
            halted: false,
            cr: Seq::new(CR_COUNT as nat, |r: int| 0u64),
            retired: 0,
        }
    }

    /// The value of register `r`.
    pub open spec fn reg(self, r: Reg) -> u64 {
        self.regs[r as int]
    }

    /// This vCPU with register `r` set to `value`.
    pub open spec fn with_reg(self, r: Reg, value: u64) -> VCpuModel {
        VCpuModel { regs: self.regs.update(r as int, value), ..self }
    }

    /// The step that leaves the guest with `reason`, this vCPU and `mem`.
    pub open spec fn exits(self, mem: MemoryModel, reason: ExitReason) -> Option<StepModel> {
        Some(StepModel { vcpu: self, mem, result: StepResult::Exit(reason) })
    }

    /// The step that retires one instruction, continuing at `pc`. There is none
    /// when the count of retired instructions is exhausted.
    pub open spec fn retires(self, pc: nat, mem: MemoryModel) -> Option<StepModel> {
        if self.retired < u64::MAX {
            Some(
                StepModel {
                    vcpu: VCpuModel { pc, retired: self.retired + 1, ..self },
                    mem,
                    result: StepResult::Continue,
                },
            )
        } else {
            None
        }
    }

    /// One step of `program` under page table `table` with host memory `mem`.
    ///
    /// The step is `None` exactly where it has no outcome: the access it makes
    /// translates to a host frame that does not exist, or the instruction would
    /// retire past the last value of the retired count.
    pub open spec fn step(
        self,
        program: Seq<Instr>,
        table: TableModel,
        mem: MemoryModel,
    ) -> Option<StepModel> {
        if self.halted {
            self.exits(mem, ExitReason::Halt)
        } else if self.pc >= program.len() {
            (VCpuModel { halted: true, ..self }).exits(mem, ExitReason::EndOfProgram)
        } else {
            let instr = program[self.pc as int];
            let next = self.pc + 1;
            if !instr.in_range() {
                self.exits(mem, ExitReason::InvalidOp { pc: self.pc as usize })
            } else {
                match instr {
                    Instr::Movi(rd, imm) => self.with_reg(rd, imm).retires(next, mem),
                    Instr::Mov(rd, rs) => self.with_reg(rd, self.reg(rs)).retires(next, mem),
                    Instr::Add(rd, rs, rt) => self.with_reg(
                        rd,
                        self.reg(rs).wrapping_add(self.reg(rt)),
                    ).retires(next, mem),
                    Instr::Sub(rd, rs, rt) => self.with_reg(
                        rd,
                        self.reg(rs).wrapping_sub(self.reg(rt)),
                    ).retires(next, mem),
                    Instr::Addi(rd, rs, imm) => self.with_reg(
                        rd,
                        self.reg(rs).wrapping_add(imm),
                    ).retires(next, mem),
                    Instr::Load(rd, rs) => self.loads(rd, self.reg(rs), table, mem),
                    Instr::Store(rd, rs) => self.stores(self.reg(rd), self.reg(rs), table, mem),
                    Instr::Jz(rs, target) => if self.reg(rs) == 0 {
                        self.retires(target as nat, mem)
                    } else {
                        self.retires(next, mem)
                    },
                    Instr::Jmp(target) => self.retires(target as nat, mem),
                    Instr::Out(port, rs) => (VCpuModel { pc: next, ..self }).exits(
                        mem,
                        ExitReason::DeviceIo { port, value: self.reg(rs) },
                    ),
                    Instr::SetCr(cr, rs) => (VCpuModel { pc: next, ..self }).exits(
                        mem,
                        ExitReason::SetControlReg { cr, value: self.reg(rs) },
                    ),
                    Instr::Halt => (VCpuModel { halted: true, ..self }).exits(
                        mem,
                        ExitReason::Halt,
                    ),
                }
            }
        }
    }

    /// The step of a load of guest physical address `gpa` into register `rd`.
    pub open spec fn loads(
        self,
        rd: Reg,
        gpa: u64,
        table: TableModel,
        mem: MemoryModel,
    ) -> Option<StepModel> {
        match table.translate(gpa, false) {
            Ok((hfn, offset)) => if mem.has_frame(hfn) {
                self.with_reg(rd, mem.word(hfn, offset)).retires(self.pc + 1, mem)
            } else {
                None
            },
            Err(fault) => self.exits(
                mem,
                ExitReason::MemFault { gpa, access: MemAccess::Read, kind: FaultKind::of(fault) },
            ),
        }
    }

    /// The step of a store of `value` to guest physical address `gpa`.
    pub open spec fn stores(
        self,
        gpa: u64,
        value: u64,
        table: TableModel,
        mem: MemoryModel,
    ) -> Option<StepModel> {
        match table.translate(gpa, true) {
            Ok((hfn, offset)) => if mem.has_frame(hfn) {
                self.retires(self.pc + 1, mem.with_word(hfn, offset, value))
            } else {
                None
            },
            Err(fault) => self.exits(
                mem,
                ExitReason::MemFault { gpa, access: MemAccess::Write, kind: FaultKind::of(fault) },
            ),
        }
    }
}

/// The architectural state of one virtual CPU.
#[derive(Debug, Clone)]
pub struct VCpu {
    pub regs: [u64; NUM_REGS],
    pub pc: usize,
    pub halted: bool,
    /// Shadow control registers, written only by the hypervisor when emulating a
    /// [`Instr::SetCr`] exit. The guest can never write these directly.
    pub cr: [u64; CR_COUNT],
    /// Count of instructions retired in guest context (excludes trapped ones).
    pub retired: u64,
}

impl View for VCpu {
    type V = VCpuModel;

    open spec fn view(&self) -> VCpuModel {
        VCpuModel {
            regs: self.regs@,
            pc: self.pc as nat,
            halted: self.halted,
            cr: self.cr@,
            retired: self.retired as nat,
        }
    }
}

impl Default for VCpu {
    fn default() -> (vcpu: Self)
        ensures
            vcpu@ == VCpuModel::reset(),
    {
        Self::new()
    }
}

impl VCpu {
    /// A freshly reset vCPU.
    #[must_use]
    pub fn new() -> (vcpu: Self)
        ensures
            vcpu@ == VCpuModel::reset(),
    {
        let vcpu = Self {
            regs: [0; NUM_REGS],
            pc: 0,
            halted: false,
            cr: [0; CR_COUNT],
            retired: 0,
        };
        assert(vcpu@ =~= VCpuModel::reset());
        vcpu
    }

    /// Execute a single instruction of `program`.
    ///
    /// Non privileged instructions execute in guest context and return
    /// [`StepResult::Continue`]. Privileged instructions, halts, end of program,
    /// and memory faults do not change device or control state here: they return
    /// [`StepResult::Exit`] so the hypervisor can decide what happens. This is
    /// the single choke point that makes trap and emulate unbypassable, because
    /// the guest CPU literally has no code path that performs a privileged
    /// effect.
    ///
    /// Memory operands are translated through `page_table` and serviced from
    /// `host_mem`, so a guest can only ever touch host frames its own page table
    /// maps. The caller makes sure that the step has an outcome; it has one
    /// whenever every mapped frame exists and the retired count is not at its
    /// last value.
    pub fn step(
        &mut self,
        program: &[Instr],
        page_table: &PageTable,
        host_mem: &mut HostMemory,
    ) -> (result: StepResult)
        requires
            old(self)@.step(program@, page_table@, old(host_mem)@) is Some,
        ensures
            old(self)@.step(program@, page_table@, old(host_mem)@) == Some(
                StepModel { vcpu: final(self)@, mem: final(host_mem)@, result },
            ),
    {
        if self.halted {
            return StepResult::Exit(ExitReason::Halt);
        }
        if self.pc >= program.len() {
            self.halted = true;
            return StepResult::Exit(ExitReason::EndOfProgram);
        }
        let instr = program[self.pc];

        // A malformed instruction is rejected before any operand is used, so an
        // out of range register or control register index can never index host
        // state. pc is left on the faulting instruction, as for a memory fault.
        if !instr.operands_in_range() {
            return StepResult::Exit(ExitReason::InvalidOp { pc: self.pc });
        }

        match instr {
            // A privileged instruction never executes in guest context. Leave the
            // pc pointing at the next instruction so the hypervisor resumes
            // cleanly, and hand the decoded request up as a VM exit.
            Instr::Out(port, rs) => {
                self.pc = self.pc + 1;
                return StepResult::Exit(ExitReason::DeviceIo { port, value: self.regs[rs] });
            },
            Instr::SetCr(cr, rs) => {
                self.pc = self.pc + 1;
                return StepResult::Exit(ExitReason::SetControlReg { cr, value: self.regs[rs] });
            },
            Instr::Halt => {
                self.halted = true;
                return StepResult::Exit(ExitReason::Halt);
            },
            Instr::Movi(rd, imm) => {
                self.regs[rd] = imm;
                self.pc = self.pc + 1;
            },
            Instr::Mov(rd, rs) => {
                self.regs[rd] = self.regs[rs];
                self.pc = self.pc + 1;
            },
            Instr::Add(rd, rs, rt) => {
                self.regs[rd] = self.regs[rs].wrapping_add(self.regs[rt]);
                self.pc = self.pc + 1;
            },
            Instr::Sub(rd, rs, rt) => {
                self.regs[rd] = self.regs[rs].wrapping_sub(self.regs[rt]);
                self.pc = self.pc + 1;
            },
            Instr::Addi(rd, rs, imm) => {
                self.regs[rd] = self.regs[rs].wrapping_add(imm);
                self.pc = self.pc + 1;
            },
            // A memory fault is reported at the faulting instruction: pc does not
            // move.
            Instr::Load(rd, rs) => {
                let gpa: u64 = self.regs[rs];
                match page_table.translate(gpa, false) {
                    Ok((hfn, offset)) => {
                        self.regs[rd] = host_mem.read_word(hfn, offset);
                        self.pc = self.pc + 1;
                    },
                    Err(fault) => {
                        return StepResult::Exit(
                            ExitReason::MemFault {
                                gpa,
                                access: MemAccess::Read,
                                kind: FaultKind::from(fault),
                            },
                        );
                    },
                }
            },
            Instr::Store(rd, rs) => {
                let gpa: u64 = self.regs[rd];
                match page_table.translate(gpa, true) {
                    Ok((hfn, offset)) => {
                        host_mem.write_word(hfn, offset, self.regs[rs]);
                        self.pc = self.pc + 1;
                    },
                    Err(fault) => {
                        return StepResult::Exit(
                            ExitReason::MemFault {
                                gpa,
                                access: MemAccess::Write,
                                kind: FaultKind::from(fault),
                            },
                        );
                    },
                }
            },
            Instr::Jz(rs, target) => {
                if self.regs[rs] == 0 {
                    self.pc = target;
                } else {
                    self.pc = self.pc + 1;
                }
            },
            Instr::Jmp(target) => {
                self.pc = target;
            },
        }
        self.retired = self.retired + 1;
        StepResult::Continue
    }
}

} // verus!
