//! What each instruction does, register by register and word by word.
use crate::cpu::{ExitReason, FaultKind, Instr, MemAccess, Reg, StepModel, StepResult, VCpuModel};
use crate::mem::{MemoryModel, TableModel};
use vstd::prelude::*;

verus! {

impl VCpuModel {
    /// Whether the next step decodes `instr`.
    pub open spec fn fetches(self, program: Seq<Instr>, instr: Instr) -> bool {
        &&& !self.halted
        &&& 0 <= self.pc < program.len()
        &&& program[self.pc as int] == instr
    }

    /// Whether `step` retired one instruction, went on at `pc`, and changed no
    /// register but `rd`, no control register, and no memory.
    pub open spec fn retired_at(self, step: StepModel, pc: nat, rd: int, mem: MemoryModel) -> bool {
        &&& step.result == StepResult::Continue
        &&& step.mem == mem
        &&& step.vcpu.pc == pc
        &&& step.vcpu.retired == self.retired + 1
        &&& step.vcpu.halted == self.halted
        &&& step.vcpu.cr == self.cr
        &&& step.vcpu.regs.len() == self.regs.len()
        &&& forall|r: int|
            0 <= r < self.regs.len() && r != rd ==> #[trigger] step.vcpu.regs[r] == self.regs[r]
    }

    /// Law: a move puts the immediate, or what the source register held, into the
    /// destination register, changes no other register, and goes on behind it.
    pub proof fn law_move(
        self,
        program: Seq<Instr>,
        table: TableModel,
        mem: MemoryModel,
        rd: Reg,
        rs: Reg,
        imm: u64,
    )
        requires
            self.regs.len() == 8,
            self.retired < u64::MAX,
            rd < 8,
            rs < 8,
        ensures
            self.fetches(program, Instr::Movi(rd, imm)) ==> (self.step(program, table, mem) matches
                Some(step) && self.retired_at(step, self.pc + 1, rd as int, mem)
                && step.vcpu.regs[rd as int] == imm),
            self.fetches(program, Instr::Mov(rd, rs)) ==> (self.step(program, table, mem) matches
                Some(step) && self.retired_at(step, self.pc + 1, rd as int, mem)
                && step.vcpu.regs[rd as int] == self.regs[rs as int]),
    {
    }

    /// Law: arithmetic is modulo 2^64 on what the operands held before, also when the
    /// destination is one of them. It changes no other register and goes on behind
    /// the instruction.
    pub proof fn law_arithmetic(
        self,
        program: Seq<Instr>,
        table: TableModel,
        mem: MemoryModel,
        rd: Reg,
        rs: Reg,
        rt: Reg,
        imm: u64,
    )
        requires
            self.regs.len() == 8,
            self.retired < u64::MAX,
            rd < 8,
            rs < 8,
            rt < 8,
        ensures
            self.fetches(program, Instr::Add(rd, rs, rt)) ==> (self.step(program, table, mem)
                matches Some(step) && self.retired_at(step, self.pc + 1, rd as int, mem)
                && step.vcpu.regs[rd as int] == (self.regs[rs as int] + self.regs[rt as int])
                % 0x1_0000_0000_0000_0000),
            self.fetches(program, Instr::Sub(rd, rs, rt)) ==> (self.step(program, table, mem)
                matches Some(step) && self.retired_at(step, self.pc + 1, rd as int, mem)
                && step.vcpu.regs[rd as int] == (self.regs[rs as int] - self.regs[rt as int])
                % 0x1_0000_0000_0000_0000),
            self.fetches(program, Instr::Addi(rd, rs, imm)) ==> (self.step(program, table, mem)
                matches Some(step) && self.retired_at(step, self.pc + 1, rd as int, mem)
                && step.vcpu.regs[rd as int] == (self.regs[rs as int] + imm)
                % 0x1_0000_0000_0000_0000),
    {
    }

    /// Law: a jump goes on at its target. A conditional one does so exactly when its
    /// register is zero, and goes on behind the instruction otherwise. Neither changes
    /// a register.
    pub proof fn law_branch(
        self,
        program: Seq<Instr>,
        table: TableModel,
        mem: MemoryModel,
        rs: Reg,
        target: usize,
    )
        requires
            self.regs.len() == 8,
            self.retired < u64::MAX,
            rs < 8,
        ensures
            self.fetches(program, Instr::Jmp(target)) ==> (self.step(program, table, mem) matches
                Some(step) && self.retired_at(step, target as nat, -1, mem)),
            self.fetches(program, Instr::Jz(rs, target)) ==> (self.step(program, table, mem)
                matches Some(step) && (self.regs[rs as int] == 0 ==> self.retired_at(
                step,
                target as nat,
                -1,
                mem,
            )) && (self.regs[rs as int] != 0 ==> self.retired_at(step, self.pc + 1, -1, mem))),
    {
    }

    /// Law: a load brings the word at the address in the source register, from the host
    /// frame behind its page, into the destination register. Without a mapping, or
    /// without read access, it faults at the instruction and changes nothing.
    pub proof fn law_load(
        self,
        program: Seq<Instr>,
        table: TableModel,
        mem: MemoryModel,
        rd: Reg,
        rs: Reg,
    )
        requires
            self.regs.len() == 8,
            self.retired < u64::MAX,
            rd < 8,
            rs < 8,
            self.fetches(program, Instr::Load(rd, rs)),
        ensures
            ({
                let gpa = self.regs[rs as int];
                let gpn = gpa / 16;
                let pte = table.map[gpn];
                let fault = |kind: FaultKind|
                    StepModel {
                        vcpu: self,
                        mem,
                        result: StepResult::Exit(
                            ExitReason::MemFault { gpa, access: MemAccess::Read, kind },
                        ),
                    };
                &&& !table.map.contains_key(gpn) ==> self.step(program, table, mem) == Some(
                    fault(FaultKind::Unmapped),
                )
                &&& table.map.contains_key(gpn) && !pte.perm.read ==> self.step(program, table, mem)
                    == Some(fault(FaultKind::Protection))
                &&& table.map.contains_key(gpn) && pte.perm.read && pte.hfn < mem.frames.len() ==> (
                self.step(program, table, mem) matches Some(step) && self.retired_at(
                    step,
                    self.pc + 1,
                    rd as int,
                    mem,
                ) && step.vcpu.regs[rd as int] == mem.frames[pte.hfn as int][(gpa % 16) as int])
            }),
    {
    }

    /// Law: a store puts what the source register holds at the address in the
    /// destination register, in the host frame behind its page, and changes no other
    /// word and no register. Without a mapping, or without write access, it faults at
    /// the instruction and changes nothing.
    pub proof fn law_store(
        self,
        program: Seq<Instr>,
        table: TableModel,
        mem: MemoryModel,
        rd: Reg,
        rs: Reg,
    )
        requires
            self.regs.len() == 8,
            self.retired < u64::MAX,
            rd < 8,
            rs < 8,
            self.fetches(program, Instr::Store(rd, rs)),
            forall|f: int| 0 <= f < mem.frames.len() ==> (#[trigger] mem.frames[f]).len() == 16,
        ensures
            ({
                let gpa = self.regs[rd as int];
                let gpn = gpa / 16;
                let pte = table.map[gpn];
                let fault = |kind: FaultKind|
                    StepModel {
                        vcpu: self,
                        mem,
                        result: StepResult::Exit(
                            ExitReason::MemFault { gpa, access: MemAccess::Write, kind },
                        ),
                    };
                &&& !table.map.contains_key(gpn) ==> self.step(program, table, mem) == Some(
                    fault(FaultKind::Unmapped),
                )
                &&& table.map.contains_key(gpn) && !pte.perm.write ==> self.step(
                    program,
                    table,
                    mem,
                ) == Some(fault(FaultKind::Protection))
                &&& table.map.contains_key(gpn) && pte.perm.write && pte.hfn < mem.frames.len()
                    ==> (self.step(program, table, mem) matches Some(step) && {
                    &&& self.retired_at(step, self.pc + 1, -1, step.mem)
                    &&& step.mem.next_free == mem.next_free
                    &&& step.mem.frames.len() == mem.frames.len()
                    &&& step.mem.frames[pte.hfn as int][(gpa % 16) as int] == self.regs[rs as int]
                    &&& forall|f: int|
                        0 <= f < mem.frames.len() ==> (#[trigger] step.mem.frames[f]).len() == 16
                    &&& forall|f: int, w: int|
                        0 <= f < mem.frames.len() && 0 <= w < 16 && (f != pte.hfn || w != gpa % 16)
                            ==> #[trigger] step.mem.frames[f][w] == mem.frames[f][w]
                })
            }),
    {
    }

    /// Law: a privileged instruction leaves the guest with the decoded request, moves
    /// past the instruction, and changes nothing else.
    pub proof fn law_request(
        self,
        program: Seq<Instr>,
        table: TableModel,
        mem: MemoryModel,
        port: u16,
        cr: u8,
        rs: Reg,
    )
        requires
            self.regs.len() == 8,
            rs < 8,
        ensures
            self.fetches(program, Instr::Out(port, rs)) ==> self.step(program, table, mem) == Some(
                StepModel {
                    vcpu: VCpuModel { pc: self.pc + 1, ..self },
                    mem,
                    result: StepResult::Exit(
                        ExitReason::DeviceIo { port, value: self.regs[rs as int] },
                    ),
                },
            ),
            self.fetches(program, Instr::SetCr(cr, rs)) && cr < 4 ==> self.step(program, table, mem)
                == Some(
                StepModel {
                    vcpu: VCpuModel { pc: self.pc + 1, ..self },
                    mem,
                    result: StepResult::Exit(
                        ExitReason::SetControlReg { cr, value: self.regs[rs as int] },
                    ),
                },
            ),
    {
    }

    /// Law: a vCPU stops on a halt, at the end of its program, and when it is halted
    /// already, with the reason for it. It stays where it is, and nothing but the halted
    /// flag changes.
    pub proof fn law_stop(self, program: Seq<Instr>, table: TableModel, mem: MemoryModel)
        ensures
            self.fetches(program, Instr::Halt) ==> self.step(program, table, mem) == Some(
                StepModel {
                    vcpu: VCpuModel { halted: true, ..self },
                    mem,
                    result: StepResult::Exit(ExitReason::Halt),
                },
            ),
            !self.halted && self.pc >= program.len() ==> self.step(program, table, mem) == Some(
                StepModel {
                    vcpu: VCpuModel { halted: true, ..self },
                    mem,
                    result: StepResult::Exit(ExitReason::EndOfProgram),
                },
            ),
            self.halted ==> self.step(program, table, mem) == Some(
                StepModel { vcpu: self, mem, result: StepResult::Exit(ExitReason::Halt) },
            ),
    {
    }

    /// Law: there are eight registers and four control registers. An instruction that
    /// names another is an invalid operation: it leaves the guest at the instruction and
    /// changes nothing.
    pub proof fn law_operands(self, program: Seq<Instr>, table: TableModel, mem: MemoryModel)
        requires
            !self.halted,
            self.pc < program.len() <= usize::MAX,
            match program[self.pc as int] {
                Instr::Movi(rd, imm) => rd >= 8,
                Instr::Mov(rd, rs) => rd >= 8 || rs >= 8,
                Instr::Add(rd, rs, rt) => rd >= 8 || rs >= 8 || rt >= 8,
                Instr::Sub(rd, rs, rt) => rd >= 8 || rs >= 8 || rt >= 8,
                Instr::Addi(rd, rs, imm) => rd >= 8 || rs >= 8,
                Instr::Load(rd, rs) => rd >= 8 || rs >= 8,
                Instr::Store(rd, rs) => rd >= 8 || rs >= 8,
                Instr::Jz(rs, target) => rs >= 8,
                Instr::Jmp(target) => false,
                Instr::Out(port, rs) => rs >= 8,
                Instr::SetCr(cr, rs) => cr >= 4 || rs >= 8,
                Instr::Halt => false,
            },
        ensures
            self.step(program, table, mem) matches Some(step) && {
                &&& step.vcpu == self
                &&& step.mem == mem
                &&& step.result matches StepResult::Exit(ExitReason::InvalidOp { pc }) && pc
                    == self.pc
            },
    {
    }

    /// Law: a vCPU starts at the first instruction, with eight registers and four
    /// control registers that are all zero, not halted, with nothing retired.
    pub proof fn law_reset()
        ensures
            ({
                let vcpu = VCpuModel::reset();
                &&& vcpu.pc == 0
                &&& !vcpu.halted
                &&& vcpu.retired == 0
                &&& vcpu.regs.len() == 8
                &&& vcpu.cr.len() == 4
                &&& forall|r: int| 0 <= r < 8 ==> #[trigger] vcpu.regs[r] == 0
                &&& forall|r: int| 0 <= r < 4 ==> #[trigger] vcpu.cr[r] == 0
            }),
    {
    }
}

impl Instr {
    /// Law: the operands are in range exactly when every register named is one of
    /// eight and every control register named one of four, and exactly the device
    /// write and the control register write are privileged.
    pub proof fn law_classes(self)
        ensures
            self.in_range() <==> match self {
                Instr::Movi(rd, imm) => rd < 8,
                Instr::Mov(rd, rs) => rd < 8 && rs < 8,
                Instr::Add(rd, rs, rt) => rd < 8 && rs < 8 && rt < 8,
                Instr::Sub(rd, rs, rt) => rd < 8 && rs < 8 && rt < 8,
                Instr::Addi(rd, rs, imm) => rd < 8 && rs < 8,
                Instr::Load(rd, rs) => rd < 8 && rs < 8,
                Instr::Store(rd, rs) => rd < 8 && rs < 8,
                Instr::Jz(rs, target) => rs < 8,
                Instr::Jmp(target) => true,
                Instr::Out(port, rs) => rs < 8,
                Instr::SetCr(cr, rs) => cr < 4 && rs < 8,
                Instr::Halt => true,
            },
            self.privileged() <==> match self {
                Instr::Out(port, rs) => true,
                Instr::SetCr(cr, rs) => true,
                _ => false,
            },
    {
    }
}

impl FaultKind {
    /// Law: a fault keeps its kind.
    pub proof fn law_kind_is_kept(fault: crate::mem::PhysFault)
        ensures
            FaultKind::of(fault) is Unmapped <==> fault is Unmapped,
            FaultKind::of(fault) is Protection <==> fault is Protection,
    {
    }
}

} // verus!
