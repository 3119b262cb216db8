//! Laws of a single vCPU step: privileged instructions trap, malformed ones
//! fault, and memory is reached only through the guest's own page table.
use crate::cpu::{ExitReason, FaultKind, Instr, MemAccess, Reg, StepResult, VCpuModel};
use crate::mem::{MemoryModel, TableModel};
use vstd::prelude::*;

verus! {

impl VCpuModel {
    /// Whether the next step decodes an instruction of `program`.
    pub open spec fn decodes(self, program: Seq<Instr>) -> bool {
        !self.halted && self.pc < program.len()
    }

    /// Law: a step has an outcome for every instruction, malformed or not, when
    /// every mapped frame exists and one more instruction can be counted.
    pub proof fn law_step_survives(
        self,
        program: Seq<Instr>,
        table: TableModel,
        mem: MemoryModel,
    )
        requires
            table.fits(mem),
            self.retired < u64::MAX,
        ensures
            self.step(program, table, mem) is Some,
    {
    }

    /// Law: a privileged instruction always traps. The step exits with the decoded
    /// operands, moves past the instruction, and changes nothing else.
    pub proof fn law_privileged_traps(
        self,
        program: Seq<Instr>,
        table: TableModel,
        mem: MemoryModel,
    )
        requires
            self.decodes(program),
            program[self.pc as int].privileged(),
            program[self.pc as int].in_range(),
        ensures
            self.step(program, table, mem) matches Some(step) && {
                &&& step.vcpu == (VCpuModel { pc: self.pc + 1, ..self })
                &&& step.mem == mem
                &&& step.result == StepResult::Exit(
                    match program[self.pc as int] {
                        Instr::Out(port, rs) => ExitReason::DeviceIo { port, value: self.reg(rs) },
                        Instr::SetCr(cr, rs) => ExitReason::SetControlReg {
                            cr,
                            value: self.reg(rs),
                        },
                        _ => ExitReason::Halt,
                    },
                )
            },
    {
    }

    /// Law: the trap cannot be bypassed. A step that continues executed a well
    /// formed, non privileged instruction and retired exactly it. No step changes a
    /// control register. A device write or a control register write is requested
    /// only by the instruction for it.
    pub proof fn law_trap_cannot_be_bypassed(
        self,
        program: Seq<Instr>,
        table: TableModel,
        mem: MemoryModel,
    )
        ensures
            self.step(program, table, mem) matches Some(step) ==> {
                &&& step.vcpu.cr == self.cr
                &&& step.result is Continue ==> {
                    &&& self.decodes(program)
                    &&& program[self.pc as int].in_range()
                    &&& !program[self.pc as int].privileged()
                    &&& step.vcpu.retired == self.retired + 1
                }
                &&& step.result !is Continue ==> {
                    &&& step.vcpu.retired == self.retired
                    &&& step.vcpu.regs == self.regs
                    &&& step.mem == mem
                }
                &&& step.result matches StepResult::Exit(ExitReason::DeviceIo { port, value })
                    ==> {
                    &&& self.decodes(program)
                    &&& program[self.pc as int] is Out
                    &&& program[self.pc as int]->Out_0 == port
                    &&& self.reg(program[self.pc as int]->Out_1) == value
                }
                &&& step.result matches StepResult::Exit(ExitReason::SetControlReg { cr, value })
                    ==> {
                    &&& self.decodes(program)
                    &&& program[self.pc as int] is SetCr
                    &&& program[self.pc as int]->SetCr_0 == cr
                    &&& cr < crate::cpu::CR_COUNT
                    &&& self.reg(program[self.pc as int]->SetCr_1) == value
                }
            },
    {
    }

    /// Law: a malformed instruction is an invalid operation. The step exits at the
    /// instruction and changes nothing.
    pub proof fn law_malformed_faults(
        self,
        program: Seq<Instr>,
        table: TableModel,
        mem: MemoryModel,
    )
        requires
            self.decodes(program),
            !program[self.pc as int].in_range(),
        ensures
            self.step(program, table, mem) == self.exits(
                mem,
                ExitReason::InvalidOp { pc: self.pc as usize },
            ),
    {
    }

    /// Law: a load or store that does not translate faults at the instruction and
    /// changes nothing.
    pub proof fn law_fault_leaves_no_trace(
        self,
        program: Seq<Instr>,
        table: TableModel,
        mem: MemoryModel,
    )
        ensures
            self.step(program, table, mem) matches Some(step) ==> (step.result matches
                StepResult::Exit(ExitReason::MemFault { gpa, access, kind }) ==> {
                &&& step.vcpu == self
                &&& step.mem == mem
                &&& table.translate(gpa, access is Write) is Err
            }),
            self.decodes(program) ==> match program[self.pc as int] {
                Instr::Load(rd, rs) => program[self.pc as int].in_range() && table.translate(
                    self.reg(rs),
                    false,
                ) is Err ==> self.step(program, table, mem) == self.exits(
                    mem,
                    ExitReason::MemFault {
                        gpa: self.reg(rs),
                        access: MemAccess::Read,
                        kind: FaultKind::of(table.translate(self.reg(rs), false)->Err_0),
                    },
                ),
                Instr::Store(rd, rs) => program[self.pc as int].in_range() && table.translate(
                    self.reg(rd),
                    true,
                ) is Err ==> self.step(program, table, mem) == self.exits(
                    mem,
                    ExitReason::MemFault {
                        gpa: self.reg(rd),
                        access: MemAccess::Write,
                        kind: FaultKind::of(table.translate(self.reg(rd), true)->Err_0),
                    },
                ),
                _ => true,
            },
    {
    }

    /// Law: a step writes only where its page table allows. It leaves the size of
    /// memory and every frame that the table does not map writable as they are.
    pub proof fn law_step_writes_are_confined(
        self,
        program: Seq<Instr>,
        table: TableModel,
        mem: MemoryModel,
    )
        ensures
            self.step(program, table, mem) matches Some(step) ==> {
                &&& step.mem.frames.len() == mem.frames.len()
                &&& step.mem.next_free == mem.next_free
                &&& mem.wf() ==> step.mem.wf()
                &&& forall|hfn: u64|
                    mem.has_frame(hfn) && !table.writes(hfn)
                        ==> #[trigger] step.mem.frames[hfn as int] == mem.frames[hfn as int]
            },
    {
        if self.decodes(program) {
            if let Instr::Store(rd, rs) = program[self.pc as int] {
                table.law_translation_is_confined(self.reg(rd), true);
            }
        }
    }

    /// Law: a step sees only what its page table maps. Two memories that agree on
    /// the mapped frames lead to the same vCPU and the same result, and still agree
    /// on the mapped frames afterwards.
    pub proof fn law_step_reads_are_confined(
        self,
        program: Seq<Instr>,
        table: TableModel,
        a: MemoryModel,
        b: MemoryModel,
    )
        requires
            a.agrees(b, table),
        ensures
            match (self.step(program, table, a), self.step(program, table, b)) {
                (Some(x), Some(y)) => {
                    &&& x.vcpu == y.vcpu
                    &&& x.result == y.result
                    &&& x.mem.agrees(y.mem, table)
                },
                (None, None) => true,
                _ => false,
            },
    {
        if self.decodes(program) {
            match program[self.pc as int] {
                Instr::Load(rd, rs) => {
                    table.law_translation_is_confined(self.reg(rs), false);
                },
                Instr::Store(rd, rs) => {
                    table.law_translation_is_confined(self.reg(rd), true);
                },
                _ => {},
            }
        }
    }

    /// Law: a halt sticks. A halted vCPU exits with a halt forever and changes
    /// nothing, and a halt or the end of the program halts it.
    pub proof fn law_halt_sticks(
        self,
        program: Seq<Instr>,
        table: TableModel,
        mem: MemoryModel,
    )
        ensures
            self.halted ==> self.step(program, table, mem) == self.exits(mem, ExitReason::Halt),
            self.step(program, table, mem) matches Some(step) ==> {
                step.vcpu.halted <==> step.result == StepResult::Exit(ExitReason::Halt)
                    || step.result == StepResult::Exit(ExitReason::EndOfProgram)
            },
    {
    }

    /// Law: a load gives back what a store put at the same guest physical address,
    /// when the page may be read as well.
    pub proof fn law_load_after_store(
        self,
        gpa: u64,
        value: u64,
        table: TableModel,
        mem: MemoryModel,
        reader: VCpuModel,
        rd: Reg,
    )
        requires
            mem.wf(),
            table.translate(gpa, false) is Ok,
            reader.wf(),
            reader.retired < u64::MAX,
            rd < crate::cpu::NUM_REGS,
        ensures
            self.stores(gpa, value, table, mem) matches Some(stored) ==> (stored.result is Continue
                ==> (reader.loads(rd, gpa, table, stored.mem) matches Some(loaded)
                && loaded.result is Continue && loaded.vcpu.reg(rd) == value)),
    {
        table.law_translation_is_confined(gpa, true);
        table.law_translation_is_confined(gpa, false);
    }
}

} // verus!
