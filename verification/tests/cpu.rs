//! The vCPU: arithmetic, memory access, traps and faults.
use nesthost::cpu::{ExitReason, FaultKind, Instr, MemAccess, StepResult, VCpu};
use nesthost::mem::{HostMemory, PageTable, Perm, PhysFault};

fn one_frame_pt(mem: &mut HostMemory) -> PageTable {
    let hfn = mem.alloc_frame();
    let mut pt = PageTable::new();
    pt.map(0, hfn, Perm::rw());
    pt
}

#[test]
fn arithmetic_semantics() {
    let mut mem = HostMemory::new(1);
    let pt = one_frame_pt(&mut mem);
    let prog = [
        Instr::Movi(0, 5),
        Instr::Movi(1, 7),
        Instr::Add(2, 0, 1),
        Instr::Sub(3, 1, 0),
        Instr::Addi(4, 2, 100),
    ];
    let mut cpu = VCpu::new();
    for _ in 0..prog.len() {
        assert_eq!(cpu.step(&prog, &pt, &mut mem), StepResult::Continue);
    }
    assert_eq!(cpu.regs[2], 12);
    assert_eq!(cpu.regs[3], 2);
    assert_eq!(cpu.regs[4], 112);
    assert_eq!(cpu.retired, 5);
}

#[test]
fn load_store_round_trip() {
    let mut mem = HostMemory::new(1);
    let pt = one_frame_pt(&mut mem);
    let prog = [
        Instr::Movi(0, 0xABCD), // value
        Instr::Movi(1, 4),      // gpa
        Instr::Store(1, 0),     // mem[4] = r0
        Instr::Movi(0, 0),      // clobber
        Instr::Load(2, 1),      // r2 = mem[4]
    ];
    let mut cpu = VCpu::new();
    for _ in 0..prog.len() {
        assert_eq!(cpu.step(&prog, &pt, &mut mem), StepResult::Continue);
    }
    assert_eq!(cpu.regs[2], 0xABCD);
}

#[test]
fn privileged_out_traps_without_effect() {
    let mut mem = HostMemory::new(1);
    let pt = one_frame_pt(&mut mem);
    let prog = [Instr::Movi(0, 65), Instr::Out(1, 0)];
    let mut cpu = VCpu::new();
    assert_eq!(cpu.step(&prog, &pt, &mut mem), StepResult::Continue);
    let r = cpu.step(&prog, &pt, &mut mem);
    assert_eq!(r, StepResult::Exit(ExitReason::DeviceIo { port: 1, value: 65 }));
    // The trap advanced pc past the Out so the hypervisor resumes after it,
    // and no retired count was charged for the trapped instruction.
    assert_eq!(cpu.pc, 2);
    assert_eq!(cpu.retired, 1);
}

#[test]
fn unmapped_access_faults_at_instruction() {
    let mut mem = HostMemory::new(1);
    let pt = one_frame_pt(&mut mem);
    // gpa 100 lives in an unmapped page.
    let prog = [Instr::Movi(0, 100), Instr::Load(1, 0)];
    let mut cpu = VCpu::new();
    assert_eq!(cpu.step(&prog, &pt, &mut mem), StepResult::Continue);
    let r = cpu.step(&prog, &pt, &mut mem);
    match r {
        StepResult::Exit(ExitReason::MemFault { gpa, access, .. }) => {
            assert_eq!(gpa, 100);
            assert_eq!(access, MemAccess::Read);
        }
        other => panic!("expected mem fault, got {other:?}"),
    }
    // pc stayed on the faulting Load.
    assert_eq!(cpu.pc, 1);
}

#[test]
fn halt_exits_and_sticks() {
    let mut mem = HostMemory::new(1);
    let pt = one_frame_pt(&mut mem);
    let prog = [Instr::Halt];
    let mut cpu = VCpu::new();
    assert_eq!(cpu.step(&prog, &pt, &mut mem), StepResult::Exit(ExitReason::Halt));
    assert!(cpu.halted);
    assert_eq!(cpu.step(&prog, &pt, &mut mem), StepResult::Exit(ExitReason::Halt));
}

#[test]
fn arithmetic_wraps() {
    let mut mem = HostMemory::new(1);
    let pt = one_frame_pt(&mut mem);
    let prog = [
        Instr::Movi(0, u64::MAX),
        Instr::Movi(1, 2),
        Instr::Add(2, 0, 1),
        Instr::Sub(3, 1, 0),
        Instr::Addi(4, 0, 1),
        Instr::Mov(7, 3),
    ];
    let mut cpu = VCpu::default();
    for _ in 0..prog.len() {
        assert_eq!(cpu.step(&prog, &pt, &mut mem), StepResult::Continue);
    }
    assert_eq!(cpu.regs, [u64::MAX, 2, 1, 3, 0, 0, 0, 3]);
}

#[test]
fn branches() {
    let mut mem = HostMemory::new(1);
    let pt = one_frame_pt(&mut mem);
    let prog = [
        Instr::Jz(0, 2),
        Instr::Halt,
        Instr::Movi(0, 1),
        Instr::Jz(0, 1),
        Instr::Jmp(9),
    ];
    let mut cpu = VCpu::new();
    let mut pcs = Vec::new();
    for _ in 0..4 {
        assert_eq!(cpu.step(&prog, &pt, &mut mem), StepResult::Continue);
        pcs.push(cpu.pc);
    }
    assert_eq!(pcs, vec![2, 3, 4, 9]);
    // The jump left the program.
    assert_eq!(cpu.step(&prog, &pt, &mut mem), StepResult::Exit(ExitReason::EndOfProgram));
    assert!(cpu.halted);
    assert_eq!(cpu.step(&prog, &pt, &mut mem), StepResult::Exit(ExitReason::Halt));
    assert_eq!(cpu.retired, 4);
}

#[test]
fn malformed_operands_are_invalid_operations() {
    let bad = [
        Instr::Movi(8, 0),
        Instr::Mov(0, 8),
        Instr::Mov(8, 0),
        Instr::Add(0, 0, 8),
        Instr::Sub(0, 8, 0),
        Instr::Addi(8, 0, 1),
        Instr::Load(0, 8),
        Instr::Store(8, 0),
        Instr::Jz(8, 0),
        Instr::Out(0, 8),
        Instr::SetCr(4, 0),
        Instr::SetCr(0, 8),
        Instr::Movi(usize::MAX, 0),
    ];
    for instr in bad {
        assert!(!instr.operands_in_range());
        let mut mem = HostMemory::new(1);
        let pt = one_frame_pt(&mut mem);
        let prog = [Instr::Movi(0, 5), instr];
        let mut cpu = VCpu::new();
        assert_eq!(cpu.step(&prog, &pt, &mut mem), StepResult::Continue);
        let regs = cpu.regs;
        assert_eq!(
            cpu.step(&prog, &pt, &mut mem),
            StepResult::Exit(ExitReason::InvalidOp { pc: 1 })
        );
        assert_eq!((cpu.pc, cpu.retired, cpu.halted), (1, 1, false));
        assert_eq!((cpu.regs, cpu.cr), (regs, [0; 4]));
    }
    let good = [
        Instr::Movi(7, 0),
        Instr::Mov(7, 7),
        Instr::Add(7, 7, 7),
        Instr::Sub(7, 7, 7),
        Instr::Addi(7, 7, 1),
        Instr::Load(7, 7),
        Instr::Store(7, 7),
        Instr::Jz(7, usize::MAX),
        Instr::Jmp(usize::MAX),
        Instr::Out(u16::MAX, 7),
        Instr::SetCr(3, 7),
        Instr::Halt,
    ];
    for instr in good {
        assert!(instr.operands_in_range());
        assert_eq!(instr.is_privileged(), matches!(instr, Instr::Out(..) | Instr::SetCr(..)));
    }
}

#[test]
fn read_only_store_faults_without_a_trace() {
    let mut mem = HostMemory::new(1);
    let hfn = mem.alloc_frame();
    let mut pt = PageTable::new();
    pt.map(0, hfn, Perm::ro());
    let prog = [Instr::Movi(0, 3), Instr::Store(0, 0), Instr::Halt];
    let mut cpu = VCpu::new();
    assert_eq!(cpu.step(&prog, &pt, &mut mem), StepResult::Continue);
    assert_eq!(
        cpu.step(&prog, &pt, &mut mem),
        StepResult::Exit(ExitReason::MemFault {
            gpa: 3,
            access: MemAccess::Write,
            kind: FaultKind::Protection,
        })
    );
    assert_eq!((cpu.pc, cpu.retired), (1, 1));
    assert_eq!(mem.read_word(hfn, 3), 0);
}

#[test]
fn control_register_write_traps_without_effect() {
    let mut mem = HostMemory::new(1);
    let pt = one_frame_pt(&mut mem);
    let prog = [Instr::Movi(5, 77), Instr::SetCr(3, 5)];
    let mut cpu = VCpu::new();
    assert_eq!(cpu.step(&prog, &pt, &mut mem), StepResult::Continue);
    assert_eq!(
        cpu.step(&prog, &pt, &mut mem),
        StepResult::Exit(ExitReason::SetControlReg { cr: 3, value: 77 })
    );
    assert_eq!(cpu.cr, [0; 4]);
    assert_eq!(cpu.pc, 2);
}

#[test]
fn faults_convert() {
    assert_eq!(FaultKind::from(PhysFault::Unmapped), FaultKind::Unmapped);
    assert_eq!(FaultKind::from(PhysFault::Protection), FaultKind::Protection);
}
