//! The demonstration programs and machine, and what time slicing leaves alone.
use nesthost::cpu::{ExitReason, FaultKind, Instr, MemAccess};
use nesthost::demo::{demo_machine, out_of_bounds_program, print_program, ring_program};
use nesthost::{GuestState, Hypervisor, Perm, RING_DOORBELL_PORT};

#[test]
fn print_program_text() {
    assert_eq!(
        print_program("Hi"),
        vec![
            Instr::Movi(0, 72),
            Instr::Movi(1, 0),
            Instr::Store(1, 0),
            Instr::Movi(0, 105),
            Instr::Movi(1, 1),
            Instr::Store(1, 0),
            Instr::Movi(1, 0),
            Instr::Load(0, 1),
            Instr::Jz(0, 12),
            Instr::Out(0, 0),
            Instr::Addi(1, 1, 1),
            Instr::Jmp(7),
            Instr::Halt,
        ]
    );
    assert_eq!(print_program("").len(), 7);
}

#[test]
fn programs_are_well_formed() {
    for text in ["", "a", "Hello", "caf\u{e9}"] {
        let print = print_program(text);
        let ring = ring_program(text);
        assert_eq!(print.len(), 3 * text.len() + 7);
        assert_eq!(ring.len(), 3 * text.len() + 6);
        assert!(print.iter().all(|i| i.operands_in_range()));
        assert!(ring.iter().all(|i| i.operands_in_range()));
    }
    assert!(out_of_bounds_program().iter().all(|i| i.operands_in_range()));
}

/// The exits of guest `id`: where each left the program, and why.
fn exits_of(hv: &Hypervisor, id: u32) -> Vec<(usize, ExitReason)> {
    hv.exits.iter().filter(|e| e.guest_id == id).map(|e| (e.pc, e.reason)).collect()
}

#[test]
fn a_guest_is_the_same_alone_and_among_neighbors() {
    let mut program = ring_program("to the host");
    program.pop();
    program.push(Instr::Movi(2, 7));
    program.push(Instr::SetCr(2, 2));
    program.push(Instr::Out(5, 1));
    program.push(Instr::Movi(3, 1000));
    program.push(Instr::Store(3, 2));

    let mut alone = Hypervisor::new(2, 3);
    let a = alone.add_guest("g", program.clone(), 1, Perm::rw());
    alone.attach_ring(a, 1);
    alone.run();

    let mut busy = Hypervisor::new(16, 3);
    busy.add_guest("noise", print_program("noise"), 2, Perm::rw());
    busy.add_guest("rogue", out_of_bounds_program(), 1, Perm::rw());
    let b = busy.add_guest("other name", program, 1, Perm::rw());
    let ringer = busy.add_guest("ringer", ring_program("mine"), 1, Perm::rw());
    busy.attach_ring(ringer, 1);
    busy.attach_ring(b, 1);
    busy.run();

    assert_ne!(a, b);
    let (x, y) = (alone.guest(a), busy.guest(b));
    assert_eq!(x.vcpu.regs, y.vcpu.regs);
    assert_eq!(x.vcpu.cr, y.vcpu.cr);
    assert_eq!((x.vcpu.pc, x.vcpu.halted, x.vcpu.retired), (y.vcpu.pc, y.vcpu.halted, y.vcpu.retired));
    assert_eq!(x.state, y.state);
    assert_eq!(x.console.bytes(), y.console.bytes());
    assert_eq!(
        (x.io_exits, x.cr_exits, x.fault_exits),
        (y.io_exits, y.cr_exits, y.fault_exits)
    );
    assert_eq!((x.io_exits, x.cr_exits, x.fault_exits), (2, 1, 1));
    assert_eq!(alone.ring(a).unwrap().received(), busy.ring(b).unwrap().received());
    assert_eq!(alone.ring(a).unwrap().received_string(), "to the host");
    assert_eq!(exits_of(&alone, a), exits_of(&busy, b));
    assert_eq!(exits_of(&alone, a).len(), 4);
}

#[test]
fn ring_program_text() {
    assert_eq!(
        ring_program("r"),
        vec![
            Instr::Movi(0, 114),
            Instr::Movi(1, 18),
            Instr::Store(1, 0),
            Instr::Movi(0, 1),
            Instr::Movi(1, 16),
            Instr::Store(1, 0),
            Instr::Movi(0, 0),
            Instr::Out(RING_DOORBELL_PORT, 0),
            Instr::Halt,
        ]
    );
}

#[test]
fn demo_runs_as_announced() {
    let (mut hv, ringer) = demo_machine();
    assert_eq!(ringer, 3);
    assert_eq!(
        hv.memory_map(),
        "guest 0 \"hello\" GPA -> HPA\n  gpn   0 -> hfn   0  [rw]\n  gpn   1 -> hfn   1  [rw]\n\
         guest 1 \"world\" GPA -> HPA\n  gpn   0 -> hfn   2  [rw]\n  gpn   1 -> hfn   3  [rw]\n\
         guest 2 \"rogue\" GPA -> HPA\n  gpn   0 -> hfn   4  [rw]\n\
         guest 3 \"ringer\" GPA -> HPA\n  gpn   0 -> hfn   5  [rw]\n  gpn   1 -> hfn   6  [rw]\n"
    );
    assert_eq!(hv.run(), 12);
    assert!(!hv.budget_exhausted());
    assert_eq!((hv.vm_entries(), hv.vm_exits()), (29, 16));
    let output: Vec<String> = hv.guests.iter().map(|g| g.console.as_string()).collect();
    assert_eq!(output, vec!["Hello", "world!", "", ""]);
    let states: Vec<GuestState> = hv.guests.iter().map(|g| g.state).collect();
    assert_eq!(
        states,
        vec![GuestState::Halted, GuestState::Halted, GuestState::Faulted, GuestState::Halted]
    );
    assert_eq!(hv.ring(ringer).unwrap().received_string(), "ring!");
    assert_eq!(hv.ring(ringer).unwrap().received().len(), 5);
    let fault = hv.exits.iter().find(|e| e.guest_id == 2).unwrap();
    assert_eq!(fault.pc, 4);
    assert_eq!(
        fault.reason,
        ExitReason::MemFault { gpa: 9999, access: MemAccess::Read, kind: FaultKind::Unmapped }
    );
}

#[test]
fn quantum_and_neighbors_do_not_show() {
    let text = "the same text";
    for quantum in [1, 2, 3, 4, 7, 100, 1000] {
        for neighbors in 0..3 {
            let mut hv = Hypervisor::new(16, quantum);
            for _ in 0..neighbors {
                hv.add_guest("noise", print_program("noise"), 1, Perm::rw());
            }
            hv.add_guest("rogue", out_of_bounds_program(), 1, Perm::rw());
            let id = hv.add_guest("printer", print_program(text), 1, Perm::rw());
            let ringer = hv.add_guest("ringer", ring_program("fourteen bytes"), 1, Perm::rw());
            hv.attach_ring(ringer, 1);
            hv.run();
            let g = hv.guest(id);
            assert_eq!(g.console.as_string(), text);
            assert_eq!(g.state, GuestState::Halted);
            assert_eq!(g.vcpu.retired, 7 * 13 + 3);
            assert_eq!((g.io_exits, g.fault_exits), (13, 0));
            assert_eq!(hv.ring(ringer).unwrap().received_string(), "fourteen bytes");
            assert_eq!(hv.guest(ringer).vcpu.retired, 3 * 14 + 4);
            assert_eq!(hv.guest(id - 1).state, GuestState::Faulted);
        }
    }
}

#[test]
fn printing_stops_at_a_zero_byte() {
    let mut hv = Hypervisor::new(1, 8);
    hv.add_guest("a", print_program("ab\0cd"), 1, Perm::rw());
    hv.run();
    assert_eq!(hv.guest(0).console.as_string(), "ab");
}

#[test]
fn neighbors_memory_is_untouched() {
    // Guest 0 writes all over its page; guest 1's frame keeps its words.
    let mut program = Vec::new();
    for gpa in 0..16 {
        program.push(Instr::Movi(1, gpa));
        program.push(Instr::Store(1, 1));
    }
    program.push(Instr::Movi(1, 16));
    program.push(Instr::Store(1, 1));
    let mut hv = Hypervisor::new(4, 3);
    let writer = hv.add_guest("writer", program, 1, Perm::rw());
    let victim = hv.add_guest("victim", vec![Instr::Halt], 1, Perm::rw());
    let frame = hv.guest(victim).page_table.host_frame(0).unwrap();
    for offset in 0..16 {
        hv.host_mem.write_word(frame, offset, 1000 + offset);
    }
    hv.run();
    assert_eq!(hv.guest(writer).state, GuestState::Faulted);
    for offset in 0..16 {
        assert_eq!(hv.host_mem.read_word(0, offset), offset);
        assert_eq!(hv.host_mem.read_word(frame, offset), 1000 + offset);
        // Frames that nobody was given stay zeroed.
        assert_eq!(hv.host_mem.read_word(2, offset), 0);
    }
}
