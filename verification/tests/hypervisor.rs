//! The hypervisor: guests, scheduling and logs.
use nesthost::hypervisor::{ExitRecord, Hypervisor, ScheduleTick, RING_MAX_KEEP};
use nesthost::cpu::{ExitReason, FaultKind, Instr, MemAccess};
use nesthost::demo::ring_program;
use nesthost::device::{SharedRing, RING_DOORBELL_PORT};
use nesthost::guest::GuestState;
use nesthost::mem::{Perm, PAGE_WORDS};

fn print_prog(byte: u64) -> Vec<Instr> {
    vec![Instr::Movi(0, byte), Instr::Out(0, 0), Instr::Halt]
}

#[test]
fn two_guests_have_disjoint_frames() {
    let mut hv = Hypervisor::new(16, 8);
    hv.add_guest("a", print_prog(65), 2, Perm::rw());
    hv.add_guest("b", print_prog(66), 2, Perm::rw());
    let a: std::collections::BTreeSet<u64> =
        hv.guest(0).page_table.mapped_frames().into_iter().collect();
    let b: std::collections::BTreeSet<u64> =
        hv.guest(1).page_table.mapped_frames().into_iter().collect();
    assert!(a.is_disjoint(&b));
}

#[test]
fn run_produces_isolated_output_and_exits() {
    let mut hv = Hypervisor::new(16, 8);
    hv.add_guest("a", print_prog(u64::from(b'A')), 2, Perm::rw());
    hv.add_guest("b", print_prog(u64::from(b'B')), 2, Perm::rw());
    hv.run();
    assert_eq!(hv.guest(0).console.as_string(), "A");
    assert_eq!(hv.guest(1).console.as_string(), "B");
    // Each guest took exactly one device IO exit and one halt exit.
    assert_eq!(hv.guest(0).io_exits, 1);
    assert_eq!(hv.guest(1).io_exits, 1);
    assert!(hv.vm_exits() >= 4);
    assert!(hv.vm_entries() >= 2);
}

#[test]
fn determinism_same_config_same_logs() {
    let build = || {
        let mut hv = Hypervisor::new(16, 3);
        hv.add_guest("a", print_prog(u64::from(b'A')), 2, Perm::rw());
        hv.add_guest("b", print_prog(u64::from(b'B')), 2, Perm::rw());
        hv.run();
        hv
    };
    let x = build();
    let y = build();
    assert_eq!(x.schedule, y.schedule);
    assert_eq!(x.exits, y.exits);
    assert_eq!(x.guest(0).console.bytes(), y.guest(0).console.bytes());
    assert_eq!(x.guest(1).console.bytes(), y.guest(1).console.bytes());
}

#[test]
fn memory_map_text() {
    let mut hv = Hypervisor::new(2000, 8);
    assert_eq!(hv.memory_map(), "");
    hv.add_guest("a", vec![], 1, Perm::rw());
    hv.add_guest(String::from("b c"), vec![], 0, Perm::rw());
    let g = hv.add_guest("d", vec![], 1, Perm::ro());
    hv.share_frame(g, 1234, 1999, Perm { read: false, write: true });
    hv.share_frame(g, 99, 100, Perm { read: false, write: false });
    assert_eq!(
        hv.memory_map(),
        "guest 0 \"a\" GPA -> HPA\n  gpn   0 -> hfn   0  [rw]\n\
         guest 1 \"b c\" GPA -> HPA\n\
         guest 2 \"d\" GPA -> HPA\n  gpn   0 -> hfn   1  [ro]\n\
         \x20 gpn  99 -> hfn 100  [--]\n  gpn 1234 -> hfn 1999  [--]\n"
    );
}

#[test]
fn guests_are_named_and_numbered() {
    let mut hv = Hypervisor::new(4, 8);
    assert_eq!(hv.add_guest("first", vec![], 1, Perm::rw()), 0);
    assert_eq!(hv.add_guest(String::from("second"), vec![], 1, Perm::rw()), 1);
    assert_eq!(hv.guest(0).name, "first");
    assert_eq!(hv.guest(1).name, "second");
    assert_eq!(hv.guest(1).id, 1);
    assert!(hv.guest(1).is_runnable());
    assert_eq!(hv.guest(1).program, vec![]);
}

#[test]
fn exits_and_schedule_are_recorded() {
    let mut hv = Hypervisor::new(4, 2);
    hv.add_guest(
        "a",
        vec![Instr::Movi(0, 65), Instr::Out(0, 0), Instr::SetCr(1, 0), Instr::Jmp(9)],
        1,
        Perm::rw(),
    );
    hv.add_guest("b", vec![Instr::Load(0, 8)], 1, Perm::rw());
    assert_eq!(hv.run(), 2);
    assert!(!hv.budget_exhausted());
    let exit = |tick, guest_id, pc, reason| ExitRecord { tick, guest_id, pc, reason };
    assert_eq!(
        hv.exits,
        vec![
            exit(1, 0, 1, ExitReason::DeviceIo { port: 0, value: 65 }),
            exit(2, 0, 2, ExitReason::SetControlReg { cr: 1, value: 65 }),
            exit(3, 1, 0, ExitReason::InvalidOp { pc: 0 }),
            exit(4, 0, 9, ExitReason::EndOfProgram),
        ]
    );
    let slice = |tick, guest_id, instructions_run| ScheduleTick { tick, guest_id, instructions_run };
    assert_eq!(hv.schedule, vec![slice(0, 0, 2), slice(2, 1, 0), slice(3, 0, 0)]);
    assert_eq!((hv.vm_entries(), hv.vm_exits()), (3, 4));
    let a = hv.guest(0);
    assert_eq!((a.state, a.io_exits, a.cr_exits, a.fault_exits), (GuestState::Halted, 1, 1, 0));
    assert_eq!(a.vcpu.cr, [0, 65, 0, 0]);
    let b = hv.guest(1);
    assert_eq!((b.state, b.io_exits, b.cr_exits, b.fault_exits), (GuestState::Faulted, 0, 0, 1));
}

#[test]
fn finished_run_is_complete() {
    let mut hv = Hypervisor::new(4, 8);
    hv.add_guest("a", print_prog(65), 1, Perm::rw());
    assert_eq!(hv.run(), 1);
    let (exits, schedule) = (hv.exits.clone(), hv.schedule.clone());
    assert_eq!(hv.run(), 0);
    assert!(!hv.budget_exhausted());
    assert_eq!((hv.exits.clone(), hv.schedule.clone()), (exits, schedule));
    assert_eq!(hv.guest(0).console.as_string(), "A");
    // A machine without guests has nothing to run either.
    assert_eq!(Hypervisor::new(0, 1).run(), 0);
}

#[test]
fn budget_counts_rounds() {
    // The guest halts in its second round.
    let program = vec![Instr::Movi(0, 1), Instr::Halt];
    for (budget, rounds, exhausted, state) in [
        (1, 1, true, GuestState::Running),
        (2, 2, false, GuestState::Halted),
        (3, 2, false, GuestState::Halted),
    ] {
        let mut hv = Hypervisor::new(1, 1);
        hv.add_guest("a", program.clone(), 1, Perm::rw());
        hv.set_max_rounds(budget);
        assert_eq!(hv.run(), rounds);
        assert_eq!(hv.budget_exhausted(), exhausted);
        assert_eq!(hv.guest(0).state, state);
    }
}

#[test]
fn interrupted_run_resumes() {
    let mut hv = Hypervisor::new(1, 1);
    hv.add_guest("a", vec![Instr::Movi(0, 66), Instr::Out(0, 0), Instr::Halt], 1, Perm::rw());
    hv.set_max_rounds(1);
    assert_eq!(hv.run(), 1);
    assert!(hv.budget_exhausted());
    assert_eq!(hv.guest(0).console.as_string(), "");
    hv.set_max_rounds(10);
    assert_eq!(hv.run(), 1);
    assert!(!hv.budget_exhausted());
    assert_eq!(hv.guest(0).console.as_string(), "B");
}

#[test]
fn each_guest_retires_at_most_a_quantum_per_round() {
    let mut hv = Hypervisor::new(2, 5);
    hv.add_guest("spin", vec![Instr::Jmp(0)], 1, Perm::rw());
    hv.add_guest("spin too", vec![Instr::Movi(0, 1), Instr::Jmp(0)], 1, Perm::rw());
    hv.set_max_rounds(7);
    assert_eq!(hv.run(), 7);
    assert_eq!(hv.guest(0).vcpu.retired, 35);
    assert_eq!(hv.guest(1).vcpu.retired, 35);
    let order: Vec<u32> = hv.schedule.iter().map(|s| s.guest_id).collect();
    assert_eq!(order, vec![0, 1, 0, 1, 0, 1, 0, 1, 0, 1, 0, 1, 0, 1]);
    assert!(hv.schedule.iter().all(|s| s.instructions_run == 5));
}

#[test]
fn shared_frame_is_reached_only_where_it_is_mapped() {
    let mut hv = Hypervisor::new(3, 8);
    let writer = hv.add_guest(
        "writer",
        vec![Instr::Movi(0, 42), Instr::Movi(1, 5), Instr::Store(1, 0), Instr::Halt],
        1,
        Perm::rw(),
    );
    let reader = hv.add_guest(
        "reader",
        vec![Instr::Movi(1, 21), Instr::Load(0, 1), Instr::Out(0, 0), Instr::Store(1, 0)],
        1,
        Perm::rw(),
    );
    let shared = hv.guest(writer).page_table.host_frame(0).unwrap();
    hv.share_frame(reader, 1, shared, Perm::ro());
    hv.run();
    assert_eq!(hv.guest(reader).console.as_string(), "*");
    assert_eq!(hv.guest(reader).state, GuestState::Faulted);
    assert_eq!(
        hv.exits.last().unwrap().reason,
        ExitReason::MemFault {
            gpa: 21,
            access: MemAccess::Write,
            kind: FaultKind::Protection,
        }
    );
    assert_eq!(hv.host_mem.read_word(shared, 5), 42);
}

#[test]
fn doorbell_drains_only_its_own_guests_ring() {
    // Guest 0 publishes one word but never rings; guest 1 rings an empty ring.
    let head = PAGE_WORDS + SharedRing::HEAD;
    let mut hv = Hypervisor::new(4, 8);
    let quiet = hv.add_guest(
        "quiet",
        vec![Instr::Movi(0, 1), Instr::Movi(1, head), Instr::Store(1, 0), Instr::Halt],
        1,
        Perm::rw(),
    );
    let loud = hv.add_guest(
        "loud",
        vec![Instr::Out(RING_DOORBELL_PORT, 0), Instr::Halt],
        1,
        Perm::rw(),
    );
    let frame = hv.attach_ring(quiet, 1);
    hv.attach_ring(loud, 1);
    hv.run();
    assert!(hv.ring(quiet).unwrap().received().is_empty());
    assert!(hv.ring(loud).unwrap().received().is_empty());
    assert!(hv.ring(2).is_none());
    assert_eq!(hv.host_mem.read_word(frame, SharedRing::HEAD), 1);
    assert_eq!(hv.host_mem.read_word(frame, SharedRing::TAIL), 0);
    assert_eq!(hv.guest(loud).io_exits, 1);
    assert_eq!(hv.guest(loud).console.as_string(), "");
}

#[test]
fn doorbell_without_a_ring_is_ignored() {
    let mut hv = Hypervisor::new(1, 8);
    hv.add_guest("a", vec![Instr::Out(RING_DOORBELL_PORT, 0), Instr::Halt], 1, Perm::rw());
    hv.run();
    assert_eq!(hv.guest(0).io_exits, 1);
    assert_eq!(hv.guest(0).console.as_string(), "");
    assert_eq!(hv.guest(0).state, GuestState::Halted);
}

#[test]
fn each_guest_has_at_most_one_ring() {
    let mut hv = Hypervisor::new(8, 16);
    for _ in 0..3 {
        let g = hv.add_guest("a", ring_program("x"), 1, Perm::rw());
        assert!(hv.ring(g).is_none());
        let hfn = hv.attach_ring(g, 1);
        assert_eq!(hv.ring(g).unwrap().guest_id, g);
        assert_eq!(hv.ring(g).unwrap().hfn, hfn);
    }
    hv.run();
    let owners: Vec<u32> = hv.rings.iter().map(|r| r.guest_id).collect();
    assert_eq!(owners, vec![0, 1, 2]);
    assert!(hv.rings.iter().all(|r| r.received_string() == "x"));
}

#[test]
fn exits_are_accounted_for() {
    let mut hv = Hypervisor::new(8, 3);
    hv.add_guest("a", print_prog(65), 1, Perm::rw());
    hv.add_guest("b", vec![Instr::SetCr(0, 0), Instr::Movi(9, 0)], 1, Perm::rw());
    hv.add_guest("c", vec![], 1, Perm::rw());
    hv.add_guest("d", vec![Instr::Out(1, 0), Instr::Jmp(0)], 1, Perm::rw());
    hv.set_max_rounds(5);
    hv.run();
    let taken: u64 = hv
        .guests
        .iter()
        .map(|g| {
            g.io_exits + g.cr_exits + g.fault_exits + u64::from(g.state == GuestState::Halted)
        })
        .sum();
    assert_eq!(hv.vm_exits(), taken);
    for (k, exit) in hv.exits.iter().enumerate() {
        assert_eq!(exit.tick, k as u64 + 1);
    }
    for g in &hv.guests {
        assert_eq!(g.fault_exits, u64::from(g.state == GuestState::Faulted));
    }
    assert_eq!(hv.vm_entries(), hv.schedule.len() as u64);
}

/// Three guests that halt, fault and spin.
fn mixed_machine() -> Hypervisor {
    let mut hv = Hypervisor::new(8, 2);
    hv.add_guest("a", print_prog(65), 1, Perm::rw());
    hv.add_guest("spin", vec![Instr::Out(0, 0), Instr::Jmp(0)], 1, Perm::rw());
    hv.add_guest(
        "c",
        vec![Instr::Movi(0, 1), Instr::Movi(1, 2), Instr::Movi(2, 3), Instr::Load(0, 9)],
        1,
        Perm::rw(),
    );
    hv
}

#[test]
fn schedule_of_a_run() {
    let mut hv = mixed_machine();
    hv.set_max_rounds(4);
    assert_eq!(hv.run(), 4);
    let ids: Vec<u32> = hv.schedule.iter().map(|s| s.guest_id).collect();
    assert_eq!(ids, vec![0, 1, 2, 1, 2, 1, 1]);
    // A later run enters only the guest that is still runnable, once per round.
    hv.set_max_rounds(3);
    assert_eq!(hv.run(), 3);
    let later: Vec<u32> = hv.schedule[7..].iter().map(|s| s.guest_id).collect();
    assert_eq!(later, vec![1, 1, 1]);
}

#[test]
fn a_run_can_be_split() {
    for (first, second) in [(1, 1), (1, 5), (2, 3), (4, 2)] {
        let mut whole = mixed_machine();
        whole.set_max_rounds(first + second);
        let rounds = whole.run();
        let mut split = mixed_machine();
        split.set_max_rounds(first);
        let mut taken = split.run();
        split.set_max_rounds(second);
        taken += split.run();
        assert_eq!(taken, rounds);
        assert_eq!(split.exits, whole.exits);
        assert_eq!(split.schedule, whole.schedule);
        assert_eq!(split.budget_exhausted(), whole.budget_exhausted());
        assert_eq!(format!("{:?}", split.guests), format!("{:?}", whole.guests));
        assert_eq!(format!("{:?}", split.host_mem), format!("{:?}", whole.host_mem));
    }
}

#[test]
fn stopping_in_the_last_round_is_finishing() {
    let mut hv = Hypervisor::new(1, 4);
    hv.add_guest("h", vec![Instr::Halt], 1, Perm::rw());
    hv.set_max_rounds(1);
    assert_eq!(hv.run(), 1);
    assert_eq!(hv.guest(0).state, GuestState::Halted);
    assert!(!hv.budget_exhausted());
}

#[test]
fn retained_payload_is_capped_in_a_run() {
    // Publish the full ring and ring the doorbell, over and over.
    let head = PAGE_WORDS + SharedRing::HEAD;
    let program = vec![
        Instr::Movi(1, head),
        Instr::Addi(0, 0, SharedRing::CAP),
        Instr::Store(1, 0),
        Instr::Out(RING_DOORBELL_PORT, 0),
        Instr::Jmp(1),
    ];
    let mut hv = Hypervisor::new(2, 30);
    let g = hv.add_guest("a", program, 1, Perm::rw());
    hv.attach_ring(g, 1);
    hv.set_max_rounds(40);
    hv.run();
    assert!(hv.guest(g).io_exits > 300);
    assert_eq!(hv.ring(g).unwrap().received().len(), RING_MAX_KEEP);
}
