//! The demonstration machine and the guest programs it boots.
use crate::cpu::Instr;
use crate::device::{SharedRing, RING_DOORBELL_PORT};
use crate::hypervisor::Hypervisor;
use crate::machine::MachineModel;
use crate::mem::{Perm, PAGE_WORDS};
use vstd::prelude::*;

verus! {

/// Instructions that store `bytes` at the guest physical addresses from `base`
/// up: three instructions per byte.
pub open spec fn store_code(base: nat, bytes: Seq<u8>) -> Seq<Instr>
    decreases bytes.len(),
{
    if bytes.len() == 0 {
        Seq::empty()
    } else {
        store_code(base, bytes.drop_last()) + seq![
            Instr::Movi(0, bytes.last() as u64),
            Instr::Movi(1, (base + bytes.len() - 1) as u64),
            Instr::Store(1, 0),
        ]
    }
}

/// Instructions that print the words from guest physical address 0 up until one
/// is zero. The first of them stands at program index `start`.
pub open spec fn print_code(start: nat) -> Seq<Instr> {
    seq![
        Instr::Movi(1, 0),
        Instr::Load(0, 1),
        Instr::Jz(0, (start + 6) as usize),
        Instr::Out(0, 0),
        Instr::Addi(1, 1, 1),
        Instr::Jmp((start + 1) as usize),
        Instr::Halt,
    ]
}

/// Instructions that publish `count` ring entries through the head word at guest
/// physical address `head`, ring the doorbell, and halt.
pub open spec fn publish_code(head: u64, count: u64) -> Seq<Instr> {
    seq![
        Instr::Movi(0, count),
        Instr::Movi(1, head),
        Instr::Store(1, 0),
        Instr::Movi(0, 0),
        Instr::Out(RING_DOORBELL_PORT, 0),
        Instr::Halt,
    ]
}

/// The program of [`print_program`] for text with these bytes.
pub open spec fn print_program_code(bytes: Seq<u8>) -> Seq<Instr> {
    store_code(0, bytes) + print_code(3 * bytes.len())
}

/// The program of [`ring_program`] for text with these bytes.
pub open spec fn ring_program_code(bytes: Seq<u8>) -> Seq<Instr> {
    store_code((PAGE_WORDS + SharedRing::FIRST_SLOT) as nat, bytes) + publish_code(
        (PAGE_WORDS + SharedRing::HEAD) as u64,
        bytes.len() as u64,
    )
}

/// The program of [`out_of_bounds_program`].
pub open spec fn out_of_bounds_code() -> Seq<Instr> {
    seq![
        Instr::Movi(0, 42),
        Instr::Movi(1, 4),
        Instr::Store(1, 0),
        Instr::Movi(1, 9999),
        Instr::Load(0, 1),
        Instr::Halt,
    ]
}

/// Append code that stores `bytes` at the guest physical addresses from `base` up.
fn push_stores(program: &mut Vec<Instr>, base: u64, bytes: &[u8])
    requires
        base <= u64::MAX / 2,
    ensures
        final(program)@ == old(program)@ + store_code(base as nat, bytes@),
{
    let mut i: usize = 0;
    assert(bytes@.take(0) =~= Seq::empty());
    assert(program@ =~= old(program)@ + store_code(base as nat, bytes@.take(0)));
    while i < bytes.len()
        invariant
            i <= bytes.len(),
            base <= u64::MAX / 2,
            program@.len() == old(program)@.len() + 3 * i,
            program@ == old(program)@ + store_code(base as nat, bytes@.take(i as int)),
        decreases bytes.len() - i,
    {
        let byte: u8 = bytes[i];
        // The program has to fit in memory, so the address cannot wrap.
        assert(3 * i <= program.len());
        program.push(Instr::Movi(0, byte as u64));
        program.push(Instr::Movi(1, base + i as u64));
        program.push(Instr::Store(1, 0));
        proof {
            let next = bytes@.take(i + 1);
            assert(next.drop_last() =~= bytes@.take(i as int));
            assert(next.last() == byte);
            assert(program@ =~= old(program)@ + store_code(base as nat, next));
        }
        i = i + 1;
    }
    assert(bytes@.take(i as int) =~= bytes@);
}

/// Storing takes three instructions per byte, with operands in range.
pub proof fn lemma_store_code(base: nat, bytes: Seq<u8>)
    ensures
        store_code(base, bytes).len() == 3 * bytes.len(),
        forall|i: int|
            0 <= i < 3 * bytes.len() ==> (#[trigger] store_code(base, bytes)[i]).in_range(),
    decreases bytes.len(),
{
    if bytes.len() > 0 {
        lemma_store_code(base, bytes.drop_last());
    }
}

/// Law: the printing program takes three instructions per byte and seven more, the ring
/// program three per byte and six more, and all their operands are in range.
pub proof fn law_programs_are_well_formed(bytes: Seq<u8>)
    ensures
        print_program_code(bytes).len() == 3 * bytes.len() + 7,
        ring_program_code(bytes).len() == 3 * bytes.len() + 6,
        forall|i: int|
            0 <= i < print_program_code(bytes).len() ==> (#[trigger] print_program_code(
                bytes,
            )[i]).in_range(),
        forall|i: int|
            0 <= i < ring_program_code(bytes).len() ==> (#[trigger] ring_program_code(
                bytes,
            )[i]).in_range(),
{
    lemma_store_code(0, bytes);
    lemma_store_code((PAGE_WORDS + SharedRing::FIRST_SLOT) as nat, bytes);
}

/// Law: what the programs hold, place by place. Each byte takes three instructions: one
/// puts the byte into the first register, one its address into the second, and one stores
/// it. The printing program then walks the addresses from 0 up and prints each word until
/// one is zero. The ring program then stores the number of bytes at the head, rings the
/// doorbell, and halts.
pub proof fn law_program_listing(bytes: Seq<u8>, i: int)
    requires
        3 * bytes.len() + 7 <= usize::MAX,
    ensures
        ({
            let code = print_program_code(bytes);
            let n = 3 * bytes.len() as int;
            &&& 0 <= i < bytes.len() ==> {
                &&& code[3 * i] matches Instr::Movi(rd, imm) && rd == 0 && imm == bytes[i]
                &&& code[3 * i + 1] matches Instr::Movi(rd, imm) && rd == 1 && imm == i
                &&& code[3 * i + 2] == Instr::Store(1, 0)
            }
            &&& code[n] == Instr::Movi(1, 0)
            &&& code[n + 1] == Instr::Load(0, 1)
            &&& code[n + 2] matches Instr::Jz(rs, target) && rs == 0 && target == n + 6
            &&& code[n + 3] == Instr::Out(0, 0)
            &&& code[n + 4] == Instr::Addi(1, 1, 1)
            &&& code[n + 5] matches Instr::Jmp(target) && target == n + 1
            &&& code[n + 6] == Instr::Halt
        }),
        ({
            let code = ring_program_code(bytes);
            let n = 3 * bytes.len() as int;
            &&& 0 <= i < bytes.len() ==> {
                &&& code[3 * i] matches Instr::Movi(rd, imm) && rd == 0 && imm == bytes[i]
                &&& code[3 * i + 1] matches Instr::Movi(rd, imm) && rd == 1 && imm == 18 + i
                &&& code[3 * i + 2] == Instr::Store(1, 0)
            }
            &&& code[n] matches Instr::Movi(rd, imm) && rd == 0 && imm == bytes.len()
            &&& code[n + 1] == Instr::Movi(1, 16)
            &&& code[n + 2] == Instr::Store(1, 0)
            &&& code[n + 3] == Instr::Movi(0, 0)
            &&& code[n + 4] == Instr::Out(0xD0, 0)
            &&& code[n + 5] == Instr::Halt
        }),
{
    lemma_store_code(0, bytes);
    lemma_store_code(18, bytes);
    if 0 <= i < bytes.len() {
        lemma_store_listing(0, bytes, i);
        lemma_store_listing(18, bytes, i);
    }
}

proof fn lemma_store_listing(base: nat, bytes: Seq<u8>, i: int)
    requires
        0 <= i < bytes.len(),
        base + bytes.len() <= u64::MAX,
    ensures
        ({
            let code = store_code(base, bytes);
            &&& code[3 * i] matches Instr::Movi(rd, imm) && rd == 0 && imm == bytes[i]
            &&& code[3 * i + 1] matches Instr::Movi(rd, imm) && rd == 1 && imm == base + i
            &&& code[3 * i + 2] == Instr::Store(1, 0)
        }),
    decreases bytes.len(),
{
    let rest = bytes.drop_last();
    lemma_store_code(base, rest);
    if i < rest.len() {
        lemma_store_listing(base, rest, i);
    }
}

/// Build a program that writes `text` into the guest's own physical memory, then
/// reads it back byte by byte and prints each byte through the privileged device
/// IO instruction. The trailing zero that ends the print loop comes for free
/// because guest frames start zeroed.
///
/// Registers used: r0 scratch/char, r1 pointer.
#[must_use]
pub fn print_program(text: &str) -> (program: Vec<Instr>)
    ensures
        program@ == print_program_code(vstd::utf8::encode_utf8(text@)),
        program@.len() == 3 * vstd::utf8::encode_utf8(text@).len() + 7,
        forall|i: int| 0 <= i < program@.len() ==> (#[trigger] program@[i]).in_range(),
{
    let bytes = text.as_bytes();
    let mut program: Vec<Instr> = Vec::new();
    push_stores(&mut program, 0, bytes);
    proof {
        lemma_store_code(0, bytes@);
    }
    program.push(Instr::Movi(1, 0)); // pointer = 0
    let loop_start: usize = program.len();
    program.push(Instr::Load(0, 1)); // r0 = mem[ptr]
    let jz_index: usize = program.len();
    program.push(Instr::Jz(0, 0)); // to the end, patched below
    program.push(Instr::Out(0, 0)); // privileged: traps to hypervisor
    program.push(Instr::Addi(1, 1, 1)); // ptr += 1
    program.push(Instr::Jmp(loop_start));
    let end: usize = program.len();
    program.push(Instr::Halt);
    program[jz_index] = Instr::Jz(0, end);
    assert(program@ =~= print_program_code(bytes@));
    proof {
        law_programs_are_well_formed(bytes@);
    }
    program
}

/// A program that deliberately reaches outside its mapped address space to show
/// the second level translation fault the hypervisor reports.
#[must_use]
pub fn out_of_bounds_program() -> (program: Vec<Instr>)
    ensures
        program@ == out_of_bounds_code(),
        forall|i: int| 0 <= i < program@.len() ==> (#[trigger] program@[i]).in_range(),
{
    let program: Vec<Instr> = vec![
        Instr::Movi(0, 42),
        Instr::Movi(1, 4),
        Instr::Store(1, 0),  // legal write inside its own space
        Instr::Movi(1, 9999),  // an address in an unmapped page
        Instr::Load(0, 1),  // faults here, no leak
        Instr::Halt,
    ];
    assert(program@ =~= out_of_bounds_code());
    program
}

/// Build a guest that publishes `text` into its shared ring frame (mapped at
/// guest page 1) and rings the doorbell so the host drains it through trap and
/// emulate. Registers used: r0 value, r1 pointer.
#[must_use]
pub fn ring_program(text: &str) -> (program: Vec<Instr>)
    ensures
        program@ == ring_program_code(vstd::utf8::encode_utf8(text@)),
        program@.len() == 3 * vstd::utf8::encode_utf8(text@).len() + 6,
        forall|i: int| 0 <= i < program@.len() ==> (#[trigger] program@[i]).in_range(),
{
    let bytes = text.as_bytes();
    let base: u64 = PAGE_WORDS; // the ring frame is mapped at guest page 1
    let mut program: Vec<Instr> = Vec::new();
    push_stores(&mut program, base + SharedRing::FIRST_SLOT, bytes);
    // Publish: head = number of entries.
    program.push(Instr::Movi(0, bytes.len() as u64));
    program.push(Instr::Movi(1, base + SharedRing::HEAD));
    program.push(Instr::Store(1, 0));
    // Ring the doorbell (privileged, traps to the host).
    program.push(Instr::Movi(0, 0));
    program.push(Instr::Out(RING_DOORBELL_PORT, 0));
    program.push(Instr::Halt);
    assert(program@ =~= ring_program_code(bytes@));
    proof {
        law_programs_are_well_formed(bytes@);
    }
    program
}

/// The demonstration machine, before it runs: 16 host frames, a quantum of 4, two
/// printing guests, one that reaches out of its address space, and one that
/// talks to the host over a shared ring.
pub open spec fn demo_model() -> MachineModel {
    MachineModel::booted(16, 4).with_guest(
        "hello"@,
        print_program_code(vstd::utf8::encode_utf8("Hello"@)),
        2,
        Perm { read: true, write: true },
    ).with_guest(
        "world"@,
        print_program_code(vstd::utf8::encode_utf8("world!"@)),
        2,
        Perm { read: true, write: true },
    ).with_guest(
        "rogue"@,
        out_of_bounds_code(),
        1,
        Perm { read: true, write: true },
    ).with_guest(
        "ringer"@,
        ring_program_code(vstd::utf8::encode_utf8("ring!"@)),
        1,
        Perm { read: true, write: true },
    ).with_ring(3, 1)
}

/// Boot the demonstration machine. Returns it, ready to run, with the id of the
/// guest that owns the shared ring.
#[must_use]
pub fn demo_machine() -> (booted: (Hypervisor, u32))
    ensures
        booted.0@ == demo_model(),
        booted.0@.ready(),
        booted.1 == 3,
{
    // 16 frames of host physical memory, 4 instruction quantum so the two
    // printers visibly interleave.
    let mut hv = Hypervisor::new(16, 4);
    hv.add_guest("hello", print_program("Hello"), 2, Perm::rw());
    hv.add_guest("world", print_program("world!"), 2, Perm::rw());
    hv.add_guest("rogue", out_of_bounds_program(), 1, Perm::rw());
    // A guest that talks to the host over a shared memory ring. It owns one
    // private page and one page granted as the shared ring frame.
    let ringer: u32 = hv.add_guest("ringer", ring_program("ring!"), 1, Perm::rw());
    hv.attach_ring(ringer, 1);
    (hv, ringer)
}

} // verus!
