# Nesthost

Nesthost is a deterministic type-1 hypervisor simulator whose behaviour is stated
in contracts and proved with Verus. It runs several guest virtual machines on one
small emulated CPU and models the jobs a virtual machine monitor performs:

- vCPU scheduling: a deterministic round robin with a round budget.
- Memory virtualization: a second level page table per guest.
- Trap and emulate: privileged instructions never execute in guest context.
- A shared device: a memory ring that the host drains only on a doorbell trap.

It is a teaching accurate model, not a real VMM. There is no hardware, no ring
transition, and no host kernel.

## Layout

- `src/cpu.rs`, `src/mem.rs`, `src/device.rs`, `src/guest.rs`,
  `src/hypervisor.rs`, `src/rng.rs`: the executable machine. Each type has a
  mathematical model as its view, and each contract says what becomes of it.
- `src/machine.rs`: what a turn, a slice, a round and a run do, as functions of the
  machine's model.
- `src/demo.rs`: the guest programs and the machine of the demonstration.
- `src/text.rs`: decoding of device output and decimal printing.
- `src/laws/`: what holds of every step, slice and run.
- `tests/`: the machine at work on concrete values.
- `app/`: the command line program.

## What is proved

- `laws/memory.rs`, `laws/stepping.rs`: translation reaches only mapped frames, a
  step reads and writes only through it, privileged instructions trap, malformed
  ones fault.
- `laws/isolation.rs`: setting up and running keep frames disjoint, a slice changes
  only what its guest may change, and frames are handed out zeroed.
- `laws/alike.rs`, `laws/independence.rs`: a slice leaves the neighbors untouched, and
  what becomes of a guest, its exits included, depends only on what is its own,
  whoever its neighbors are and wherever its memory lies.
- `laws/emulation.rs`: the exit log alone explains every console, control register
  and lifecycle state.
- `laws/scheduling.rs`, `laws/slicing.rs`: runs are bounded and can be split, rounds
  are fair, and time slicing does not change what a guest computes.
- `laws/ring.rs`: a drain is clamped, capped, exact, and waits for the doorbell.
- `laws/programs.rs`: the demonstration programs do what they say, among any
  neighbors.
- `laws/random.rs`: the generator is determined by its seed, and different seeds
  differ in every draw.

A step or a run has no outcome only where an access leaves host memory or a count
would leave its machine word. `MachineModel::ready` says when a run has one
whatever the guests do.

## What is trusted

Two functions of the standard library: `String::from_utf8_lossy` (in `src/text.rs`)
and `String::from` of a string slice (in `src/guest.rs`).
