//! The hypervisor: frame allocation, the vCPU scheduler, and the trap and
//! emulate loop.
//!
//! The hypervisor owns host physical memory and every guest. It hands host
//! frames to guests (keeping the handouts disjoint so guests stay isolated),
//! time slices the single physical CPU across guest vCPUs with a deterministic
//! round robin, and services every VM exit. It is the only component that
//! touches device or control register state, which is what makes trap and
//! emulate unbypassable.
use crate::cpu::{ExitReason, Instr, StepResult};
use crate::device::{SharedRing, RING_DOORBELL_PORT};
use crate::guest::{Guest, GuestState};
use crate::machine::{MachineModel, SliceModel, Turn};
use crate::mem::{HostMemory, MemoryModel, PageTable, Perm, TableModel};
use vstd::prelude::*;

verus! {

/// Upper bound on payload words retained per shared ring, so a guest cannot grow
/// host memory without bound by ringing the doorbell in a loop.
pub const RING_MAX_KEEP: usize = 4096;

/// One serviced VM exit, recorded for inspection and for reproducibility.
#[derive(Debug, Clone, Copy, PartialEq, Eq)]
pub struct ExitRecord {
    pub tick: u64,
    pub guest_id: u32,
    pub pc: usize,
    pub reason: ExitReason,
}

/// One scheduler decision: guest `guest_id` was entered at `tick` and retired
/// `instructions_run` instructions before the slice ended.
#[derive(Debug, Clone, Copy, PartialEq, Eq)]
pub struct ScheduleTick {
    pub tick: u64,
    pub guest_id: u32,
    pub instructions_run: u64,
}

/// The default cap on scheduler rounds. Well behaved guests finish in a handful
/// of rounds; the cap only exists so a non terminating guest cannot hang the
/// host. It is deliberately large so it never truncates a legitimate workload.
pub const DEFAULT_MAX_ROUNDS: u64 = 1_000_000;

/// The hypervisor and the machine it runs.
#[derive(Debug)]
pub struct Hypervisor {
    pub host_mem: HostMemory,
    pub guests: Vec<Guest>,
    pub quantum: u64,
    pub exits: Vec<ExitRecord>,
    pub schedule: Vec<ScheduleTick>,
    /// Shared memory rings, at most one per guest, drained on the doorbell trap.
    pub rings: Vec<SharedRing>,
    /// Upper bound on scheduler rounds a single `run` will perform, so a guest
    /// that never halts cannot spin the host forever.
    max_rounds: u64,
    budget_exhausted: bool,
    tick: u64,
    vm_entries: u64,
}

impl View for Hypervisor {
    type V = MachineModel;

    closed spec fn view(&self) -> MachineModel {
        MachineModel {
            mem: self.host_mem@,
            guests: self.guests@.map_values(|guest: Guest| guest@),
            quantum: self.quantum,
            exits: self.exits@,
            schedule: self.schedule@,
            rings: self.rings@.map_values(|ring: SharedRing| ring@),
            max_rounds: self.max_rounds,
            budget_exhausted: self.budget_exhausted,
            tick: self.tick as nat,
            vm_entries: self.vm_entries as nat,
        }
    }
}

/// The part of the machine that a slice can touch, out of the values that hold
/// it.
spec fn part(
    guest: Guest,
    mem: HostMemory,
    rings: Vec<SharedRing>,
    exits: Vec<ExitRecord>,
    tick: u64,
) -> SliceModel {
    SliceModel {
        guest: guest@,
        mem: mem@,
        rings: rings@.map_values(|ring: SharedRing| ring@),
        exits: exits@,
        tick: tick as nat,
    }
}

/// The index of the first ring bound to guest `guest_id`, if there is one.
fn find_ring(rings: &Vec<SharedRing>, guest_id: u32) -> (found: Option<usize>)
    ensures
        match found {
            Some(k) => SliceModel::ring_of(
                rings@.map_values(|ring: SharedRing| ring@),
                guest_id,
            ) == Some(k as int) && k < rings.len(),
            None => SliceModel::ring_of(rings@.map_values(|ring: SharedRing| ring@), guest_id)
                is None && forall|j: int|
                0 <= j < rings.len() ==> (#[trigger] rings@[j])@.guest_id != guest_id,
        },
{
    let ghost all = rings@.map_values(|ring: SharedRing| ring@);
    let mut k: usize = 0;
    while k < rings.len()
        invariant
            k <= rings.len(),
            all == rings@.map_values(|ring: SharedRing| ring@),
            forall|j: int| 0 <= j < k ==> (#[trigger] all[j]).guest_id != guest_id,
        decreases rings.len() - k,
    {
        if rings[k].serves(guest_id) {
            proof {
                assert(all[k as int].guest_id == guest_id);
                assert(SliceModel::first_ring(all, guest_id, k as int));
                let chosen = choose|c: int| SliceModel::first_ring(all, guest_id, c);
                assert(SliceModel::first_ring(all, guest_id, chosen));
                assert(!(chosen < k) && !(k < chosen));
            }
            return Some(k);
        }
        k = k + 1;
    }
    assert forall|j: int| 0 <= j < rings.len() implies (#[trigger] rings@[j])@.guest_id
        != guest_id by {
        assert(all[j] == rings@[j]@);
    }
    None
}

/// Record and emulate the exit that a guest took with `reason` at `pc`. Returns
/// whether the guest resumes.
fn trap(
    guest: &mut Guest,
    mem: &mut HostMemory,
    rings: &mut Vec<SharedRing>,
    exits: &mut Vec<ExitRecord>,
    tick: &mut u64,
    pc: usize,
    reason: ExitReason,
) -> (resumes: bool)
    requires
        part(*old(guest), *old(mem), *old(rings), *old(exits), *old(tick)).trapped(
            pc as nat,
            reason,
        ) is Some,
        reason matches ExitReason::SetControlReg { cr, value } ==> cr < crate::cpu::CR_COUNT,
    ensures
        part(*old(guest), *old(mem), *old(rings), *old(exits), *old(tick)).trapped(
            pc as nat,
            reason,
        ) == Some(
            (
                part(*final(guest), *final(mem), *final(rings), *final(exits), *final(tick)),
                if resumes {
                    Turn::Resumed
                } else {
                    Turn::Stopped
                },
            ),
        ),
{
    // The tick cannot wrap: it numbers the entries of the log.
    let now: u64 = tick.wrapping_add(1);
    exits.push(ExitRecord { tick: now, guest_id: guest.id, pc, reason });
    assert(exits@.len() == exits.len());
    *tick = now;
    match reason {
        ExitReason::DeviceIo { port, value } => {
            if port == RING_DOORBELL_PORT {
                // The doorbell is emulated entirely on the host side: read the
                // guest's shared ring frame and drain any newly published
                // entries.
                if let Some(k) = find_ring(rings, guest.id) {
                    rings[k].drain(mem, RING_MAX_KEEP);
                }
            } else {
                guest.console.write(value);
            }
            guest.io_exits = guest.io_exits + 1;
            true
        },
        ExitReason::SetControlReg { cr, value } => {
            // The vCPU already rejected an out of range cr index as an invalid
            // operation, so this index is always valid.
            guest.vcpu.cr[cr as usize] = value;
            guest.cr_exits = guest.cr_exits + 1;
            true
        },
        ExitReason::Halt | ExitReason::EndOfProgram => {
            guest.state = GuestState::Halted;
            false
        },
        ExitReason::MemFault { .. } | ExitReason::InvalidOp { .. } => {
            guest.fault_exits = guest.fault_exits + 1;
            guest.state = GuestState::Faulted;
            false
        },
    }
}

/// Run one time slice of `guest`, up to `quantum` retired instructions. Returns
/// how many retired.
fn slice(
    guest: &mut Guest,
    mem: &mut HostMemory,
    rings: &mut Vec<SharedRing>,
    exits: &mut Vec<ExitRecord>,
    tick: &mut u64,
    quantum: u64,
) -> (ran: u64)
    requires
        part(*old(guest), *old(mem), *old(rings), *old(exits), *old(tick)).slice(quantum as nat, 0)
            is Some,
    ensures
        part(*old(guest), *old(mem), *old(rings), *old(exits), *old(tick)).slice(quantum as nat, 0)
            == Some(
            (
                part(*final(guest), *final(mem), *final(rings), *final(exits), *final(tick)),
                ran as nat,
            ),
        ),
{
    let ghost start = part(*guest, *mem, *rings, *exits, *tick);
    let mut ran: u64 = 0;
    while ran < quantum
        invariant_except_break
            ran <= quantum,
            start.slice(quantum as nat, 0) is Some,
            start.slice(quantum as nat, 0) == part(*guest, *mem, *rings, *exits, *tick).slice(
                quantum as nat,
                ran as nat,
            ),
        ensures
            start.slice(quantum as nat, 0) == Some(
                (part(*guest, *mem, *rings, *exits, *tick), ran as nat),
            ),
        decreases quantum - ran, guest.program.len() - guest.vcpu.pc,
    {
        let ghost before = part(*guest, *mem, *rings, *exits, *tick);
        proof {
            assert(before.turn() is Some);
            before.lemma_turn_progress();
            reveal(SliceModel::turn);
        }
        let pc: usize = guest.vcpu.pc;
        match guest.vcpu.step(guest.program.as_slice(), &guest.page_table, mem) {
            StepResult::Continue => {
                ran = ran + 1;
            },
            StepResult::Exit(reason) => {
                if !trap(guest, mem, rings, exits, tick, pc, reason) {
                    break ;
                }
            },
        }
    }
    ran
}

impl Hypervisor {
    /// Create a hypervisor backed by `frame_count` host frames, using a
    /// round robin `quantum` of instructions per slice.
    #[must_use]
    pub fn new(frame_count: u64, quantum: u64) -> (hv: Self)
        requires
            frame_count <= usize::MAX,
            quantum > 0,
        ensures
            hv@ == MachineModel::booted(frame_count as nat, quantum),
            hv@.wf(),
    {
        let hv = Self {
            host_mem: HostMemory::new(frame_count),
            guests: Vec::new(),
            quantum,
            exits: Vec::new(),
            schedule: Vec::new(),
            rings: Vec::new(),
            max_rounds: DEFAULT_MAX_ROUNDS,
            budget_exhausted: false,
            tick: 0,
            vm_entries: 0,
        };
        assert(hv@ =~= MachineModel::booted(frame_count as nat, quantum));
        hv
    }

    /// Set the scheduler round budget. A `run` that reaches it stops early and
    /// leaves any still runnable guests in place, with [`Self::budget_exhausted`]
    /// set. Used to bound adversarial or non terminating guests.
    pub fn set_max_rounds(&mut self, max_rounds: u64)
        requires
            max_rounds > 0,
        ensures
            final(self)@ == (MachineModel { max_rounds, ..old(self)@ }),
            old(self)@.wf() ==> final(self)@.wf(),
    {
        self.max_rounds = max_rounds;
    }

    /// Whether the last `run` stopped because it hit the round budget rather than
    /// because every guest became non runnable.
    #[must_use]
    pub fn budget_exhausted(&self) -> (yes: bool)
        ensures
            yes == self@.budget_exhausted,
    {
        self.budget_exhausted
    }

    /// Create and register a guest whose guest physical space is `pages` pages,
    /// each backed by a freshly allocated (therefore disjoint) host frame with
    /// the given permission. Returns the new guest's id.
    ///
    /// Because every guest's frames come from the same monotonic allocator, no
    /// two guests ever share a host frame through this path, which is the
    /// mechanical root of inter guest isolation.
    pub fn add_guest<N: Into<String>>(
        &mut self,
        name: N,
        program: Vec<Instr>,
        pages: u64,
        perm: Perm,
    ) -> (id: u32)
        requires
            old(self)@.mem.next_free + pages <= old(self)@.mem.frames.len(),
        ensures
            id == old(self)@.guests.len() as u32,
            exists|text: String|
                #![trigger text@]
                {
                    &&& call_ensures(N::into, (name,), text)
                    &&& final(self)@ == old(self)@.with_guest(text@, program@, pages, perm)
                },
            old(self)@.wf() ==> final(self)@.wf(),
    {
        let id: u32 = self.guests.len() as u32;
        let ghost base = self.host_mem@.next_free;
        proof {
            self.host_mem.lemma_bounds();
        }
        let mut table = PageTable::new();
        let mut gpn: u64 = 0;
        while gpn < pages
            invariant
                gpn <= pages,
                base + pages <= self.host_mem@.frames.len() <= usize::MAX,
                base == old(self)@.mem.next_free,
                self.host_mem@ == (MemoryModel { next_free: base + gpn as nat, ..old(self)@.mem }),
                self@ == (MachineModel { mem: self.host_mem@, ..old(self)@ }),
                table@ == TableModel::contiguous(base, gpn, perm),
            decreases pages - gpn,
        {
            let hfn: u64 = self.host_mem.alloc_frame();
            table.map(gpn, hfn, perm);
            gpn = gpn + 1;
            assert(table@ =~= TableModel::contiguous(base, gpn, perm));
        }
        let guest = Guest::new(id, name, program, table);
        let ghost text = guest.name;
        self.guests.push(guest);
        proof {
            assert(self@ =~= old(self)@.with_guest(text@, program@, pages, perm));
            if old(self)@.wf() {
                old(self)@.law_add_guest_keeps_wf(text@, program@, pages, perm);
            }
        }
        id
    }

    /// Explicitly share host frame `hfn` into guest `guest_id`'s address space at
    /// guest page `gpn`. This is the only sanctioned way two guests can reach the
    /// same host frame, and it is opt in.
    pub fn share_frame(&mut self, guest_id: u32, gpn: u64, hfn: u64, perm: Perm)
        requires
            guest_id < old(self)@.guests.len(),
        ensures
            final(self)@ == old(self)@.with_mapping(guest_id as int, gpn, hfn, perm),
            old(self)@.wf() && old(self)@.mem.has_frame(hfn) ==> final(self)@.wf(),
    {
        self.guests[guest_id as usize].page_table.map(gpn, hfn, perm);
        proof {
            let before = old(self)@;
            assert(self@ =~= before.with_mapping(guest_id as int, gpn, hfn, perm));
            if before.wf() && before.mem.has_frame(hfn) {
                before.law_share_frame_keeps_wf(guest_id as int, gpn, hfn, perm);
            }
        }
    }

    /// Attach a virtio style shared ring to guest `guest_id`, mapped read write at
    /// guest page `gpn`. Returns the host frame backing the ring.
    ///
    /// The frame is freshly allocated, so it is disjoint from every other guest's
    /// private frames. It is deliberately shared between exactly this guest and
    /// the host, and no other guest maps it, which is what keeps the shared frame
    /// from becoming an inter guest leak. A guest has at most one ring, so it must not
    /// have one yet; [`Self::ring`] tells.
    pub fn attach_ring(&mut self, guest_id: u32, gpn: u64) -> (hfn: u64)
        requires
            guest_id < old(self)@.guests.len(),
            old(self)@.mem.next_free < old(self)@.mem.frames.len(),
            forall|k: int|
                0 <= k < old(self)@.rings.len() ==> (#[trigger] old(self)@.rings[k]).guest_id
                    != guest_id,
        ensures
            hfn == old(self)@.mem.next_free,
            final(self)@ == old(self)@.with_ring(guest_id, gpn),
            old(self)@.wf() ==> final(self)@.wf(),
    {
        proof {
            self.host_mem.lemma_bounds();
        }
        let hfn: u64 = self.host_mem.alloc_frame();
        self.guests[guest_id as usize].page_table.map(gpn, hfn, Perm::rw());
        self.rings.push(SharedRing::new(guest_id, hfn, gpn));
        proof {
            let before = old(self)@;
            assert(self@ =~= before.with_ring(guest_id, gpn));
            if before.wf() {
                before.law_attach_ring_keeps_wf(guest_id, gpn);
            }
        }
        hfn
    }

    /// The shared ring bound to guest `id`, if one was attached.
    #[must_use]
    pub fn ring(&self, guest_id: u32) -> (ring: Option<&SharedRing>)
        ensures
            match (ring, SliceModel::ring_of(self@.rings, guest_id)) {
                (Some(r), Some(k)) => r@ == self@.rings[k] && r@.guest_id == guest_id,
                (None, None) => forall|k: int|
                    0 <= k < self@.rings.len() ==> (#[trigger] self@.rings[k]).guest_id != guest_id,
                _ => false,
            },
    {
        match find_ring(&self.rings, guest_id) {
            Some(k) => {
                proof {
                    SliceModel::lemma_ring_of(self@.rings, guest_id);
                }
                Some(&self.rings[k])
            },
            None => {
                assert forall|k: int| 0 <= k < self@.rings.len() implies (
                #[trigger] self@.rings[k]).guest_id != guest_id by {
                    assert(self@.rings[k] == self.rings@[k]@);
                }
                None
            },
        }
    }

    /// Total VM entries performed (one per scheduler slice actually run).
    #[must_use]
    pub fn vm_entries(&self) -> (count: u64)
        ensures
            count == self@.vm_entries,
    {
        self.vm_entries
    }

    /// Total VM exits recorded.
    #[must_use]
    pub fn vm_exits(&self) -> (count: u64)
        ensures
            count == self@.exits.len(),
    {
        self.exits.len() as u64
    }

    /// Run one round robin slice for the guest at `index`, up to `quantum`
    /// instructions. Device IO and control register writes are emulated in place
    /// and the guest keeps running within the slice. A halt, end of program, or
    /// memory fault ends the guest.
    fn run_slice(&mut self, index: usize)
        requires
            index < old(self)@.guests.len(),
            old(self)@.run_slice(index as int) is Some,
        ensures
            old(self)@.run_slice(index as int) == Some(final(self)@),
    {
        if !self.guests[index].is_runnable() {
            return;
        }
        let entry_tick: u64 = self.tick;
        let ran: u64 = slice(
            &mut self.guests[index],
            &mut self.host_mem,
            &mut self.rings,
            &mut self.exits,
            &mut self.tick,
            self.quantum,
        );
        self.schedule.push(
            ScheduleTick {
                tick: entry_tick,
                guest_id: self.guests[index].id,
                instructions_run: ran,
            },
        );
        // The count cannot overflow: it is no larger than the log it counts.
        assert(self.schedule@.len() == self.schedule.len());
        self.vm_entries = self.vm_entries + 1;
    }

    /// Whether some guest is runnable.
    fn any_runnable(&self) -> (yes: bool)
        ensures
            yes == self@.any_runnable(),
    {
        let mut index: usize = 0;
        while index < self.guests.len()
            invariant
                index <= self.guests.len(),
                forall|j: int| 0 <= j < index ==> !(#[trigger] self@.guests[j]).runnable(),
            decreases self.guests.len() - index,
        {
            if self.guests[index].is_runnable() {
                assert(self@.guests[index as int].runnable());
                return true;
            }
            index = index + 1;
        }
        false
    }

    /// Run all guests to completion with the deterministic round robin. Returns
    /// the number of scheduler rounds performed.
    pub fn run(&mut self) -> (rounds: u64)
        requires
            old(self)@.ready() || old(self)@.run() is Some,
        ensures
            old(self)@.run() == Some((final(self)@, rounds as nat)),
            old(self)@.keeps(final(self)@),
            old(self)@.wf() ==> final(self)@.wf() && rounds <= old(self)@.max_rounds,
            forall|i: int|
                old(self)@.wf() && 0 <= i < old(self)@.guests.len() ==> (
                #[trigger] final(self)@.guests[i]).vcpu.retired <= old(
                    self,
                )@.guests[i].vcpu.retired + old(self)@.max_rounds * old(self)@.quantum,
    {
        proof {
            if old(self)@.ready() {
                old(self)@.law_ready_machine_runs();
            }
            old(self)@.law_run_keeps_setup();
            if old(self)@.wf() {
                old(self)@.law_run_is_bounded();
                old(self)@.law_run_keeps_wf();
            }
        }
        self.budget_exhausted = false;
        let mut rounds: u64 = 0;
        loop
            invariant_except_break
                rounds == 0 || rounds < self.max_rounds,
                old(self)@.run() is Some,
                old(self)@.run() == self@.run_from(rounds as nat),
            ensures
                old(self)@.run() == Some((self@, rounds as nat)),
            decreases self.max_rounds - rounds,
        {
            let ghost start = self@;
            let mut any_runnable: bool = false;
            let mut index: usize = 0;
            while index < self.guests.len()
                invariant
                    index <= self.guests.len(),
                    self@.guests.len() == start.guests.len(),
                    self@.max_rounds == start.max_rounds,
                    start.round() == self@.round_from(index as int),
                    start.any_runnable() ==> start.round() is Some,
                    any_runnable ==> start.any_runnable(),
                    !any_runnable ==> self@ == start && forall|j: int|
                        0 <= j < index ==> !(#[trigger] start.guests[j]).runnable(),
                decreases self.guests.len() - index,
            {
                if self.guests[index].is_runnable() {
                    any_runnable = true;
                    self.run_slice(index);
                }
                index = index + 1;
            }
            if !any_runnable {
                break ;
            }
            rounds = rounds + 1;
            if rounds >= self.max_rounds {
                // The whole budget is consumed. Stop rather than spin the host
                // forever, and report it if a guest (or several) is still runnable.
                self.budget_exhausted = self.any_runnable();
                break ;
            }
        }
        rounds
    }

    /// Borrow a guest by id.
    #[must_use]
    pub fn guest(&self, id: u32) -> (guest: &Guest)
        requires
            id < self@.guests.len(),
        ensures
            guest@ == self@.guests[id as int],
    {
        &self.guests[id as usize]
    }

    /// A compact printable memory map: every guest's guest page to host frame
    /// mappings with permissions.
    #[must_use]
    pub fn memory_map(&self) -> (text: String)
        ensures
            text@ == self@.memory_map(self@.guests.len() as int),
    {
        let mut out = String::new();
        let mut i: usize = 0;
        while i < self.guests.len()
            invariant
                i <= self.guests.len(),
                out@ == self@.memory_map(i as int),
            decreases self.guests.len() - i,
        {
            self.guests[i].push_memory_map(&mut out);
            i = i + 1;
        }
        out
    }
}

} // verus!
