//! What setting a machine up does: creating it, adding guests, sharing frames,
//! attaching rings.
use crate::cpu::Instr;
use crate::guest::{GuestModel, GuestState};
use crate::machine::{MachineModel, SliceModel};
use crate::mem::{Perm, PhysFault, TableModel};
use vstd::prelude::*;

verus! {

impl TableModel {
    /// Whether the page of `gpa` is backed by `hfn` with exactly `perm`: a read and a
    /// write of the address reach that frame at the address's place in the page if
    /// and only if the permission grants it, and are protection faults otherwise.
    pub open spec fn grants(self, gpa: u64, hfn: int, perm: Perm) -> bool {
        &&& match self.translate(gpa, false) {
            Ok((frame, offset)) => perm.read && frame == hfn && offset == gpa % 16,
            Err(fault) => !perm.read && fault == PhysFault::Protection,
        }
        &&& match self.translate(gpa, true) {
            Ok((frame, offset)) => perm.write && frame == hfn && offset == gpa % 16,
            Err(fault) => !perm.write && fault == PhysFault::Protection,
        }
    }
}

impl GuestModel {
    /// Whether the guest has not run yet: its vCPU is reset, it has printed nothing and
    /// taken no exit, and the scheduler may enter it.
    pub open spec fn unstarted(self) -> bool {
        &&& self.vcpu.pc == 0
        &&& !self.vcpu.halted
        &&& self.vcpu.retired == 0
        &&& self.vcpu.regs.len() == 8
        &&& self.vcpu.cr.len() == 4
        &&& forall|r: int| 0 <= r < 8 ==> #[trigger] self.vcpu.regs[r] == 0
        &&& forall|r: int| 0 <= r < 4 ==> #[trigger] self.vcpu.cr[r] == 0
        &&& self.console.len() == 0
        &&& self.state == GuestState::Running
        &&& self.io_exits == 0
        &&& self.cr_exits == 0
        &&& self.fault_exits == 0
    }

    /// Law: a new guest has the identity, program and page table it is given and has not
    /// run yet.
    pub proof fn law_new_guest(
        id: u32,
        name: Seq<char>,
        program: Seq<Instr>,
        page_table: TableModel,
    )
        ensures
            ({
                let guest = GuestModel::fresh(id, name, program, page_table);
                &&& guest.id == id
                &&& guest.name == name
                &&& guest.program == program
                &&& guest.page_table == page_table
                &&& guest.unstarted()
            }),
    {
    }

    /// Law: a guest is runnable exactly while it neither halted nor faulted.
    pub proof fn law_runnable(self)
        ensures
            self.runnable() <==> self.state != GuestState::Halted && self.state
                != GuestState::Faulted,
    {
    }
}

impl MachineModel {
    /// Whether the logs, the counts and the scheduler's settings are those of `other`.
    pub open spec fn same_books(self, other: MachineModel) -> bool {
        &&& self.quantum == other.quantum
        &&& self.max_rounds == other.max_rounds
        &&& self.budget_exhausted == other.budget_exhausted
        &&& self.exits == other.exits
        &&& self.schedule == other.schedule
        &&& self.tick == other.tick
        &&& self.vm_entries == other.vm_entries
    }

    /// Law: a created machine has so many frames of zeroes, no guests, no rings, empty
    /// logs, the quantum it is given and a budget of a million rounds.
    pub proof fn law_boot(frame_count: nat, quantum: u64)
        ensures
            ({
                let m = MachineModel::booted(frame_count, quantum);
                &&& m.mem.next_free == 0
                &&& m.mem.frames.len() == frame_count
                &&& forall|f: int|
                    0 <= f < frame_count ==> (#[trigger] m.mem.frames[f]).len() == 16
                &&& forall|f: int, w: int|
                    0 <= f < frame_count && 0 <= w < 16 ==> #[trigger] m.mem.frames[f][w] == 0
                &&& m.guests.len() == 0
                &&& m.rings.len() == 0
                &&& m.exits.len() == 0
                &&& m.schedule.len() == 0
                &&& m.quantum == quantum
                &&& m.max_rounds == 1_000_000
                &&& !m.budget_exhausted
                &&& m.tick == 0
                &&& m.vm_entries == 0
            }),
    {
    }

    /// Law: adding a guest with `pages` pages. The new guest comes last, numbered by its
    /// place, has not run yet, and maps exactly the pages below `pages`: page `p` is
    /// backed by the `p`th fresh frame, with exactly the permission given. The frames
    /// are handed out as they are, and all else stays.
    pub proof fn law_add_guest(
        self,
        name: Seq<char>,
        program: Seq<Instr>,
        pages: u64,
        perm: Perm,
        gpa: u64,
    )
        requires
            self.mem.next_free + pages <= self.mem.frames.len() <= u64::MAX,
        ensures
            ({
                let m = self.with_guest(name, program, pages, perm);
                let guest = m.guests[self.guests.len() as int];
                let table = guest.page_table;
                &&& m.guests.len() == self.guests.len() + 1
                &&& forall|j: int|
                    0 <= j < self.guests.len() ==> #[trigger] m.guests[j] == self.guests[j]
                &&& self.guests.len() <= u32::MAX ==> guest.id == self.guests.len()
                &&& guest.name == name
                &&& guest.program == program
                &&& guest.unstarted()
                &&& gpa / 16 < pages ==> {
                    &&& table.map.contains_key(gpa / 16)
                    &&& table.grants(gpa, self.mem.next_free + gpa / 16, perm)
                }
                &&& gpa / 16 >= pages ==> {
                    &&& !table.map.contains_key(gpa / 16)
                    &&& table.translate(gpa, false) == Err::<(u64, u64), _>(PhysFault::Unmapped)
                    &&& table.translate(gpa, true) == Err::<(u64, u64), _>(PhysFault::Unmapped)
                }
                &&& m.mem.frames == self.mem.frames
                &&& m.mem.next_free == self.mem.next_free + pages
                &&& m.rings == self.rings
                &&& m.same_books(self)
            }),
    {
    }

    /// Law: sharing a frame. Every address of the named page of the guest then reaches
    /// that frame, for reads and for writes exactly as the permission grants. Every
    /// other page, everything else of the guest, and everything else of the machine
    /// stays.
    pub proof fn law_share_frame(
        self,
        i: int,
        gpn: u64,
        hfn: u64,
        perm: Perm,
        gpa: u64,
        write: bool,
    )
        requires
            0 <= i < self.guests.len(),
        ensures
            ({
                let m = self.with_mapping(i, gpn, hfn, perm);
                let (old_guest, guest) = (self.guests[i], m.guests[i]);
                &&& gpa / 16 == gpn ==> guest.page_table.grants(gpa, hfn as int, perm)
                &&& gpa / 16 != gpn ==> guest.page_table.translate(gpa, write)
                    == old_guest.page_table.translate(gpa, write)
                &&& guest == (GuestModel { page_table: guest.page_table, ..old_guest })
                &&& m.guests.len() == self.guests.len()
                &&& forall|j: int|
                    0 <= j < self.guests.len() && j != i ==> #[trigger] m.guests[j]
                        == self.guests[j]
                &&& m.mem == self.mem
                &&& m.rings == self.rings
                &&& m.same_books(self)
            }),
    {
    }

    /// Law: attaching a ring. The next fresh frame is handed out and backs the named page
    /// of the guest, for reads and for writes. A ring bound to that guest, frame and
    /// page, with nothing received, comes last, and all else stays.
    pub proof fn law_attach_ring(self, guest_id: u32, gpn: u64, gpa: u64, write: bool)
        requires
            guest_id < self.guests.len(),
            self.mem.next_free < self.mem.frames.len() <= u64::MAX,
        ensures
            ({
                let m = self.with_ring(guest_id, gpn);
                let (old_guest, guest) = (
                    self.guests[guest_id as int],
                    m.guests[guest_id as int],
                );
                let ring = m.rings[self.rings.len() as int];
                &&& gpa / 16 == gpn ==> guest.page_table.translate(gpa, write) == Ok::<
                    (u64, u64),
                    PhysFault,
                >((self.mem.next_free as u64, gpa % 16))
                &&& gpa / 16 != gpn ==> guest.page_table.translate(gpa, write)
                    == old_guest.page_table.translate(gpa, write)
                &&& guest == (GuestModel { page_table: guest.page_table, ..old_guest })
                &&& m.guests.len() == self.guests.len()
                &&& forall|j: int|
                    0 <= j < self.guests.len() && j != guest_id ==> #[trigger] m.guests[j]
                        == self.guests[j]
                &&& m.rings.len() == self.rings.len() + 1
                &&& forall|k: int|
                    0 <= k < self.rings.len() ==> #[trigger] m.rings[k] == self.rings[k]
                &&& ring.guest_id == guest_id
                &&& ring.hfn == self.mem.next_free
                &&& ring.gpn == gpn
                &&& ring.received.len() == 0
                &&& m.mem.frames == self.mem.frames
                &&& m.mem.next_free == self.mem.next_free + 1
                &&& m.same_books(self)
            }),
    {
    }

    /// Law: a guest's ring is the first that is bound to it, and it has one exactly when
    /// some ring is bound to it.
    pub proof fn law_ring_of_guest(self, guest_id: u32)
        ensures
            match SliceModel::ring_of(self.rings, guest_id) {
                Some(k) => {
                    &&& 0 <= k < self.rings.len()
                    &&& self.rings[k].guest_id == guest_id
                    &&& forall|j: int|
                        0 <= j < k ==> (#[trigger] self.rings[j]).guest_id != guest_id
                },
                None => forall|j: int|
                    0 <= j < self.rings.len() ==> (#[trigger] self.rings[j]).guest_id != guest_id,
            },
    {
        SliceModel::lemma_ring_of(self.rings, guest_id);
        if SliceModel::ring_of(self.rings, guest_id) is None {
            SliceModel::lemma_ring_exists(self.rings, guest_id, self.rings.len() as int);
        }
    }
}

} // verus!
