//! When two slices are alike for their guests, and the law that they stay so.
use crate::cpu::{ExitReason, Instr, StepResult};
use crate::guest::GuestModel;
use crate::hypervisor::ExitRecord;
use crate::machine::{SliceModel, Turn};
use crate::mem::PAGE_WORDS;
use vstd::prelude::*;

verus! {

/// The exits of guest `guest_id` in `log`, in order: where each left the program,
/// and why.
pub open spec fn exits_of(log: Seq<ExitRecord>, guest_id: u32) -> Seq<(usize, ExitReason)>
    decreases log.len(),
{
    if log.len() == 0 {
        Seq::empty()
    } else if log.last().guest_id == guest_id {
        exits_of(log.drop_last(), guest_id).push((log.last().pc, log.last().reason))
    } else {
        exits_of(log.drop_last(), guest_id)
    }
}

proof fn lemma_exits_compose(first: Seq<ExitRecord>, second: Seq<ExitRecord>, guest_id: u32)
    ensures
        exits_of(first + second, guest_id) == exits_of(first, guest_id) + exits_of(
            second,
            guest_id,
        ),
    decreases second.len(),
{
    if second.len() == 0 {
        assert(first + second =~= first);
    } else {
        lemma_exits_compose(first, second.drop_last(), guest_id);
        assert((first + second).drop_last() =~= first + second.drop_last());
        assert((first + second).last() == second.last());
    }
}

/// A log without exits of the guest holds none.
pub proof fn lemma_no_exits(log: Seq<ExitRecord>, guest_id: u32)
    requires
        forall|n: int| 0 <= n < log.len() ==> (#[trigger] log[n]).guest_id != guest_id,
    ensures
        exits_of(log, guest_id) == Seq::<(usize, ExitReason)>::empty(),
    decreases log.len(),
{
    if log.len() > 0 {
        assert(log.last() == log[log.len() - 1]);
        let rest = log.drop_last();
        assert forall|n: int| 0 <= n < rest.len() implies (#[trigger] rest[n]).guest_id
            != guest_id by {
            assert(rest[n] == log[n]);
        }
        lemma_no_exits(rest, guest_id);
    }
}

impl SliceModel {
    /// The exits that the guest has in the log from place `since` on.
    pub open spec fn history(self, since: nat) -> Seq<(usize, ExitReason)> {
        exits_of(self.exits.skip(since as int), self.guest.id)
    }

    /// Whether host frame `hfn` is the guest's: a page of it maps the frame, or its
    /// ring lies there.
    pub open spec fn holds(self, hfn: u64) -> bool {
        ||| self.guest.page_table.reaches(hfn)
        ||| Self::ring_of(self.rings, self.guest.id) matches Some(k) && self.rings[k].hfn == hfn
    }

    /// Whether host frame `x` here stands for host frame `y` in `other`: both back the
    /// same page of the guest, or its ring.
    pub open spec fn paired(self, other: SliceModel, x: u64, y: u64) -> bool {
        ||| exists|gpn: u64| #[trigger]
            self.guest.page_table.map.contains_key(gpn) && self.guest.page_table.map[gpn].hfn == x
                && other.guest.page_table.map.contains_key(gpn)
                && other.guest.page_table.map[gpn].hfn == y
        ||| match (
            Self::ring_of(self.rings, self.guest.id),
            Self::ring_of(other.rings, other.guest.id),
        ) {
            (Some(k), Some(l)) => self.rings[k].hfn == x && other.rings[l].hfn == y,
            _ => false,
        }
    }

    /// Whether the two guests run the same program from the same state. They may
    /// differ in id, name, and where their pages lie.
    pub open spec fn same_guest(self, other: SliceModel) -> bool {
        other.guest == (GuestModel {
            id: other.guest.id,
            name: other.guest.name,
            page_table: other.guest.page_table,
            ..self.guest
        })
    }

    /// Whether the two slices are alike for their guests. The guests run the same
    /// program from the same state, map the same pages with the same access, have
    /// received the same through their rings, and find the same in every frame of
    /// theirs. Pages that share a frame in one share a frame in the other. Ids, names,
    /// frame numbers, and everything that is not the guest's may differ.
    pub open spec fn alike(self, other: SliceModel) -> bool {
        &&& self.same_guest(other)
        &&& forall|gpn: u64|
            #![trigger self.guest.page_table.map.contains_key(gpn)]
            #![trigger other.guest.page_table.map.contains_key(gpn)]
            {
                &&& self.guest.page_table.map.contains_key(gpn)
                    == other.guest.page_table.map.contains_key(gpn)
                &&& self.guest.page_table.map.contains_key(gpn)
                    ==> self.guest.page_table.map[gpn].perm == other.guest.page_table.map[gpn].perm
            }
        &&& match (
            Self::ring_of(self.rings, self.guest.id),
            Self::ring_of(other.rings, other.guest.id),
        ) {
            (Some(k), Some(l)) => self.rings[k].received == other.rings[l].received,
            (None, None) => true,
            _ => false,
        }
        &&& forall|x: u64, y: u64| #[trigger]
            self.paired(other, x, y) ==> {
                &&& self.mem.has_frame(x) == other.mem.has_frame(y)
                &&& self.mem.has_frame(x) ==> self.mem.frames[x as int]
                    == other.mem.frames[y as int]
            }
        &&& forall|x: u64, y: u64, v: u64, w: u64|
            #![trigger self.paired(other, x, y), self.paired(other, v, w)]
            self.paired(other, x, y) && self.paired(other, v, w) ==> (x == v <==> y == w)
    }

    /// Whether the two slices are alike for their guests, which have also taken the
    /// same exits since the given places of the logs.
    pub open spec fn parallels(self, other: SliceModel, since: nat, other_since: nat) -> bool {
        &&& since <= self.exits.len()
        &&& other_since <= other.exits.len()
        &&& self.alike(other)
        &&& self.history(since) == other.history(other_since)
    }

    /// Slices that are alike have taken the same exits, none, since now.
    pub proof fn lemma_alike_parallels(self, other: SliceModel)
        requires
            self.alike(other),
        ensures
            self.parallels(other, self.exits.len(), other.exits.len()),
    {
        assert(self.exits.skip(self.exits.len() as int) =~= Seq::empty());
        assert(other.exits.skip(other.exits.len() as int) =~= Seq::empty());
    }

    /// A slice is alike to itself.
    pub proof fn lemma_alike_itself(self)
        ensures
            self.alike(self),
    {
    }

    proof fn lemma_paired_turns(self, other: SliceModel, x: u64, y: u64)
        ensures
            self.paired(other, x, y) ==> other.paired(self, y, x),
    {
        if self.paired(other, x, y) {
            let (a, b) = (self.guest.page_table, other.guest.page_table);
            if exists|gpn: u64| #[trigger]
                a.map.contains_key(gpn) && a.map[gpn].hfn == x && b.map.contains_key(gpn)
                    && b.map[gpn].hfn == y {
                let gpn = choose|gpn: u64| #[trigger]
                    a.map.contains_key(gpn) && a.map[gpn].hfn == x && b.map.contains_key(gpn)
                        && b.map[gpn].hfn == y;
                assert(b.map.contains_key(gpn));
            }
        }
    }

    /// The frame of `middle` that stands for both.
    proof fn lemma_paired_through(
        self,
        middle: SliceModel,
        later: SliceModel,
        x: u64,
        z: u64,
    ) -> (y: u64)
        requires
            self.alike(middle),
            middle.alike(later),
            self.paired(later, x, z),
        ensures
            self.paired(middle, x, y),
            middle.paired(later, y, z),
    {
        let (a, b) = (self.guest.page_table, middle.guest.page_table);
        let c = later.guest.page_table;
        if exists|gpn: u64| #[trigger]
            a.map.contains_key(gpn) && a.map[gpn].hfn == x && c.map.contains_key(gpn)
                && c.map[gpn].hfn == z {
            let gpn = choose|gpn: u64| #[trigger]
                a.map.contains_key(gpn) && a.map[gpn].hfn == x && c.map.contains_key(gpn)
                    && c.map[gpn].hfn == z;
            assert(b.map.contains_key(gpn));
            b.map[gpn].hfn
        } else {
            middle.rings[Self::ring_of(middle.rings, middle.guest.id)->0].hfn
        }
    }

    /// Being alike is symmetric and transitive.
    pub proof fn lemma_alike_composes(self, middle: SliceModel, later: SliceModel)
        requires
            self.alike(middle),
            middle.alike(later),
        ensures
            self.alike(later),
            middle.alike(self),
    {
        assert forall|x: u64, z: u64| #[trigger] self.paired(later, x, z) implies {
            &&& self.mem.has_frame(x) == later.mem.has_frame(z)
            &&& self.mem.has_frame(x) ==> self.mem.frames[x as int] == later.mem.frames[z as int]
        } by {
            let y = self.lemma_paired_through(middle, later, x, z);
        }
        assert forall|x: u64, z: u64, v: u64, w: u64|
            #![trigger self.paired(later, x, z), self.paired(later, v, w)]
            self.paired(later, x, z) && self.paired(later, v, w) implies (x == v <==> z == w) by {
            let y = self.lemma_paired_through(middle, later, x, z);
            let u = self.lemma_paired_through(middle, later, v, w);
        }
        assert forall|y: u64, x: u64| #[trigger] middle.paired(self, y, x) implies self.paired(
            middle,
            x,
            y,
        ) by {
            middle.lemma_paired_turns(self, y, x);
        }
    }

    /// Being alike is symmetric.
    pub proof fn lemma_alike_turns(self, other: SliceModel)
        requires
            self.alike(other),
        ensures
            other.alike(self),
    {
        other.lemma_alike_itself();
        self.lemma_alike_composes(other, other);
    }

    /// Having taken the same exits is transitive.
    pub proof fn lemma_parallels_composes(
        self,
        middle: SliceModel,
        later: SliceModel,
        since: nat,
        middle_since: nat,
        later_since: nat,
    )
        requires
            self.parallels(middle, since, middle_since),
            middle.parallels(later, middle_since, later_since),
        ensures
            self.parallels(later, since, later_since),
    {
        self.lemma_alike_composes(middle, later);
    }

    /// Having taken the same exits is symmetric.
    pub proof fn lemma_parallels_turn(self, other: SliceModel, since: nat, other_since: nat)
        requires
            self.parallels(other, since, other_since),
        ensures
            other.parallels(self, other_since, since),
    {
        self.lemma_alike_turns(other);
    }

    /// From one slice over two that are parallel to each other to a fourth.
    pub proof fn lemma_parallels_bridge(
        self,
        left: SliceModel,
        right: SliceModel,
        other: SliceModel,
        since: nat,
        other_since: nat,
    )
        requires
            self.parallels(left, since, since),
            left.parallels(right, since, other_since),
            other.parallels(right, other_since, other_since),
        ensures
            self.parallels(other, since, other_since),
    {
        self.lemma_parallels_composes(left, right, since, since, other_since);
        other.lemma_parallels_turn(right, other_since, other_since);
        self.lemma_parallels_composes(right, other, since, other_since, other_since);
    }

    /// Slices that were alike are alike later, when their guests are in the same
    /// state again, have received the same, and find the same in their frames.
    proof fn lemma_alike_kept(self, other: SliceModel, s: SliceModel, o: SliceModel)
        requires
            self.alike(other),
            self.keeps(s),
            other.keeps(o),
            s.same_guest(o),
            match (
                Self::ring_of(self.rings, self.guest.id),
                Self::ring_of(other.rings, other.guest.id),
            ) {
                (Some(k), Some(l)) => s.rings[k].received == o.rings[l].received,
                _ => true,
            },
            forall|x: u64, y: u64| #[trigger]
                self.paired(other, x, y) && self.mem.has_frame(x) ==> s.mem.frames[x as int]
                    == o.mem.frames[y as int],
        ensures
            s.alike(o),
    {
        Self::lemma_ring_of(self.rings, self.guest.id);
        Self::lemma_ring_of(other.rings, other.guest.id);
        Self::lemma_ring_of_same(self.rings, s.rings, self.guest.id);
        Self::lemma_ring_of_same(other.rings, o.rings, other.guest.id);
        assert forall|x: u64, y: u64| #[trigger] s.paired(o, x, y) implies self.paired(
            other,
            x,
            y,
        ) by {}
    }

    /// Slices that are alike take the same step and stay alike.
    pub proof fn lemma_step_of_alike(self, other: SliceModel)
        requires
            self.alike(other),
        ensures
            match (
                self.guest.vcpu.step(self.guest.program, self.guest.page_table, self.mem),
                other.guest.vcpu.step(other.guest.program, other.guest.page_table, other.mem),
            ) {
                (Some(x), Some(y)) => {
                    &&& x.result == y.result
                    &&& x.vcpu == y.vcpu
                    &&& self.stepped(x).alike(other.stepped(y))
                },
                (None, None) => true,
                _ => false,
            },
    {
        let vcpu = self.guest.vcpu;
        let (a, b) = (self.guest.page_table, other.guest.page_table);
        let program = self.guest.program;
        if vcpu.decodes(program) && program[vcpu.pc as int].in_range() {
            let gpa = match program[vcpu.pc as int] {
                Instr::Load(rd, rs) => vcpu.reg(rs),
                Instr::Store(rd, rs) => vcpu.reg(rd),
                _ => 0,
            };
            let gpn = gpa / PAGE_WORDS;
            if a.map.contains_key(gpn) {
                assert(self.paired(other, a.map[gpn].hfn, b.map[gpn].hfn));
            }
        }
        if let Some(x) = vcpu.step(program, a, self.mem) {
            if let Some(y) = vcpu.step(program, b, other.mem) {
                vcpu.law_step_writes_are_confined(program, a, self.mem);
                vcpu.law_step_writes_are_confined(program, b, other.mem);
                assert forall|v: u64, w: u64| #[trigger]
                    self.paired(other, v, w) && self.mem.has_frame(v) implies x.mem.frames[v as int]
                    == y.mem.frames[w as int] by {}
                self.lemma_alike_kept(other, self.stepped(x), other.stepped(y));
            }
        }
    }

    proof fn lemma_trap_of_alike(self, other: SliceModel, pc: nat, reason: ExitReason)
        requires
            self.alike(other),
        ensures
            self.trapped(pc, reason) matches Some((s, turn)) ==> {
                &&& self.keeps(s)
                &&& s.exits == self.logged(pc, reason).exits
                &&& other.trapped(pc, reason) matches Some((o, other_turn)) ==> s.alike(o) && turn
                    == other_turn
            },
    {
        Self::lemma_ring_of(self.rings, self.guest.id);
        Self::lemma_ring_of(other.rings, other.guest.id);
        if let Some((s, turn)) = self.trapped(pc, reason) {
            if let Some((o, other_turn)) = other.trapped(pc, reason) {
                if let Some(k) = Self::ring_of(self.rings, self.guest.id) {
                    let l = Self::ring_of(other.rings, other.guest.id)->0;
                    let (x, y) = (self.rings[k].hfn, other.rings[l].hfn);
                    assert(self.paired(other, x, y));
                    if self.mem.has_frame(x) {
                        assert(self.rings[k].published(self.mem) =~= other.rings[l].published(
                            other.mem,
                        ));
                    }
                }
                assert forall|v: u64, w: u64| #[trigger]
                    self.paired(other, v, w) && self.mem.has_frame(v) implies s.mem.frames[v as int]
                    == o.mem.frames[w as int] by {}
                self.lemma_alike_kept(other, s, o);
            }
        }
    }

    proof fn lemma_history_grows(self, s: SliceModel, pc: nat, reason: ExitReason, since: nat)
        requires
            since <= self.exits.len(),
            s.guest.id == self.guest.id,
            s.exits == self.logged(pc, reason).exits,
        ensures
            s.history(since) == self.history(since).push((pc as usize, reason)),
    {
        let record = s.exits.last();
        let log = s.exits.skip(since as int);
        assert(log.drop_last() =~= self.exits.skip(since as int));
        assert(log.last() == record);
    }

    /// Slices that are alike take the same turn and stay alike, with the same exits
    /// taken.
    pub proof fn lemma_turn_of_alike(self, other: SliceModel, since: nat, other_since: nat)
        requires
            self.parallels(other, since, other_since),
        ensures
            self.turn() matches Some((s, turn)) ==> (other.turn() matches Some((o, other_turn))
                ==> s.parallels(o, since, other_since) && turn == other_turn),
    {
        reveal(SliceModel::turn);
        self.lemma_step_of_alike(other);
        let (a, b) = (self.guest, other.guest);
        let pc = a.vcpu.pc;
        if let Some(x) = a.vcpu.step(a.program, a.page_table, self.mem) {
            if let Some(y) = b.vcpu.step(b.program, b.page_table, other.mem) {
                if let StepResult::Exit(reason) = x.result {
                    let (p, q) = (self.stepped(x), other.stepped(y));
                    p.lemma_trap_of_alike(q, pc, reason);
                    p.lemma_alike_turns(q);
                    q.lemma_trap_of_alike(p, pc, reason);
                    if let Some((s, turn)) = p.trapped(pc, reason) {
                        p.lemma_history_grows(s, pc, reason, since);
                    }
                    if let Some((o, other_turn)) = q.trapped(pc, reason) {
                        q.lemma_history_grows(o, pc, reason, other_since);
                    }
                }
            }
        }
    }

    /// Slices that are alike stay alike, retire as many instructions, and take the
    /// same exits.
    pub proof fn lemma_slice_of_alike(
        self,
        other: SliceModel,
        quantum: nat,
        ran: nat,
        since: nat,
        other_since: nat,
    )
        requires
            self.parallels(other, since, other_since),
        ensures
            self.slice(quantum, ran) matches Some((s, all)) ==> (other.slice(quantum, ran) matches
                Some((o, other_all)) ==> s.parallels(o, since, other_since) && all == other_all),
        decreases quantum - ran, self.guest.program.len() - self.guest.vcpu.pc,
    {
        if ran < quantum {
            self.lemma_turn_progress();
            self.lemma_turn_of_alike(other, since, other_since);
            if let Some((o, other_turn)) = other.turn() {
                match self.turn() {
                    Some((s, Turn::Retired)) => {
                        s.lemma_slice_of_alike(o, quantum, ran + 1, since, other_since);
                    },
                    Some((s, Turn::Resumed)) => {
                        s.lemma_slice_of_alike(o, quantum, ran, since, other_since);
                    },
                    _ => {},
                }
            }
        }
    }

    /// Law: what a slice makes of a guest depends only on what is the guest's own: its
    /// program and state, what its frames hold, and its ring. Slices that are alike
    /// for their guests stay alike, retire as many instructions, and record the same
    /// exits, at the same places of the program and for the same reasons.
    pub proof fn law_slice_depends_on_own_state(self, other: SliceModel, quantum: nat, ran: nat)
        requires
            self.alike(other),
        ensures
            self.slice(quantum, ran) matches Some((s, all)) ==> (other.slice(quantum, ran) matches
                Some((o, other_all)) ==> s.parallels(o, self.exits.len(), other.exits.len()) && all
                == other_all),
    {
        self.lemma_alike_parallels(other);
        self.lemma_slice_of_alike(other, quantum, ran, self.exits.len(), other.exits.len());
    }

    /// A history is what it was at an earlier time, and what came since.
    pub proof fn lemma_history_splits(self, earlier: SliceModel, since: nat)
        requires
            earlier.exits.is_prefix_of(self.exits),
            since <= earlier.exits.len(),
            earlier.guest.id == self.guest.id,
        ensures
            self.history(since) == earlier.history(since) + self.history(earlier.exits.len()),
    {
        let first = earlier.exits.skip(since as int);
        let second = self.exits.skip(earlier.exits.len() as int);
        assert(self.exits.skip(since as int) =~= first + second);
        lemma_exits_compose(first, second, self.guest.id);
    }
}

} // verus!
