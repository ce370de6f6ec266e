//! The agents of a world, in columns indexed by slot.
//!
//! The slot is the stable identity of an agent: the coordinate its noise is
//! addressed by, and the row a policy sees. The table is therefore never
//! reordered, and the holes left by removed agents are reused instead of
//! compacted away: compacting would renumber the survivors.
//!
//! `H` is whatever the physics engine hands back for a body, `Z` the size the
//! agent was created with. The table only stores and returns them.

use vstd::prelude::*;

use crate::shapes::ShapeKind;

verus! {

/// The live agents of `slots`, in increasing slot order, each with its body.
pub open spec fn alive_pairs<H>(slots: Seq<Option<H>>) -> Seq<(u32, H)>
    decreases slots.len(),
{
    if slots.len() == 0 {
        Seq::empty()
    } else {
        let before = alive_pairs(slots.drop_last());
        match slots.last() {
            Some(h) => before.push(((slots.len() - 1) as u32, h)),
            None => before,
        }
    }
}

/// How many slots of `slots` hold a live agent.
pub open spec fn alive_count<H>(slots: Seq<Option<H>>) -> nat {
    alive_pairs(slots).len()
}

/// Emptying one live slot removes one agent; filling one empty slot adds one.
proof fn lemma_alive_count_update<H>(slots: Seq<Option<H>>, i: int, v: Option<H>)
    requires
        0 <= i < slots.len(),
    ensures
        alive_count(slots.update(i, v)) == alive_count(slots) - (if slots[i] is Some {
            1int
        } else {
            0int
        }) + (if v is Some {
            1int
        } else {
            0int
        }),
    decreases slots.len(),
{
    let t = slots.update(i, v);
    if i < slots.len() - 1 {
        assert(t.drop_last() =~= slots.drop_last().update(i, v));
        lemma_alive_count_update(slots.drop_last(), i, v);
    } else {
        assert(t.drop_last() =~= slots.drop_last());
    }
}

proof fn lemma_alive_count_push<H>(slots: Seq<Option<H>>, v: Option<H>)
    ensures
        alive_count(slots.push(v)) == alive_count(slots) + (if v is Some {
            1int
        } else {
            0int
        }),
{
    assert(slots.push(v).drop_last() =~= slots);
}

/// The live-agent list of `slots` is exactly its live slots, each with its
/// body and listed once, in strictly increasing slot order.
pub proof fn lemma_alive_pairs_are_the_live_slots_in_order<H>(slots: Seq<Option<H>>)
    requires
        slots.len() <= u32::MAX as nat + 1,
    ensures
        forall|k: int|
            0 <= k < alive_pairs(slots).len() ==> {
                &&& (#[trigger] alive_pairs(slots)[k]).0 < slots.len()
                &&& slots[alive_pairs(slots)[k].0 as int] == Some(alive_pairs(slots)[k].1)
            },
        forall|k: int, l: int|
            0 <= k < l < alive_pairs(slots).len() ==> (#[trigger] alive_pairs(slots)[k]).0
                < (#[trigger] alive_pairs(slots)[l]).0,
        forall|i: int|
            0 <= i < slots.len() && (#[trigger] slots[i]) is Some ==> exists|k: int|
                0 <= k < alive_pairs(slots).len() && #[trigger] alive_pairs(slots)[k] == (
                    i as u32,
                    slots[i]->0,
                ),
    decreases slots.len(),
{
    if slots.len() > 0 {
        let prev = slots.drop_last();
        lemma_alive_pairs_are_the_live_slots_in_order(prev);
        let before = alive_pairs(prev);
        let ap = alive_pairs(slots);
        let n = slots.len() as int;
        assert forall|k: int| 0 <= k < before.len() implies (#[trigger] before[k]).0 < n - 1
            && slots[before[k].0 as int] == Some(before[k].1) by {
            assert(prev[before[k].0 as int] == slots[before[k].0 as int]);
        }
        match slots.last() {
            Some(h) => {
                assert(ap == before.push(((n - 1) as u32, h)));
                assert(((n - 1) as u32) as int == n - 1);
                assert forall|k: int| 0 <= k < ap.len() implies {
                    &&& (#[trigger] ap[k]).0 < slots.len()
                    &&& slots[ap[k].0 as int] == Some(ap[k].1)
                } by {
                    if k < before.len() {
                        assert(ap[k] == before[k]);
                    }
                }
                assert forall|k: int, l: int| 0 <= k < l < ap.len() implies (#[trigger] ap[k]).0
                    < (#[trigger] ap[l]).0 by {
                    assert(ap[k] == before[k]);
                    if l < before.len() {
                        assert(ap[l] == before[l]);
                    }
                }
                assert forall|i: int| 0 <= i < slots.len() && (#[trigger] slots[i]) is Some
                    implies exists|k: int|
                    0 <= k < ap.len() && #[trigger] ap[k] == (i as u32, slots[i]->0) by {
                    if i < n - 1 {
                        assert(prev[i] == slots[i]);
                        let k = choose|k: int|
                            0 <= k < before.len() && #[trigger] before[k] == (i as u32, prev[i]->0);
                        assert(ap[k] == before[k]);
                    } else {
                        assert(ap[before.len() as int] == ((n - 1) as u32, h));
                    }
                }
            },
            None => {
                assert(ap == before);
                assert forall|i: int| 0 <= i < slots.len() && (#[trigger] slots[i]) is Some
                    implies exists|k: int|
                    0 <= k < ap.len() && #[trigger] ap[k] == (i as u32, slots[i]->0) by {
                    assert(i < n - 1);
                    assert(prev[i] == slots[i]);
                }
            },
        }
    }
}

pub struct Agents<H, Z> {
    handle: Vec<Option<H>>,
    shape: Vec<ShapeKind>,
    size: Vec<Z>,
    free: Vec<u32>,
}

impl<H, Z> Agents<H, Z> {
    /// Body of each slot, `None` where the slot is free.
    pub closed spec fn slots(&self) -> Seq<Option<H>> {
        self.handle@
    }

    /// Shape each slot was last given.
    pub closed spec fn shapes(&self) -> Seq<ShapeKind> {
        self.shape@
    }

    /// Size each slot was last given.
    pub closed spec fn sizes(&self) -> Seq<Z> {
        self.size@
    }

    /// Free slots, the one to be reused next at the end.
    pub closed spec fn free_list(&self) -> Seq<u32> {
        self.free@
    }

    /// The columns have one row per slot, every slot number fits in a `u32`,
    /// the free list names each empty slot exactly once and nothing else.
    #[verifier::type_invariant]
    closed spec fn well_formed(&self) -> bool {
        &&& self.shape@.len() == self.handle@.len()
        &&& self.size@.len() == self.handle@.len()
        &&& self.handle@.len() <= u32::MAX as nat + 1
        &&& forall|k: int|
            0 <= k < self.free@.len() ==> {
                &&& (#[trigger] self.free@[k]) < self.handle@.len()
                &&& self.handle@[self.free@[k] as int] is None
            }
        &&& forall|k: int, l: int|
            0 <= k < l < self.free@.len() ==> #[trigger] self.free@[k] != #[trigger] self.free@[l]
        &&& self.free@.len() + alive_count(self.handle@) == self.handle@.len()
    }

    /// The invariant, as seen from outside: columns of one length, and the
    /// free list made of distinct empty slots, as many as there are.
    pub open spec fn consistent(&self) -> bool {
        &&& self.shapes().len() == self.slots().len()
        &&& self.sizes().len() == self.slots().len()
        &&& self.slots().len() <= u32::MAX as nat + 1
        &&& forall|k: int|
            0 <= k < self.free_list().len() ==> {
                &&& (#[trigger] self.free_list()[k]) < self.slots().len()
                &&& self.slots()[self.free_list()[k] as int] is None
            }
        &&& forall|k: int, l: int|
            0 <= k < l < self.free_list().len() ==> #[trigger] self.free_list()[k]
                != #[trigger] self.free_list()[l]
        &&& self.free_list().len() + alive_count(self.slots()) == self.slots().len()
    }

    /// `next` is `prev` after a new agent of body `h`, shape `shape` and size
    /// `size` took slot `slot`: the most recently freed slot if there is one,
    /// a new slot at the end otherwise. No other slot changes.
    pub open spec fn allocated(prev: Self, next: Self, slot: u32, h: H, shape: ShapeKind, size: Z) -> bool {
        if prev.free_list().len() > 0 {
            &&& slot == prev.free_list().last()
            &&& next.free_list() == prev.free_list().drop_last()
            &&& next.slots() == prev.slots().update(slot as int, Some(h))
            &&& next.shapes() == prev.shapes().update(slot as int, shape)
            &&& next.sizes() == prev.sizes().update(slot as int, size)
        } else {
            &&& slot == prev.slots().len()
            &&& next.free_list() == prev.free_list()
            &&& next.slots() == prev.slots().push(Some(h))
            &&& next.shapes() == prev.shapes().push(shape)
            &&& next.sizes() == prev.sizes().push(size)
        }
    }

    /// `next` is `prev` after slot `slot` was emptied, if it held an agent;
    /// the slot goes to the end of the free list. Freeing a slot that holds
    /// nothing changes nothing.
    pub open spec fn freed(prev: Self, next: Self, slot: u32) -> bool {
        if slot < prev.slots().len() && prev.slots()[slot as int] is Some {
            &&& next.slots() == prev.slots().update(slot as int, None)
            &&& next.free_list() == prev.free_list().push(slot)
            &&& next.shapes() == prev.shapes()
            &&& next.sizes() == prev.sizes()
        } else {
            &&& next.slots() == prev.slots()
            &&& next.free_list() == prev.free_list()
            &&& next.shapes() == prev.shapes()
            &&& next.sizes() == prev.sizes()
        }
    }

    /// An empty table.
    pub fn new() -> (a: Self)
        ensures
            a.slots().len() == 0,
            a.free_list().len() == 0,
            a.shapes().len() == 0,
            a.sizes().len() == 0,
            a.consistent(),
    {
        Agents { handle: Vec::new(), shape: Vec::new(), size: Vec::new(), free: Vec::new() }
    }

    /// Gives a slot to a new agent and returns it. A freed slot is reused
    /// before the table grows.
    pub fn allocate(&mut self, handle: H, shape: ShapeKind, size: Z) -> (slot: u32)
        requires
            old(self).free_list().len() > 0 || old(self).slots().len() <= u32::MAX,
        ensures
            Self::allocated(*old(self), *final(self), slot, handle, shape, size),
            final(self).consistent(),
            slot < final(self).slots().len(),
            final(self).slots()[slot as int] == Some(handle),
            final(self).shapes()[slot as int] == shape,
            final(self).sizes()[slot as int] == size,
            old(self).free_list().len() == 0 ==> slot == old(self).slots().len(),
            forall|j: int|
                0 <= j < old(self).slots().len() && j != slot ==> {
                    &&& final(self).slots()[j] == old(self).slots()[j]
                    &&& final(self).shapes()[j] == old(self).shapes()[j]
                    &&& final(self).sizes()[j] == old(self).sizes()[j]
                },
    {
        proof {
            use_type_invariant(&*self);
        }
        let n_free = self.free.len();
        if n_free > 0 {
            let slot = self.free[n_free - 1];
            let ghost old_handle = self.handle@;
            let ghost old_free = self.free@;
            let i = slot as usize;
            let mut this = Agents::new();
            std::mem::swap(&mut this, self);
            let Agents { handle: mut handles, shape: mut shapes, size: mut sizes, free: mut free } =
                this;
            free.pop();
            handles.set(i, Some(handle));
            shapes.set(i, shape);
            sizes.set(i, size);
            proof {
                lemma_alive_count_update(old_handle, i as int, Some(handles@[i as int]->0));
                assert forall|k: int| 0 <= k < free@.len() implies {
                    &&& (#[trigger] free@[k]) < handles@.len()
                    &&& handles@[free@[k] as int] is None
                } by {
                    assert(free@[k] == old_free[k]);
                    assert(old_free[k] != old_free[old_free.len() - 1]);
                }
                assert forall|k: int, l: int| 0 <= k < l < free@.len() implies #[trigger] free@[k]
                    != #[trigger] free@[l] by {
                    assert(free@[k] == old_free[k] && free@[l] == old_free[l]);
                }
            }
            *self = Agents { handle: handles, shape: shapes, size: sizes, free };
            slot
        } else {
            let ghost old_handle = self.handle@;
            let mut this = Agents::new();
            std::mem::swap(&mut this, self);
            let Agents { handle: mut handles, shape: mut shapes, size: mut sizes, free: mut free } =
                this;
            let slot = handles.len() as u32;
            handles.push(Some(handle));
            shapes.push(shape);
            sizes.push(size);
            proof {
                lemma_alive_count_push(old_handle, Some(handles@.last()->0));
                assert(handles@.drop_last() =~= old_handle);
            }
            *self = Agents { handle: handles, shape: shapes, size: sizes, free };
            slot
        }
    }

    /// Empties a slot and returns the body that was in it, or `None` if the
    /// slot was already free or was never handed out.
    pub fn free_slot(&mut self, slot: u32) -> (h: Option<H>)
        ensures
            Self::freed(*old(self), *final(self), slot),
            final(self).consistent(),
            h == (if slot < old(self).slots().len() {
                old(self).slots()[slot as int]
            } else {
                None
            }),
    {
        proof {
            use_type_invariant(&*self);
        }
        let i = slot as usize;
        if i >= self.handle.len() {
            return None;
        }
        if self.handle[i].is_none() {
            return None;
        }
        let ghost old_handle = self.handle@;
        let ghost old_free = self.free@;
        let mut this = Agents::new();
        std::mem::swap(&mut this, self);
        let Agents { handle: mut handles, shape: shapes, size: sizes, free: mut free } = this;
        let mut taken: Option<H> = None;
        handles.set_and_swap(i, &mut taken);
        free.push(slot);
        proof {
            lemma_alive_count_update(old_handle, i as int, None);
            assert forall|k: int| 0 <= k < free@.len() implies {
                &&& (#[trigger] free@[k]) < handles@.len()
                &&& handles@[free@[k] as int] is None
            } by {
                if k < old_free.len() {
                    assert(free@[k] == old_free[k]);
                }
            }
            assert forall|k: int, l: int| 0 <= k < l < free@.len() implies #[trigger] free@[k]
                != #[trigger] free@[l] by {
                assert(free@[k] == old_free[k]);
                if l < old_free.len() {
                    assert(free@[l] == old_free[l]);
                }
            }
        }
        *self = Agents { handle: handles, shape: shapes, size: sizes, free };
        taken
    }

    /// Body of the agent in `slot`, or `None` if the slot is free or was never
    /// handed out.
    pub fn get(&self, slot: u32) -> (h: Option<H>) where H: Copy
        ensures
            h == (if slot < self.slots().len() {
                self.slots()[slot as int]
            } else {
                None
            }),
    {
        let i = slot as usize;
        if i < self.handle.len() {
            self.handle[i]
        } else {
            None
        }
    }

    /// Shape given to the agent that last held `slot`.
    pub fn shape(&self, slot: u32) -> (s: ShapeKind)
        requires
            slot < self.slots().len(),
        ensures
            s == self.shapes()[slot as int],
    {
        proof {
            use_type_invariant(self);
        }
        self.shape[slot as usize]
    }

    /// Size given to the agent that last held `slot`.
    pub fn size(&self, slot: u32) -> (z: &Z)
        requires
            slot < self.slots().len(),
        ensures
            *z == self.sizes()[slot as int],
    {
        proof {
            use_type_invariant(self);
        }
        &self.size[slot as usize]
    }

    /// Live agents, by increasing slot, each with its body.
    pub fn alive(&self) -> (v: Vec<(u32, H)>) where H: Copy
        ensures
            v@ == alive_pairs(self.slots()),
            forall|k: int|
                0 <= k < v@.len() ==> {
                    &&& (#[trigger] v@[k]).0 < self.slots().len()
                    &&& self.slots()[v@[k].0 as int] == Some(v@[k].1)
                },
            forall|k: int, l: int| 0 <= k < l < v@.len() ==> (#[trigger] v@[k]).0 < (#[trigger] v@[l]).0,
            forall|i: int|
                0 <= i < self.slots().len() && (#[trigger] self.slots()[i]) is Some ==> exists|k: int|
                    0 <= k < v@.len() && #[trigger] v@[k] == (i as u32, self.slots()[i]->0),
    {
        proof {
            use_type_invariant(self);
            lemma_alive_pairs_are_the_live_slots_in_order(self.handle@);
        }
        let n = self.handle.len();
        let mut v: Vec<(u32, H)> = Vec::new();
        let mut i: usize = 0;
        while i < n
            invariant
                n == self.handle@.len(),
                n <= u32::MAX as nat + 1,
                i <= n,
                v@ == alive_pairs(self.handle@.subrange(0, i as int)),
            decreases n - i,
        {
            proof {
                assert(self.handle@.subrange(0, i + 1).drop_last() =~= self.handle@.subrange(
                    0,
                    i as int,
                ));
            }
            match self.handle[i] {
                Some(h) => {
                    v.push((i as u32, h));
                },
                None => {},
            }
            i = i + 1;
        }
        proof {
            assert(self.handle@.subrange(0, n as int) =~= self.handle@);
        }
        v
    }

    /// Number of live agents.
    pub fn count(&self) -> (n: usize)
        ensures
            n == alive_count(self.slots()),
            self.consistent(),
    {
        proof {
            use_type_invariant(self);
        }
        self.handle.len() - self.free.len()
    }

    /// Slots ever handed out, live or not: the number of rows of the tensors
    /// indexed by slot.
    pub fn capacity(&self) -> (n: usize)
        ensures
            n == self.slots().len(),
    {
        self.handle.len()
    }

    /// Forgets every agent and every slot.
    pub fn clear(&mut self)
        ensures
            final(self).slots().len() == 0,
            final(self).free_list().len() == 0,
            final(self).shapes().len() == 0,
            final(self).sizes().len() == 0,
            final(self).consistent(),
    {
        *self = Agents::new();
    }
}

impl<H, Z> Default for Agents<H, Z> {
    fn default() -> (a: Self)
        ensures
            a.slots().len() == 0,
            a.free_list().len() == 0,
            a.shapes().len() == 0,
            a.sizes().len() == 0,
            a.consistent(),
    {
        Agents::new()
    }
}

/// Freed slots are reused, most recent first: the next agent created after a
/// live slot is emptied takes exactly that slot, and the table does not grow.
pub proof fn lemma_freed_slot_is_reused<H, Z>(
    a0: Agents<H, Z>,
    a1: Agents<H, Z>,
    a2: Agents<H, Z>,
    slot: u32,
    new_slot: u32,
    h: H,
    shape: ShapeKind,
    size: Z,
)
    requires
        slot < a0.slots().len(),
        a0.slots()[slot as int] is Some,
        Agents::freed(a0, a1, slot),
        Agents::allocated(a1, a2, new_slot, h, shape, size),
    ensures
        new_slot == slot,
        a2.slots().len() == a0.slots().len(),
        a2.slots()[slot as int] == Some(h),
{
}

/// Whatever slot an allocation hands out, reused or new, the table afterwards
/// holds at that slot exactly the body, shape and size it was given.
pub proof fn lemma_allocation_records_what_was_given<H, Z>(
    a0: Agents<H, Z>,
    a1: Agents<H, Z>,
    slot: u32,
    h: H,
    shape: ShapeKind,
    size: Z,
)
    requires
        a0.consistent(),
        Agents::allocated(a0, a1, slot, h, shape, size),
    ensures
        slot < a1.slots().len(),
        slot < a1.shapes().len(),
        slot < a1.sizes().len(),
        a1.slots()[slot as int] == Some(h),
        a1.shapes()[slot as int] == shape,
        a1.sizes()[slot as int] == size,
{
    if a0.free_list().len() > 0 {
        assert(a0.free_list()[a0.free_list().len() - 1] < a0.slots().len());
    }
}

/// A new agent never lands on a live one: the slot it takes was empty or new,
/// and every other slot keeps its agent.
pub proof fn lemma_alloc_spares_the_living<H, Z>(
    a0: Agents<H, Z>,
    a1: Agents<H, Z>,
    slot: u32,
    h: H,
    shape: ShapeKind,
    size: Z,
)
    requires
        a0.consistent(),
        Agents::allocated(a0, a1, slot, h, shape, size),
    ensures
        slot == a0.slots().len() || (slot < a0.slots().len() && a0.slots()[slot as int] is None),
        forall|i: int| 0 <= i < a0.slots().len() && i != slot ==> a1.slots()[i] == a0.slots()[i],
        alive_count(a1.slots()) == alive_count(a0.slots()) + 1,
{
    if a0.free_list().len() > 0 {
        let k = a0.free_list().len() - 1;
        assert(a0.free_list()[k] == slot);
        lemma_alive_count_update(a0.slots(), slot as int, Some(h));
    } else {
        lemma_alive_count_push(a0.slots(), Some(h));
    }
}

/// Removing an agent leaves one agent fewer, and a second removal of the same
/// slot changes nothing.
pub proof fn lemma_free_is_idempotent<H, Z>(a0: Agents<H, Z>, a1: Agents<H, Z>, a2: Agents<H, Z>, slot: u32)
    requires
        a0.consistent(),
        Agents::freed(a0, a1, slot),
        Agents::freed(a1, a2, slot),
    ensures
        a2.slots() == a1.slots(),
        a2.free_list() == a1.free_list(),
        slot < a0.slots().len() && a0.slots()[slot as int] is Some ==> alive_count(a1.slots())
            == alive_count(a0.slots()) - 1,
{
    if slot < a0.slots().len() && a0.slots()[slot as int] is Some {
        lemma_alive_count_update(a0.slots(), slot as int, None);
    }
}

} // verus!
