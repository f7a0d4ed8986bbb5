use vstd::prelude::*;
use crate::handle::{Handle, NONE_INDEX};

verus! {

/// Largest generation a slot reaches; a slot freed at this generation is
/// retired for good, so that no generation is ever handed out twice.
pub const MAX_GENERATION: u32 = 0xffff_ffff;

/// Failure of a pool access: the handle is none, out of range, or stale.
#[derive(Clone, Copy, Debug, PartialEq, Eq, Structural)]
pub enum PoolError {
    Dangling,
}

/// One entry of the table: its current generation, and the value if it
/// holds one.
pub(crate) struct Slot<T> {
    pub generation: u32,
    pub value: Option<T>,
}

/// A slot table handing out handles that detect use after free: freeing a
/// value bumps its slot's generation, so older handles to the slot go stale.
pub struct Pool<T> {
    pub(crate) slots: Vec<Slot<T>>,
}

impl<T> Pool<T> {
    /// The slot table is addressable by `u32` indices other than the none
    /// index, and every generation in use is at least 1.
    pub closed spec fn wf(self) -> bool {
        &&& self.slots@.len() < NONE_INDEX
        &&& forall|i: int| 0 <= i < self.slots@.len() ==> #[trigger] self.slots@[i].generation >= 1
    }

    /// `h` refers to a value held by the pool.
    pub closed spec fn live(self, h: Handle) -> bool {
        &&& (h.index as int) < self.slots@.len()
        &&& self.slots@[h.index as int].generation == h.generation
        &&& self.slots@[h.index as int].value is Some
    }

    /// `h` may have been handed out by this pool: its generation is one its
    /// slot has had. A handle that was never handed out is not issued, and
    /// handles stay issued for good.
    pub closed spec fn issued(self, h: Handle) -> bool {
        &&& (h.index as int) < self.slots@.len()
        &&& 1 <= h.generation <= self.slots@[h.index as int].generation
    }

    /// Every valid handle has been issued.
    pub proof fn lemma_live_issued(self, h: Handle)
        requires
            self.wf(),
            self.view().contains_key(h),
        ensures
            self.issued(h),
    {
    }

    pub closed spec fn view(self) -> Map<Handle, T> {
        Map::new(|h: Handle| self.live(h), |h: Handle| self.slots@[h.index as int].value->Some_0)
    }

    pub closed spec fn spec_slot_count(self) -> nat {
        self.slots@.len()
    }

    pub fn new() -> (r: Pool<T>)
        ensures
            r.wf(),
            r.view() == Map::<Handle, T>::empty(),
            r.spec_slot_count() == 0,
    {
        let r = Pool { slots: Vec::new() };
        assert(r.view() =~= Map::<Handle, T>::empty());
        r
    }

    /// Number of slots, used or free.
    pub fn slot_count(&self) -> (r: usize)
        ensures
            r == self.spec_slot_count(),
            forall|h: Handle| #[trigger] self.view().contains_key(h) ==> (h.index as int) < r,
    {
        self.slots.len()
    }

    pub fn is_valid(&self, h: Handle) -> (r: bool)
        ensures
            r == self.view().contains_key(h),
    {
        if (h.index as usize) < self.slots.len() {
            let slot = &self.slots[h.index as usize];
            slot.generation == h.generation && slot.value.is_some()
        } else {
            false
        }
    }

    /// Stores `value` in a free slot, or in a new slot when none is free, and
    /// returns a handle that was not valid before.
    pub fn allocate(&mut self, value: T) -> (h: Handle)
        requires
            old(self).wf(),
            old(self).spec_slot_count() + 1 < NONE_INDEX,
        ensures
            final(self).wf(),
            !h.spec_is_none(),
            !old(self).view().contains_key(h),
            !old(self).issued(h),
            final(self).issued(h),
            forall|g: Handle| #[trigger] old(self).issued(g) ==> final(self).issued(g),
            final(self).view() == old(self).view().insert(h, value),
            final(self).spec_slot_count() <= old(self).spec_slot_count() + 1,
    {
        let n = self.slots.len();
        let mut i: usize = 0;
        while i < n
            invariant
                n == self.slots@.len(),
                self.wf(),
                old(self).wf(),
                *self == *old(self),
                old(self).spec_slot_count() + 1 < NONE_INDEX,
                forall|j: int|
                    0 <= j < i ==> #[trigger] self.slots@[j].value is Some
                        || self.slots@[j].generation == MAX_GENERATION,
            decreases n - i,
        {
            if self.slots[i].value.is_none() && self.slots[i].generation < MAX_GENERATION {
                let g = self.slots[i].generation + 1;
                let ghost pre = *self;
                self.slots.set(i, Slot { generation: g, value: Some(value) });
                let h = Handle { index: i as u32, generation: g };
                assert(self.view() =~= pre.view().insert(h, value));
                return h;
            }
            i += 1;
        }
        let ghost pre = *self;
        self.slots.push(Slot { generation: 1, value: Some(value) });
        let h = Handle { index: n as u32, generation: 1 };
        assert(self.view() =~= pre.view().insert(h, value));
        h
    }

    /// Takes the value out of the pool; its slot's generation moves on, so
    /// `h` and every older handle to the slot are stale from then on.
    pub fn free(&mut self, h: Handle) -> (r: Result<T, PoolError>)
        requires
            old(self).wf(),
        ensures
            final(self).wf(),
            final(self).spec_slot_count() == old(self).spec_slot_count(),
            forall|g: Handle| #[trigger] old(self).issued(g) ==> final(self).issued(g),
            old(self).view().contains_key(h) ==> r == Ok::<T, PoolError>(old(self).view()[h])
                && final(self).view() == old(self).view().remove(h),
            !old(self).view().contains_key(h) ==> r == Err::<T, PoolError>(PoolError::Dangling)
                && final(self).view() == old(self).view(),
    {
        if !self.is_valid(h) {
            return Err(PoolError::Dangling);
        }
        let i = h.index as usize;
        let ghost pre = *self;
        let g = if h.generation < MAX_GENERATION { h.generation + 1 } else { MAX_GENERATION };
        let mut slot = Slot { generation: g, value: None };
        let slot_ref = &mut self.slots[i];
        core::mem::swap(slot_ref, &mut slot);
        assert(self.view() =~= pre.view().remove(h));
        match slot.value {
            Some(v) => Ok(v),
            None => Err(PoolError::Dangling),
        }
    }

    pub fn get(&self, h: Handle) -> (r: Result<&T, PoolError>)
        ensures
            self.view().contains_key(h) ==> r == Ok::<&T, PoolError>(&self.view()[h]),
            !self.view().contains_key(h) ==> r == Err::<&T, PoolError>(PoolError::Dangling),
    {
        if self.is_valid(h) {
            match &self.slots[h.index as usize].value {
                Some(v) => Ok(v),
                None => Err(PoolError::Dangling),
            }
        } else {
            Err(PoolError::Dangling)
        }
    }

    /// The handle of the value held in slot `i`, if the slot holds one.
    pub fn handle_at(&self, i: usize) -> (r: Option<Handle>)
        requires
            self.wf(),
        ensures
            r is Some ==> self.view().contains_key(r->Some_0) && r->Some_0.index == i,
            r is Some ==> forall|h: Handle| h.index == i && #[trigger] self.view().contains_key(h) ==> h == r->Some_0,
            r is None ==> forall|h: Handle| h.index == i ==> !#[trigger] self.view().contains_key(h),
    {
        if i < self.slots.len() && self.slots[i].value.is_some() {
            Some(Handle { index: i as u32, generation: self.slots[i].generation })
        } else {
            None
        }
    }

    /// Mutable access to the value `h` addresses, or `Dangling` for a none or
    /// stale handle.
    pub fn get_mut(&mut self, h: Handle) -> (r: Result<&mut T, PoolError>)
        requires
            old(self).wf(),
        ensures
            final(self).wf(),
            final(self).spec_slot_count() == old(self).spec_slot_count(),
            forall|g: Handle| #[trigger] final(self).issued(g) == old(self).issued(g),
            !old(self).view().contains_key(h) ==> r is Err && r->Err_0 == PoolError::Dangling
                && final(self).view() == old(self).view(),
            old(self).view().contains_key(h) ==> r is Ok,
            r matches Ok(v) ==> *v == old(self).view()[h] && final(self).view() == old(self).view().insert(h, *final(v)),
    {
        if self.is_valid(h) {
            Ok(self.get_live_mut(h))
        } else {
            Err(PoolError::Dangling)
        }
    }

    /// Mutable access to a value the pool holds.
    pub(crate) fn get_live_mut(&mut self, h: Handle) -> (r: &mut T)
        requires
            old(self).wf(),
            old(self).view().contains_key(h),
        ensures
            *r == old(self).view()[h],
            final(self).wf(),
            final(self).view() == old(self).view().insert(h, *final(r)),
            final(self).spec_slot_count() == old(self).spec_slot_count(),
            forall|g: Handle| #[trigger] final(self).issued(g) == old(self).issued(g),
    {
        let slot = &mut self.slots[h.index as usize];
        match &mut slot.value {
            Some(v) => v,
            None => vstd::pervasive::unreached(),
        }
    }
}

/// A handle that was freed stays stale: a later `allocate` hands out a handle
/// that was never issued, so it cannot bring the freed one back.
pub proof fn lemma_freed_stays_stale<T>(before: Pool<T>, after: Pool<T>, h: Handle, h1: Handle, v: T)
    requires
        before.issued(h),
        !before.view().contains_key(h),
        !before.issued(h1),
        after.view() == before.view().insert(h1, v),
        forall|g: Handle| #[trigger] before.issued(g) ==> after.issued(g),
    ensures
        h1 != h,
        after.issued(h),
        !after.view().contains_key(h),
{
}

} // verus!
