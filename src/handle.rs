use vstd::prelude::*;

verus! {

/// Index that no slot of a pool can have: it marks the "none" handle.
pub const NONE_INDEX: u32 = 0xffff_ffff;

/// A reference into a pool slot: the slot's index and the generation the slot
/// had when the referenced value was stored there.
#[derive(Clone, Copy, Debug, PartialEq, Eq, Hash, Structural)]
pub struct Handle {
    pub index: u32,
    pub generation: u32,
}

impl Handle {
    /// The handle that refers to nothing.
    pub open spec fn spec_none() -> Handle {
        Handle { index: NONE_INDEX, generation: 0 }
    }

    pub open spec fn spec_is_none(self) -> bool {
        self.index == NONE_INDEX
    }

    pub fn none() -> (r: Handle)
        ensures
            r == Handle::spec_none(),
    {
        Handle { index: NONE_INDEX, generation: 0 }
    }

    pub fn new(index: u32, generation: u32) -> (r: Handle)
        ensures
            r.index == index,
            r.generation == generation,
    {
        Handle { index, generation }
    }

    pub fn is_none(&self) -> (r: bool)
        ensures
            r == self.spec_is_none(),
    {
        self.index == NONE_INDEX
    }

    pub fn is_some(&self) -> (r: bool)
        ensures
            r == !self.spec_is_none(),
    {
        self.index != NONE_INDEX
    }

    pub fn get_index(&self) -> (r: u32)
        ensures
            r == self.index,
    {
        self.index
    }

    pub fn get_generation(&self) -> (r: u32)
        ensures
            r == self.generation,
    {
        self.generation
    }
}

} // verus!
