//! Auto-incrementing identifiers for component instances and for the stores
//! that own them.

use vstd::prelude::*;

verus! {

/// One sequence number handed out by an `Allocator`.
#[derive(Copy, Clone, Debug, PartialEq, Eq, Structural, Hash)]
pub struct Id {
    pub id: u32,
}

/// A monotonic counter; every `allocate` returns a number never returned before.
pub struct Allocator {
    new_id: u32,
}

impl Allocator {
    /// The number that the next `allocate` returns.
    pub closed spec fn next(&self) -> nat {
        self.new_id as nat
    }

    /// Whether another number can still be handed out.
    pub open spec fn can_allocate(&self) -> bool {
        self.next() < u32::MAX
    }

    pub fn new() -> (r: Allocator)
        ensures
            r.next() == 1,
    {
        Allocator { new_id: 1 }
    }

    pub fn has_capacity(&self) -> (r: bool)
        ensures
            r == self.can_allocate(),
    {
        self.new_id < u32::MAX
    }

    pub fn allocate(&mut self) -> (r: Id)
        requires
            old(self).can_allocate(),
        ensures
            r.id == old(self).next(),
            final(self).next() == old(self).next() + 1,
    {
        let id = self.new_id;
        self.new_id = self.new_id + 1;
        Id { id }
    }
}

/// Identifies one component instance: the store that minted it and the
/// sequence number within that store.
#[derive(Copy, Clone, Debug, PartialEq, Eq, Structural, Hash)]
pub struct ComponentKey {
    pub instance: Id,
    pub local: Id,
}

impl ComponentKey {
    /// A key that no store ever mints (sequence numbers start at one).
    pub fn placeholder() -> (r: ComponentKey)
        ensures
            r.instance.id == 0,
            r.local.id == 0,
    {
        ComponentKey { instance: Id { id: 0 }, local: Id { id: 0 } }
    }
}

} // verus!
