//! Generational identifiers for layout nodes. A freed slot number may be
//! handed out again, but always with a higher generation, so a stale handle
//! never equals a fresh one.

use vstd::prelude::*;

verus! {

/// A slot number together with the generation it was issued in.
#[derive(Copy, Clone, Debug, PartialEq, Eq, Structural, Hash)]
pub struct Id {
    pub id: u32,
    pub generation: u32,
}

/// Hands out generational ids, reusing freed slots first (last freed, first reused).
pub struct Allocator {
    new_id: u32,
    free_ids: Vec<Id>,
}

impl Allocator {
    /// The slot number that a fresh (not reused) id gets next.
    pub closed spec fn next(&self) -> nat {
        self.new_id as nat
    }

    /// The ids freed and not yet reused, in the order they were freed.
    pub closed spec fn freed(&self) -> Seq<Id> {
        self.free_ids@
    }

    /// Whether `allocate` can proceed without overflowing a counter.
    pub open spec fn can_allocate(&self) -> bool {
        if self.freed().len() > 0 {
            self.freed().last().generation < u32::MAX
        } else {
            self.next() < u32::MAX
        }
    }

    pub fn new() -> (r: Allocator)
        ensures
            r.next() == 0,
            r.freed().len() == 0,
    {
        Allocator { new_id: 0, free_ids: Vec::new() }
    }

    pub fn has_capacity(&self) -> (r: bool)
        ensures
            r == self.can_allocate(),
    {
        if self.free_ids.len() > 0 {
            self.free_ids[self.free_ids.len() - 1].generation < u32::MAX
        } else {
            self.new_id < u32::MAX
        }
    }

    /// Reuses the most recently freed slot with its generation raised by
    /// one, or else issues the next fresh slot with generation zero.
    pub fn allocate(&mut self) -> (r: Id)
        requires
            old(self).can_allocate(),
        ensures
            old(self).freed().len() > 0 ==> {
                &&& r.id == old(self).freed().last().id
                &&& r.generation == old(self).freed().last().generation + 1
                &&& final(self).freed() == old(self).freed().drop_last()
                &&& final(self).next() == old(self).next()
            },
            old(self).freed().len() == 0 ==> {
                &&& r.id == old(self).next()
                &&& r.generation == 0
                &&& final(self).freed() == old(self).freed()
                &&& final(self).next() == old(self).next() + 1
            },
    {
        match self.free_ids.pop() {
            Some(id) => Id { id: id.id, generation: id.generation + 1 },
            None => {
                let id = self.new_id;
                self.new_id = self.new_id + 1;
                Id { id, generation: 0 }
            },
        }
    }

    /// Returns the given ids to the pool, after those already freed.
    pub fn free(&mut self, ids: &[Id])
        requires
            old(self).freed().len() + ids@.len() <= usize::MAX,
        ensures
            final(self).freed() == old(self).freed() + ids@,
            final(self).next() == old(self).next(),
    {
        let mut i: usize = 0;
        while i < ids.len()
            invariant
                0 <= i <= ids@.len(),
                self.freed() == old(self).freed() + ids@.subrange(0, i as int),
                self.next() == old(self).next(),
                old(self).freed().len() + ids@.len() <= usize::MAX,
            decreases ids@.len() - i,
        {
            self.free_ids.push(ids[i]);
            i = i + 1;
            assert(ids@.subrange(0, i as int) == ids@.subrange(0, i - 1) + seq![ids@[i - 1]]);
        }
        assert(ids@.subrange(0, ids@.len() as int) == ids@);
    }
}

} // verus!
