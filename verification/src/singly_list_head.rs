//! The slab allocator's object free list.
//!
//! A bare-metal allocator would link freed objects through their own first
//! word; here the list is an explicit sequence of object addresses.

use vstd::prelude::*;

verus! {

/// A singly linked list of object addresses.
pub struct SinglyListHead {
    items: Vec<u64>,
}

impl View for SinglyListHead {
    type V = Seq<u64>;

    closed spec fn view(&self) -> Seq<u64> {
        self.items@
    }
}

impl SinglyListHead {
    /// Create a new empty list.
    pub fn new() -> (r: Self)
        ensures
            r@ == Seq::<u64>::empty(),
    {
        SinglyListHead { items: Vec::new() }
    }

    /// Check if the list is empty.
    pub fn is_empty(&self) -> (r: bool)
        ensures
            r == (self@.len() == 0),
    {
        self.items.len() == 0
    }

    /// Insert a new entry after this head.
    pub fn insert_after(&mut self, addr: u64)
        ensures
            final(self)@ == seq![addr] + old(self)@,
    {
        self.items.insert(0, addr);
        assert(self@ =~= seq![addr] + old(self)@);
    }

    /// Pop and return the entry after this head, if any.
    pub fn pop(&mut self) -> (r: Option<u64>)
        ensures
            match r {
                Some(a) => old(self)@.len() > 0 && a == old(self)@[0] && final(self)@ == old(
                    self,
                )@.drop_first(),
                None => old(self)@.len() == 0 && final(self)@ == old(self)@,
            },
    {
        if self.items.len() == 0 {
            None
        } else {
            let a = self.items.remove(0);
            assert(self@ =~= old(self)@.drop_first());
            Some(a)
        }
    }
}

} // verus!
