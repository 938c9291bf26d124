//! The buddy allocator's per-order free list.
//!
//! A bare-metal allocator would thread an intrusive doubly linked list
//! through the free blocks themselves.  Self-referential circular lists sit
//! badly under ownership rules, so the list is an explicit sequence of
//! block addresses instead: the head owns the addresses it links, and
//! membership and ordering are plain data that contracts can speak about.

use vstd::prelude::*;

verus! {

/// Position of the first occurrence of `x` in `s`; `s.len()` when absent.
pub open spec fn first_index(s: Seq<u64>, x: u64) -> int
    decreases s.len(),
{
    if s.len() == 0 {
        0
    } else if s[0] == x {
        0
    } else {
        1 + first_index(s.drop_first(), x)
    }
}

/// `s` with its first occurrence of `x` removed; `s` itself when absent.
pub open spec fn remove_first(s: Seq<u64>, x: u64) -> Seq<u64>
    decreases s.len(),
{
    if s.len() == 0 {
        s
    } else if s[0] == x {
        s.drop_first()
    } else {
        seq![s[0]] + remove_first(s.drop_first(), x)
    }
}

pub proof fn lemma_first_index_bounds(s: Seq<u64>, x: u64)
    ensures
        0 <= first_index(s, x) <= s.len(),
        first_index(s, x) < s.len() ==> s[first_index(s, x)] == x,
        forall|j: int| 0 <= j < first_index(s, x) ==> s[j] != x,
        s.contains(x) <==> first_index(s, x) < s.len(),
    decreases s.len(),
{
    if s.len() > 0 && s[0] != x {
        lemma_first_index_bounds(s.drop_first(), x);
        assert forall|j: int| 0 <= j < first_index(s, x) implies s[j] != x by {
            if j > 0 {
                assert(s.drop_first()[j - 1] == s[j]);
            }
        }
        if s.contains(x) {
            let w = choose|w: int| 0 <= w < s.len() && s[w] == x;
            assert(s.drop_first()[w - 1] == x);
            assert(s.drop_first().contains(x));
        }
        if first_index(s, x) < s.len() {
            assert(s.drop_first().contains(x));
        }
    }
}

pub proof fn lemma_remove_first_is_remove_at(s: Seq<u64>, x: u64)
    requires
        s.contains(x),
    ensures
        remove_first(s, x) == s.remove(first_index(s, x)),
    decreases s.len(),
{
    lemma_first_index_bounds(s, x);
    if s[0] == x {
        assert(remove_first(s, x) =~= s.remove(0));
    } else {
        let st = s.drop_first();
        assert(st.contains(x)) by {
            let w = choose|w: int| 0 <= w < s.len() && s[w] == x;
            assert(st[w - 1] == x);
        }
        lemma_remove_first_is_remove_at(st, x);
        lemma_first_index_bounds(st, x);
        assert(remove_first(s, x) =~= s.remove(first_index(s, x)));
    }
}

/// Every element of `remove_first(s, x)` occurs in `s`.
pub proof fn lemma_remove_first_subset(s: Seq<u64>, x: u64)
    ensures
        forall|j: int|
            0 <= j < remove_first(s, x).len() ==> s.contains(#[trigger] remove_first(s, x)[j]),
        remove_first(s, x).len() >= s.len() - 1,
        s.contains(x) ==> remove_first(s, x).len() == s.len() - 1,
        !s.contains(x) ==> remove_first(s, x) == s,
    decreases s.len(),
{
    lemma_first_index_bounds(s, x);
    if s.len() == 0 {
    } else if s[0] == x {
        assert forall|j: int| 0 <= j < remove_first(s, x).len() implies s.contains(
            #[trigger] remove_first(s, x)[j],
        ) by {
            assert(remove_first(s, x)[j] == s[j + 1]);
        }
    } else {
        let st = s.drop_first();
        lemma_remove_first_subset(st, x);
        assert forall|j: int| 0 <= j < remove_first(s, x).len() implies s.contains(
            #[trigger] remove_first(s, x)[j],
        ) by {
            if j == 0 {
                assert(remove_first(s, x)[0] == s[0]);
            } else {
                assert(remove_first(s, x)[j] == remove_first(st, x)[j - 1]);
                let w = choose|w: int| 0 <= w < st.len() && st[w] == remove_first(st, x)[j - 1];
                assert(s[w + 1] == st[w]);
            }
        }
        if s.contains(x) {
            let w = choose|w: int| 0 <= w < s.len() && s[w] == x;
            assert(st[w - 1] == x);
        }
        if !s.contains(x) {
            assert(!st.contains(x)) by {
                if st.contains(x) {
                    let w = choose|w: int| 0 <= w < st.len() && st[w] == x;
                    assert(s[w + 1] == x);
                }
            }
            assert(remove_first(s, x) =~= s);
        }
    }
}

/// A list of block addresses, used as a free list.
pub struct DoublyListHead {
    items: Vec<u64>,
}

impl View for DoublyListHead {
    type V = Seq<u64>;

    closed spec fn view(&self) -> Seq<u64> {
        self.items@
    }
}

impl DoublyListHead {
    /// Create an empty list.
    pub fn new_empty() -> (r: Self)
        ensures
            r@ == Seq::<u64>::empty(),
    {
        DoublyListHead { items: Vec::new() }
    }

    /// Check if the list is empty.
    pub fn is_empty(&self) -> (r: bool)
        ensures
            r == (self@.len() == 0),
    {
        self.items.len() == 0
    }

    /// The entry right after the head.
    pub fn first(&self) -> (r: u64)
        requires
            self@.len() > 0,
        ensures
            r == self@[0],
    {
        self.items[0]
    }

    /// Insert a new entry right after the head.
    pub fn insert_after(&mut self, addr: u64)
        ensures
            final(self)@ == seq![addr] + old(self)@,
    {
        self.items.insert(0, addr);
        assert(self@ =~= seq![addr] + old(self)@);
    }

    /// Insert a new entry at the tail, right before the head.
    pub fn insert_before(&mut self, addr: u64)
        ensures
            final(self)@ == old(self)@.push(addr),
    {
        self.items.push(addr);
    }

    /// Remove the first entry holding `addr` from the list.
    pub fn delete(&mut self, addr: u64)
        requires
            old(self)@.contains(addr),
        ensures
            final(self)@ == remove_first(old(self)@, addr),
    {
        proof {
            lemma_first_index_bounds(self@, addr);
            lemma_remove_first_is_remove_at(self@, addr);
        }
        let ghost target = first_index(self.items@, addr);
        let n = self.items.len();
        let mut i: usize = 0;
        while self.items[i] != addr
            invariant
                self.items@.len() == n,
                0 <= i <= target < self.items@.len(),
                forall|j: int| 0 <= j < i ==> self.items@[j] != addr,
                target == first_index(self.items@, addr),
                self.items@[target] == addr,
            decreases self.items@.len() - i,
        {
            assert(i < target);
            i = i + 1;
        }
        assert(i == target) by {
            lemma_first_index_bounds(self.items@, addr);
        }
        self.items.remove(i);
    }
}

} // verus!
