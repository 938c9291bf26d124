//! Coalescing bitmaps for the buddy allocator, backed by `bitvec`.
//!
//! The buddy allocator keeps one bit per buddy pair at every order.  The bits
//! are stored in a `bitvec::vec::BitVec`, which Verus cannot look into, so the
//! vector is held in an opaque struct and its contents are named by
//! [`bitmap_bits`]; the accessors below carry the contracts the allocator's
//! proofs rest on.  Positions are passed as `u64`; every position a caller
//! may pass is below the length, which a `BitVec` keeps within `usize`.

use vstd::prelude::*;
use bitvec::order::Lsb0;
use bitvec::vec::BitVec;

verus! {

/// A growable vector of bits.
#[verifier::external_body]
pub(crate) struct Bitmap {
    bits: BitVec<u8, Lsb0>,
}

/// The sequence of bits a [`Bitmap`] holds.
pub uninterp spec fn bitmap_bits(b: Bitmap) -> Seq<bool>;

impl View for Bitmap {
    type V = Seq<bool>;

    open spec fn view(&self) -> Seq<bool> {
        bitmap_bits(*self)
    }
}

impl Bitmap {
    /// Relies on bitvec's `BitVec::repeat`: a vector of `len` copies of the
    /// given bit.
    #[verifier::external_body]
    pub(crate) fn new_zeroed(len: u64) -> (r: Bitmap)
        requires
            len <= usize::MAX / 8,
        ensures
            bitmap_bits(r) == Seq::new(len as nat, |i: int| false),
    {
        Bitmap { bits: BitVec::repeat(false, len as usize) }
    }

    /// Relies on bitvec's bit indexing: the bit at position `idx`.
    #[verifier::external_body]
    pub(crate) fn get(&self, idx: u64) -> (r: bool)
        requires
            idx < bitmap_bits(*self).len(),
            bitmap_bits(*self).len() <= usize::MAX,
        ensures
            r == bitmap_bits(*self)[idx as int],
    {
        self.bits[idx as usize]
    }

    /// Relies on bitvec's `BitSlice::set`: replaces the bit at position
    /// `idx`, leaving every other bit unchanged.
    #[verifier::external_body]
    pub(crate) fn set(&mut self, idx: u64, value: bool)
        requires
            idx < bitmap_bits(*old(self)).len(),
            bitmap_bits(*old(self)).len() <= usize::MAX,
        ensures
            bitmap_bits(*final(self)) == bitmap_bits(*old(self)).update(idx as int, value),
    {
        self.bits.set(idx as usize, value);
    }
}

} // verus!
