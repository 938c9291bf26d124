//! Small address-arithmetic helpers shared by the allocators and the
//! address-space manager.

use vstd::prelude::*;
use vstd::arithmetic::power2::{pow2, lemma_pow2_adds, lemma_pow2_strictly_increases, lemma2_to64};
use vstd::arithmetic::div_mod::{lemma_fundamental_div_mod, lemma_mod_multiples_basic};
use vstd::arithmetic::mul::lemma_mul_is_commutative;

use crate::consts::PHYS_MEM_OFFSET;

verus! {

/// Convert a physical address to a virtual address (in the direct mapping).
pub fn p2v(addr: u64) -> (r: u64)
    requires
        addr + PHYS_MEM_OFFSET <= u64::MAX,
    ensures
        r == addr + PHYS_MEM_OFFSET,
{
    addr + PHYS_MEM_OFFSET
}

/// Convert a virtual address (in the direct mapping) to a physical address.
pub fn v2p(addr: u64) -> (r: u64)
    requires
        addr >= PHYS_MEM_OFFSET,
    ensures
        r == addr - PHYS_MEM_OFFSET,
{
    addr - PHYS_MEM_OFFSET
}

/// Round `addr` down to the nearest multiple of `align`.
pub fn align_down(addr: u64, align: u64) -> (r: u64)
    requires
        align >= 1,
    ensures
        r == addr - (addr % align),
        r % align == 0,
        r <= addr,
        addr < r + align,
{
    proof {
        lemma_fundamental_div_mod(addr as int, align as int);
        lemma_mul_is_commutative(align as int, addr as int / align as int);
        lemma_mod_multiples_basic(addr as int / align as int, align as int);
    }
    addr / align * align
}

/// Round `addr` up to the nearest multiple of `align`.
pub fn align_up(addr: u64, align: u64) -> (r: u64)
    requires
        align >= 1,
        addr + align - 1 <= u64::MAX,
    ensures
        r == (addr + align - 1) - (addr + align - 1) % (align as int),
        r % align == 0,
        addr <= r,
        r < addr + align,
{
    align_down(addr + (align - 1), align)
}

/// Floor of the base-2 logarithm: the largest `r` with `pow2(r) <= x`.
pub fn log2_floor(x: u64) -> (r: usize)
    requires
        x >= 1,
    ensures
        pow2(r as nat) <= x < pow2(r as nat + 1),
        r <= 63,
{
    let mut r: usize = 0;
    let mut p: u64 = 1;
    proof {
        lemma2_to64();
    }
    while p <= x / 2
        invariant
            1 <= x,
            p == pow2(r as nat),
            p <= x,
            r <= 63,
        decreases 63 - r,
    {
        proof {
            lemma_pow2_adds(r as nat, 1);
            lemma2_to64();
            if r >= 63 {
                lemma_pow2_strictly_increases(64, r as nat + 1);
            }
        }
        p = p * 2;
        r = r + 1;
    }
    proof {
        lemma_pow2_adds(r as nat, 1);
        lemma2_to64();
    }
    r
}

/// Ceiling of the base-2 logarithm, as a mathematical function.
pub open spec fn log2_ceil_spec(x: nat) -> nat
    decreases x,
{
    if x <= 1 {
        0
    } else {
        1 + log2_ceil_spec((x + 1) / 2)
    }
}

/// `log2_ceil_spec(x)` is the smallest exponent whose power of two reaches `x`.
pub proof fn lemma_log2_ceil_spec_bracket(x: nat)
    requires
        x >= 1,
    ensures
        x <= pow2(log2_ceil_spec(x)),
        log2_ceil_spec(x) > 0 ==> pow2((log2_ceil_spec(x) - 1) as nat) < x,
    decreases x,
{
    lemma2_to64();
    if x > 1 {
        let h = (x + 1) / 2;
        lemma_log2_ceil_spec_bracket(h);
        lemma_pow2_adds((log2_ceil_spec(x) - 1) as nat, 1);
        if log2_ceil_spec(x) > 1 {
            lemma_pow2_adds((log2_ceil_spec(x) - 2) as nat, 1);
        }
    }
}

proof fn lemma_log2_ceil_unique(x: nat, r: nat)
    requires
        x >= 1,
        x <= pow2(r),
        r > 0 ==> pow2((r - 1) as nat) < x,
    ensures
        r == log2_ceil_spec(x),
{
    let l = log2_ceil_spec(x);
    lemma_log2_ceil_spec_bracket(x);
    if r < l {
        lemma_pow2_le(r, (l - 1) as nat);
        assert(pow2(r) <= pow2((l - 1) as nat));
    } else if r > l {
        lemma_pow2_le(l, (r - 1) as nat);
    }
}

proof fn lemma_pow2_le(a: nat, b: nat)
    requires
        a <= b,
    ensures
        pow2(a) <= pow2(b),
{
    if a < b {
        lemma_pow2_strictly_increases(a, b);
    }
}

/// Ceiling of the base-2 logarithm: the smallest `r` with `x <= pow2(r)`.
pub fn log2_ceil(x: u64) -> (r: usize)
    requires
        x >= 1,
    ensures
        r == log2_ceil_spec(x as nat),
        x <= pow2(r as nat),
        r > 0 ==> pow2((r - 1) as nat) < x,
        r <= 64,
{
    let f = log2_floor(x);
    let mut p: u64 = 1;
    let mut i: usize = 0;
    proof {
        lemma2_to64();
    }
    while i < f
        invariant
            i <= f,
            f <= 63,
            p == pow2(i as nat),
        decreases f - i,
    {
        proof {
            lemma_pow2_adds(i as nat, 1);
            lemma2_to64();
            if ((i as nat) + 1) < 64 {
                lemma_pow2_strictly_increases(i as nat + 1, 64);
            }
        }
        p = p * 2;
        i = i + 1;
    }
    if p == x {
        proof {
            if f > 0 {
                lemma_pow2_strictly_increases((f - 1) as nat, f as nat);
            }
            lemma_log2_ceil_unique(x as nat, f as nat);
        }
        f
    } else {
        proof {
            lemma_pow2_adds(f as nat, 1);
            lemma_log2_ceil_unique(x as nat, f as nat + 1);
        }
        f + 1
    }
}

/// Check that `a + b <= upper_bound`, returning the sum when it holds.
pub fn add_within_bounds(a: u64, b: u64, upper_bound: u64) -> (r: Option<u64>)
    ensures
        match r {
            Some(s) => a + b <= upper_bound && s == a + b,
            None => a + b > upper_bound,
        },
{
    if a <= upper_bound && b <= upper_bound - a {
        Some(a + b)
    } else {
        None
    }
}

} // verus!
