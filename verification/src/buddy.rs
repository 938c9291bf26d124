//! Binary buddy page-frame allocator.
//!
//! The allocator manages one contiguous, direct-mapped memory region.  Blocks
//! come in orders 0..=10 (4 KiB .. 4 MiB); each order keeps a free list of
//! same-order free blocks and one coalescing bit per buddy pair.  Top-order
//! blocks are carved from the never-yet-used tail of the region by a bump
//! offset.
//!
//! The abstract state is a [`BuddyModel`]: the bump offset, and per order the
//! sequence of free-block addresses and the bit sequence.  [`spec_alloc`] and
//! [`spec_free`] define the transition relation; the executable methods
//! return exactly what those functions prescribe.  Well-formedness
//! ([`buddy_wf`]) ties the bits to the parity of free pair members and keeps
//! all free blocks aligned, in range, and pairwise disjoint.

use vstd::prelude::*;
use vstd::arithmetic::power2::{pow2, lemma_pow2_adds, lemma2_to64, lemma_pow2_pos};
use vstd::arithmetic::div_mod::{
    lemma_fundamental_div_mod, lemma_fundamental_div_mod_converse, lemma_mod_multiples_basic,
    lemma_div_is_ordered, lemma_div_pos_is_pos, lemma_multiply_divide_lt,
};
use vstd::arithmetic::mul::{lemma_mul_is_commutative, lemma_mul_inequality};

use crate::bitmap::{Bitmap, bitmap_bits};
use crate::consts::{PAGE_SIZE, PHYS_MEM_OFFSET};
use crate::doubly_list_head::{DoublyListHead, remove_first, lemma_remove_first_subset,
    lemma_remove_first_is_remove_at, lemma_first_index_bounds, first_index};
use crate::helper::{align_up, log2_ceil, log2_ceil_spec};

verus! {

pub const MAX_ORDER: usize = 10;

/// Bytes spanned by one top-order block: `PAGE_SIZE` times 2^`MAX_ORDER`.
pub const SIZE_OF_MAX_ORDER: u64 = 4096 * 1024;

/// Upper bound on direct-mapped physical memory: 2^46 bytes, comfortably
/// inside the direct-mapping window of the higher half.
pub const PHYS_SPAN_LIMIT: u64 = 0x400000000000;

/// Bytes spanned by one block of the given order.
pub open spec fn block_size(order: nat) -> nat {
    PAGE_SIZE as nat * pow2(order)
}

/// Index of the coalescing bit for the buddy pair that `addr` belongs to.
pub open spec fn pair_index(base: u64, addr: u64, order: nat) -> int {
    (addr - base) / (2 * block_size(order) as int)
}

/// The other same-order block forming a next-order block together with `addr`.
pub open spec fn buddy_addr(base: u64, addr: u64, order: nat) -> int {
    if ((addr - base) / (block_size(order) as int)) % 2 == 0 {
        addr + block_size(order)
    } else {
        addr - block_size(order)
    }
}

/// One order's free list and coalescing bits.
#[verifier::ext_equal]
pub ghost struct BucketModel {
    pub free_list: Seq<u64>,
    pub bits: Seq<bool>,
}

/// Abstract state of the buddy allocator.
#[verifier::ext_equal]
pub ghost struct BuddyModel {
    pub base: u64,
    pub len: u64,
    pub used: u64,
    pub buckets: Seq<BucketModel>,
}

/// How many members of the pair `p` at `order` are on the sequence `s`.
pub open spec fn pair_count(s: Seq<u64>, base: u64, order: nat, p: int) -> nat
    decreases s.len(),
{
    if s.len() == 0 {
        0
    } else {
        (if pair_index(base, s[0], order) == p {
            1nat
        } else {
            0nat
        }) + pair_count(s.drop_first(), base, order, p)
    }
}

/// `bk` with the coalescing bit of `addr`'s pair toggled.
pub open spec fn toggled(bk: BucketModel, base: u64, addr: u64, order: nat) -> BucketModel {
    let p = pair_index(base, addr, order);
    BucketModel { free_list: bk.free_list, bits: bk.bits.update(p, !bk.bits[p]) }
}

/// A block address of the given order that lies, aligned, inside the carved
/// part of the region.
pub open spec fn valid_block(m: BuddyModel, addr: u64, order: nat) -> bool {
    &&& m.base <= addr
    &&& (addr - m.base) % (block_size(order) as int) == 0
    &&& addr + block_size(order) <= m.base + m.used
}

/// The byte intervals `[a1, a1+s1)` and `[a2, a2+s2)` do not intersect.
pub open spec fn intervals_disjoint(a1: u64, s1: nat, a2: u64, s2: nat) -> bool {
    a1 + s1 <= a2 || a2 + s2 <= a1
}

/// `addr` is on the free list of the given order.
pub open spec fn listed(m: BuddyModel, addr: u64, order: nat) -> bool {
    m.buckets[order as int].free_list.contains(addr)
}

/// The interval of the order-`order` block at `addr` intersects no free block.
pub open spec fn block_unlisted(m: BuddyModel, addr: u64, order: nat) -> bool {
    forall|o: nat, a: u64|
        o <= MAX_ORDER && #[trigger] listed(m, a, o) ==> intervals_disjoint(
            addr,
            block_size(order),
            a,
            block_size(o),
        )
}

/// What a caller of `free_pages_order` must guarantee of the block it
/// returns: the exact address and order of an allocation that is still
/// outstanding, so it is aligned, inside the carved region, and disjoint
/// from every block that is currently free.
pub open spec fn free_block_ok(m: BuddyModel, addr: u64, order: nat) -> bool {
    &&& valid_block(m, addr, order)
    &&& block_unlisted(m, addr, order)
}

pub open spec fn bucket_lists_wf(m: BuddyModel) -> bool {
    forall|o: nat, i: int|
        o <= MAX_ORDER && 0 <= i < m.buckets[o as int].free_list.len() ==> valid_block(
            m,
            #[trigger] m.buckets[o as int].free_list[i],
            o,
        )
}

pub open spec fn bucket_bits_wf(m: BuddyModel) -> bool {
    forall|o: nat|
        o <= MAX_ORDER ==> (#[trigger] m.buckets[o as int].bits.len()) * (2 * block_size(o) as int)
            >= (m.len as int / SIZE_OF_MAX_ORDER as int) * SIZE_OF_MAX_ORDER
            && m.buckets[o as int].bits.len() <= usize::MAX
}

pub open spec fn bucket_parity_wf(m: BuddyModel) -> bool {
    forall|o: nat, p: int|
        o < MAX_ORDER && 0 <= p < m.buckets[o as int].bits.len() ==> (#[trigger] m.buckets[o as int].bits[p])
            == (pair_count(m.buckets[o as int].free_list, m.base, o, p) % 2 == 1)
}

pub open spec fn no_duplicate_blocks(m: BuddyModel) -> bool {
    forall|o: nat, i: int, j: int|
        o <= MAX_ORDER && 0 <= i < j < m.buckets[o as int].free_list.len()
            ==> #[trigger] m.buckets[o as int].free_list[i]
            != #[trigger] m.buckets[o as int].free_list[j]
}

/// Coalescing discipline: the two halves of one pair are never both free
/// at their own order (the allocator would have merged them).
pub open spec fn buddies_coalesced(m: BuddyModel) -> bool {
    forall|o: nat, a1: u64, a2: u64|
        o < MAX_ORDER && #[trigger] listed(m, a1, o) && #[trigger] listed(m, a2, o) ==> a2
            != buddy_addr(m.base, a1, o)
}

pub open spec fn lists_disjoint(m: BuddyModel) -> bool {
    forall|o1: nat, a1: u64, o2: nat, a2: u64|
        o1 <= MAX_ORDER && o2 <= MAX_ORDER && #[trigger] listed(m, a1, o1) && #[trigger] listed(
            m,
            a2,
            o2,
        ) && (a1 != a2 || o1 != o2) ==> intervals_disjoint(
            a1,
            block_size(o1),
            a2,
            block_size(o2),
        )
}

/// Well-formedness of the allocator state.
pub open spec fn buddy_wf(m: BuddyModel) -> bool {
    &&& m.buckets.len() == MAX_ORDER + 1
    &&& PHYS_MEM_OFFSET <= m.base
    &&& m.base + m.len <= PHYS_MEM_OFFSET + PHYS_SPAN_LIMIT
    &&& m.base % SIZE_OF_MAX_ORDER == 0
    &&& m.used <= m.len
    &&& m.used % SIZE_OF_MAX_ORDER == 0
    &&& bucket_lists_wf(m)
    &&& bucket_bits_wf(m)
    &&& bucket_parity_wf(m)
    &&& no_duplicate_blocks(m)
    &&& lists_disjoint(m)
    &&& buddies_coalesced(m)
}

/// The allocation step: pop from the free list at `order`; at the top order
/// carve a fresh block from the region's tail; otherwise split a block of the
/// next order, keeping one half free.
pub open spec fn spec_alloc(m: BuddyModel, order: nat) -> Option<(u64, BuddyModel)>
    decreases MAX_ORDER - order,
    when order <= MAX_ORDER
{
    let bk = m.buckets[order as int];
    if bk.free_list.len() > 0 {
        let b = bk.free_list[0];
        let bk1 = BucketModel { free_list: bk.free_list.drop_first(), bits: bk.bits };
        let bk2 = if order == MAX_ORDER as nat {
            bk1
        } else {
            toggled(bk1, m.base, b, order)
        };
        Some((b, BuddyModel { buckets: m.buckets.update(order as int, bk2), ..m }))
    } else if order == MAX_ORDER as nat {
        if m.used + SIZE_OF_MAX_ORDER <= m.len {
            Some(
                (
                    (m.base + m.used) as u64,
                    BuddyModel { used: (m.used + SIZE_OF_MAX_ORDER) as u64, ..m },
                ),
            )
        } else {
            None
        }
    } else {
        match spec_alloc(m, order + 1) {
            None => None,
            Some((b, m1)) => {
                let buddy = (b + block_size(order)) as u64;
                let bk = m1.buckets[order as int];
                let bk1 = BucketModel { free_list: seq![buddy] + bk.free_list, bits: bk.bits };
                let bk2 = toggled(bk1, m.base, buddy, order);
                Some((b, BuddyModel { buckets: m1.buckets.update(order as int, bk2), ..m1 }))
            },
        }
    }
}

/// The release step: toggle the pair's bit; if the buddy is still allocated,
/// push the block, else withdraw the buddy and free the merged block one
/// order up.  The top order has no buddy and only pushes.
pub open spec fn spec_free(m: BuddyModel, addr: u64, order: nat) -> BuddyModel
    decreases MAX_ORDER - order,
    when order <= MAX_ORDER
{
    let bk = m.buckets[order as int];
    if order == MAX_ORDER as nat {
        let bk1 = BucketModel { free_list: seq![addr] + bk.free_list, bits: bk.bits };
        BuddyModel { buckets: m.buckets.update(order as int, bk1), ..m }
    } else {
        let bkt = toggled(bk, m.base, addr, order);
        let p = pair_index(m.base, addr, order);
        if bkt.bits[p] {
            let bk1 = BucketModel { free_list: seq![addr] + bkt.free_list, bits: bkt.bits };
            BuddyModel { buckets: m.buckets.update(order as int, bk1), ..m }
        } else {
            let bud = buddy_addr(m.base, addr, order) as u64;
            let bk1 = BucketModel { free_list: remove_first(bkt.free_list, bud), bits: bkt.bits };
            let m1 = BuddyModel { buckets: m.buckets.update(order as int, bk1), ..m };
            let merged = if addr < bud {
                addr
            } else {
                bud
            };
            spec_free(m1, merged, order + 1)
        }
    }
}

// ---- block-size arithmetic ----

pub proof fn lemma_block_size_pos(o: nat)
    ensures
        block_size(o) >= PAGE_SIZE,
{
    lemma_pow2_pos(o);
    assert(PAGE_SIZE as nat * pow2(o) >= PAGE_SIZE as nat * 1) by (nonlinear_arith)
        requires
            pow2(o) >= 1,
    ;
}

pub proof fn lemma_block_size_double(o: nat)
    ensures
        block_size(o + 1) == 2 * block_size(o),
{
    lemma_pow2_adds(o, 1);
    lemma2_to64();
    assert(PAGE_SIZE as nat * (pow2(o) * 2) == 2 * (PAGE_SIZE as nat * pow2(o)))
        by (nonlinear_arith);
}

pub proof fn lemma_block_size_max(o: nat)
    requires
        o <= MAX_ORDER,
    ensures
        block_size(MAX_ORDER as nat) == SIZE_OF_MAX_ORDER,
        SIZE_OF_MAX_ORDER == block_size(o) * pow2((MAX_ORDER - o) as nat),
        block_size(o) <= SIZE_OF_MAX_ORDER,
        SIZE_OF_MAX_ORDER as int % (block_size(o) as int) == 0,
{
    lemma_pow2_adds(o, (MAX_ORDER - o) as nat);
    lemma2_to64();
    lemma_pow2_pos(o);
    lemma_pow2_pos((MAX_ORDER - o) as nat);
    assert(PAGE_SIZE as nat * pow2(o) * pow2((MAX_ORDER - o) as nat) == PAGE_SIZE as nat * (pow2(
        o,
    ) * pow2((MAX_ORDER - o) as nat))) by (nonlinear_arith);
    assert(block_size(o) * 1 <= block_size(o) * pow2((MAX_ORDER - o) as nat)) by (nonlinear_arith)
        requires
            pow2((MAX_ORDER - o) as nat) >= 1,
    ;
    lemma_mul_is_commutative(block_size(o) as int, pow2((MAX_ORDER - o) as nat) as int);
    lemma_mod_multiples_basic(pow2((MAX_ORDER - o) as nat) as int, block_size(o) as int);
}

/// The carved prefix of the region never outgrows any order's bitmap span.
proof fn lemma_used_le_bits_span(m: BuddyModel, o: nat)
    requires
        m.used <= m.len,
        m.used % SIZE_OF_MAX_ORDER == 0,
        bucket_bits_wf(m),
        o <= MAX_ORDER,
    ensures
        m.used <= m.buckets[o as int].bits.len() * (2 * block_size(o) as int),
{
    let sz = SIZE_OF_MAX_ORDER as int;
    lemma_fundamental_div_mod(m.used as int, sz);
    lemma_div_is_ordered(m.used as int, m.len as int, sz);
    lemma_mul_inequality(m.used as int / sz, m.len as int / sz, sz);
    lemma_mul_is_commutative(m.used as int / sz, sz);
    lemma_mul_is_commutative(m.len as int / sz, sz);
}

/// The coalescing bit of any valid block's pair is within its order's bitmap.
proof fn lemma_pair_index_range(m: BuddyModel, addr: u64, o: nat)
    requires
        m.used <= m.len,
        m.used % SIZE_OF_MAX_ORDER == 0,
        bucket_bits_wf(m),
        valid_block(m, addr, o),
        o <= MAX_ORDER,
    ensures
        0 <= pair_index(m.base, addr, o) < m.buckets[o as int].bits.len(),
{
    let bs = block_size(o) as int;
    lemma_block_size_pos(o);
    let d = addr - m.base;
    lemma_div_pos_is_pos(d, 2 * bs);
    lemma_used_le_bits_span(m, o);
    lemma_mul_is_commutative(m.buckets[o as int].bits.len() as int, 2 * bs);
    lemma_multiply_divide_lt(d, 2 * bs, m.buckets[o as int].bits.len() as int);
}

/// Shape of a buddy pair: the two aligned order-`order` blocks of one pair
/// are adjacent, the lower one is aligned one order up, and no other aligned
/// block shares their pair index.
pub proof fn lemma_buddy_props(base: u64, addr: u64, order: nat)
    requires
        base <= addr,
        (addr - base) % (block_size(order) as int) == 0,
    ensures
        ({
            let bs = block_size(order) as int;
            let p = pair_index(base, addr, order);
            let bud = buddy_addr(base, addr, order);
            let low = if addr <= bud {
                addr as int
            } else {
                bud
            };
            &&& bud != addr
            &&& base <= bud
            &&& (bud - base) % bs == 0
            &&& (bud - base) / (2 * bs) == p
            &&& (low - base) % (2 * bs) == 0
            &&& low + 2 * bs == (addr + bud + bs - low)
            &&& (addr + bs == bud || bud + bs == addr)
            &&& forall|z: u64|
                base <= z && (z - base) % bs == 0 && pair_index(base, z, order) == p ==> z == addr
                    || z == bud
        }),
{
    let bs = block_size(order) as int;
    lemma_block_size_pos(order);
    let d = addr - base;
    lemma_fundamental_div_mod(d, bs);
    let q = d / bs;
    lemma_div_pos_is_pos(d, bs);
    lemma_fundamental_div_mod(q, 2);
    let h = q / 2;
    let r = q % 2;
    lemma_div_pos_is_pos(q, 2);
    assert(d == 2 * bs * h + bs * r) by (nonlinear_arith)
        requires
            d == bs * q,
            q == 2 * h + r,
    ;
    assert(0 <= bs * r < 2 * bs) by (nonlinear_arith)
        requires
            0 <= r < 2,
            bs > 0,
    ;
    assert(2 * bs * h == h * (2 * bs)) by (nonlinear_arith);
    lemma_fundamental_div_mod_converse(d, 2 * bs, h, bs * r);
    assert(pair_index(base, addr, order) == h);
    let bud = buddy_addr(base, addr, order);
    if r == 0 {
        assert(d == 2 * bs * h) by (nonlinear_arith)
            requires
                d == bs * q,
                q == 2 * h + r,
                r == 0,
        ;
        assert(bud == addr + bs);
        assert(bud - base == h * (2 * bs) + bs) by (nonlinear_arith)
            requires
                d == 2 * bs * h,
                bud == addr + bs,
                d == addr - base,
        ;
        lemma_fundamental_div_mod_converse(bud - base, 2 * bs, h, bs);
        assert(bud - base == (2 * h + 1) * bs) by (nonlinear_arith)
            requires
                bud - base == h * (2 * bs) + bs,
        ;
        lemma_fundamental_div_mod_converse(bud - base, bs, 2 * h + 1, 0);
    } else {
        assert(d == 2 * bs * h + bs) by (nonlinear_arith)
            requires
                d == bs * q,
                q == 2 * h + r,
                r == 1,
        ;
        assert(q >= 1);
        assert(d >= bs) by (nonlinear_arith)
            requires
                d == bs * q,
                q >= 1,
                bs > 0,
        ;
        assert(bud == addr - bs);
        assert(bud - base == h * (2 * bs)) by (nonlinear_arith)
            requires
                d == 2 * bs * h + bs,
                bud == addr - bs,
                d == addr - base,
        ;
        lemma_fundamental_div_mod_converse(bud - base, 2 * bs, h, 0);
        assert(bud - base == (2 * h) * bs) by (nonlinear_arith)
            requires
                bud - base == h * (2 * bs),
        ;
        lemma_fundamental_div_mod_converse(bud - base, bs, 2 * h, 0);
    }
    assert forall|z: u64|
        base <= z && (z - base) % bs == 0 && pair_index(base, z, order) == h implies z == addr || z
        == bud by {
        let e = z - base;
        lemma_fundamental_div_mod(e, bs);
        let w = e / bs;
        lemma_div_pos_is_pos(e, bs);
        lemma_fundamental_div_mod(w, 2);
        let hw = w / 2;
        let rw = w % 2;
        lemma_div_pos_is_pos(w, 2);
        assert(e == 2 * bs * hw + bs * rw) by (nonlinear_arith)
            requires
                e == bs * w,
                w == 2 * hw + rw,
        ;
        assert(0 <= bs * rw < 2 * bs) by (nonlinear_arith)
            requires
                0 <= rw < 2,
                bs > 0,
        ;
        assert(2 * bs * hw == hw * (2 * bs)) by (nonlinear_arith);
        lemma_fundamental_div_mod_converse(e, 2 * bs, hw, bs * rw);
        assert(hw == h);
        if rw == 0 {
            assert(e == 2 * bs * h) by (nonlinear_arith)
                requires
                    e == 2 * bs * hw + bs * rw,
                    rw == 0,
                    hw == h,
            ;
        } else {
            assert(e == 2 * bs * h + bs) by (nonlinear_arith)
                requires
                    e == 2 * bs * hw + bs * rw,
                    rw == 1,
                    hw == h,
            ;
        }
        assert(d == 2 * bs * h || d == 2 * bs * h + bs);
    }
}

// ---- counting pair members on a free list ----

pub proof fn lemma_pair_count_cons(s: Seq<u64>, base: u64, order: nat, x: u64, p: int)
    ensures
        pair_count(seq![x] + s, base, order, p) == pair_count(s, base, order, p) + (
        if pair_index(base, x, order) == p {
            1int
        } else {
            0int
        }),
{
    let t = seq![x] + s;
    assert(t[0] == x);
    assert(t.drop_first() =~= s);
}

pub proof fn lemma_pair_count_remove_first(s: Seq<u64>, base: u64, order: nat, x: u64, p: int)
    requires
        s.contains(x),
    ensures
        pair_count(remove_first(s, x), base, order, p) == pair_count(s, base, order, p) - (
        if pair_index(base, x, order) == p {
            1int
        } else {
            0int
        }),
    decreases s.len(),
{
    if s[0] == x {
        assert(remove_first(s, x) == s.drop_first());
    } else {
        let st = s.drop_first();
        assert(st.contains(x)) by {
            let w = choose|w: int| 0 <= w < s.len() && s[w] == x;
            assert(st[w - 1] == x);
        }
        lemma_pair_count_remove_first(st, base, order, x, p);
        lemma_pair_count_cons(remove_first(st, x), base, order, s[0], p);
        assert(remove_first(s, x) == seq![s[0]] + remove_first(st, x));
    }
}

pub proof fn lemma_pair_count_pos(s: Seq<u64>, base: u64, order: nat, p: int)
    requires
        pair_count(s, base, order, p) > 0,
    ensures
        exists|a: u64| s.contains(a) && pair_index(base, a, order) == p,
    decreases s.len(),
{
    if pair_index(base, s[0], order) == p {
        assert(s.contains(s[0]));
    } else {
        lemma_pair_count_pos(s.drop_first(), base, order, p);
        let a = choose|a: u64|
            s.drop_first().contains(a) && pair_index(base, a, order) == p;
        let w = choose|w: int| 0 <= w < s.drop_first().len() && s.drop_first()[w] == a;
        assert(s[w + 1] == a);
        assert(s.contains(a));
    }
}

/// On a list whose blocks are all aligned and distinct, each pair is counted
/// at most twice, so a count's parity determines presence exactly; what this
/// development needs is only the positive direction, given by
/// `lemma_pair_count_pos`, and the membership step below.
pub proof fn lemma_pair_count_from_member(s: Seq<u64>, base: u64, order: nat, a: u64)
    requires
        s.contains(a),
    ensures
        pair_count(s, base, order, pair_index(base, a, order)) > 0,
    decreases s.len(),
{
    if s[0] == a {
    } else {
        let st = s.drop_first();
        assert(st.contains(a)) by {
            let w = choose|w: int| 0 <= w < s.len() && s[w] == a;
            assert(st[w - 1] == a);
        }
        lemma_pair_count_from_member(st, base, order, a);
    }
}

/// When every pair member that can appear on `s` is one of two given
/// distinct addresses and `s` holds no duplicates, the pair count is the sum
/// of the two membership flags.
pub proof fn lemma_pair_count_unique(
    s: Seq<u64>,
    base: u64,
    order: nat,
    p: int,
    x: u64,
    y: u64,
)
    requires
        x != y,
        forall|i: int|
            0 <= i < s.len() && pair_index(base, #[trigger] s[i], order) == p ==> s[i] == x || s[i]
                == y,
        forall|i: int, j: int| 0 <= i < j < s.len() ==> s[i] != s[j],
    ensures
        pair_count(s, base, order, p) == (if s.contains(x) && pair_index(base, x, order) == p {
            1int
        } else {
            0int
        }) + (if s.contains(y) && pair_index(base, y, order) == p {
            1int
        } else {
            0int
        }),
    decreases s.len(),
{
    if s.len() == 0 {
    } else {
        let h = s[0];
        let st = s.drop_first();
        assert forall|i: int, j: int| 0 <= i < j < st.len() implies st[i] != st[j] by {
            assert(st[i] == s[i + 1] && st[j] == s[j + 1]);
        }
        assert forall|i: int|
            0 <= i < st.len() && pair_index(base, #[trigger] st[i], order) == p implies st[i] == x
            || st[i] == y by {
            assert(st[i] == s[i + 1]);
        }
        lemma_pair_count_unique(st, base, order, p, x, y);
        assert(!st.contains(h)) by {
            if st.contains(h) {
                let w = choose|w: int| 0 <= w < st.len() && st[w] == h;
                assert(s[w + 1] == h);
            }
        }
        assert forall|a: u64| #[trigger] st.contains(a) implies s.contains(a) by {
            let w = choose|w: int| 0 <= w < st.len() && st[w] == a;
            assert(s[w + 1] == a);
        }
        assert forall|a: u64| #[trigger] s.contains(a) && a != h implies st.contains(a) by {
            let w = choose|w: int| 0 <= w < s.len() && s[w] == a;
            assert(st[w - 1] == a);
        }
        assert(s.contains(h));
    }
}

// ---- membership plumbing ----

proof fn lemma_cons_contains(s: Seq<u64>, x: u64, a: u64)
    ensures
        (seq![x] + s).contains(a) <==> (a == x || s.contains(a)),
{
    let t = seq![x] + s;
    if t.contains(a) {
        let w = choose|w: int| 0 <= w < t.len() && t[w] == a;
        if w > 0 {
            assert(s[w - 1] == a);
        }
    }
    if s.contains(a) {
        let w = choose|w: int| 0 <= w < s.len() && s[w] == a;
        assert(t[w + 1] == a);
    }
    assert(t[0] == x);
}

proof fn lemma_drop_contains(s: Seq<u64>, a: u64)
    requires
        s.len() > 0,
    ensures
        s.drop_first().contains(a) ==> s.contains(a),
{
    if s.drop_first().contains(a) {
        let w = choose|w: int| 0 <= w < s.drop_first().len() && s.drop_first()[w] == a;
        assert(s[w + 1] == a);
    }
}

/// The allocation step preserves well-formedness; a returned block is a
/// valid block of the requested order, lies clear of every block that is
/// still free, and buckets below the requested order are untouched.
pub proof fn lemma_spec_alloc(m: BuddyModel, order: nat)
    requires
        buddy_wf(m),
        order <= MAX_ORDER,
    ensures
        match spec_alloc(m, order) {
            None => true,
            Some((b, m1)) => {
                &&& buddy_wf(m1)
                &&& m1.base == m.base
                &&& m1.len == m.len
                &&& m1.buckets.len() == m.buckets.len()
                &&& m.used <= m1.used
                &&& valid_block(m1, b, order)
                &&& block_unlisted(m1, b, order)
                &&& forall|o: int| 0 <= o < order ==> m1.buckets[o] == m.buckets[o]
                &&& forall|x: u64, xo: nat|
                    xo <= MAX_ORDER && #[trigger] free_block_ok(m, x, xo) ==> free_block_ok(
                        m1,
                        x,
                        xo,
                    ) && intervals_disjoint(x, block_size(xo), b, block_size(order))
            },
        },
    decreases MAX_ORDER - order,
{
    let bk = m.buckets[order as int];
    lemma_block_size_pos(order);
    lemma_block_size_max(order);
    if bk.free_list.len() > 0 {
        lemma_spec_alloc_pop(m, order);
    } else if order == MAX_ORDER as nat {
        if m.used + SIZE_OF_MAX_ORDER <= m.len {
            lemma_spec_alloc_carve(m);
        }
    } else {
        lemma_spec_alloc(m, order + 1);
        match spec_alloc(m, order + 1) {
            None => {},
            Some((b, m1)) => {
                lemma_spec_alloc_split(m, order, b, m1);
            },
        }
    }
}

/// Popping the head of a non-empty free list.
proof fn lemma_spec_alloc_pop(m: BuddyModel, order: nat)
    requires
        buddy_wf(m),
        order <= MAX_ORDER,
        m.buckets[order as int].free_list.len() > 0,
    ensures
        match spec_alloc(m, order) {
            None => false,
            Some((b, m1)) => {
                &&& buddy_wf(m1)
                &&& m1.base == m.base
                &&& m1.len == m.len
                &&& m1.buckets.len() == m.buckets.len()
                &&& m1.used == m.used
                &&& valid_block(m1, b, order)
                &&& block_unlisted(m1, b, order)
                &&& forall|o: int| 0 <= o < order ==> m1.buckets[o] == m.buckets[o]
                &&& forall|x: u64, xo: nat|
                    xo <= MAX_ORDER && #[trigger] free_block_ok(m, x, xo) ==> free_block_ok(
                        m1,
                        x,
                        xo,
                    ) && intervals_disjoint(x, block_size(xo), b, block_size(order))
            },
        },
{
    let bk = m.buckets[order as int];
    let s = bk.free_list;
    let b = s[0];
    assert(s.contains(b));
    assert(listed(m, b, order));
    assert(valid_block(m, b, order));
    lemma_block_size_pos(order);
    let (rb, m1) = spec_alloc(m, order).unwrap();
    assert(rb == b);
    // the head does not recur in the rest of the list
    assert(forall|j: int| 1 <= j < s.len() ==> s[j] != b) by {
        assert(forall|j: int| 1 <= j < s.len() ==> s[0] != #[trigger] s[j]);
    }
    assert forall|a: u64| s.drop_first().contains(a) implies s.contains(a) && a != b by {
        let w = choose|w: int| 0 <= w < s.drop_first().len() && s.drop_first()[w] == a;
        assert(s[w + 1] == a);
    }
    // membership in the new model
    assert forall|o: nat, a: u64| o <= MAX_ORDER && #[trigger] listed(m1, a, o) implies listed(
        m,
        a,
        o,
    ) && (a != b || o != order) by {
        if o == order {
            assert(m1.buckets[o as int].free_list == s.drop_first());
        }
    }
    assert forall|o: nat, i: int|
        o <= MAX_ORDER && 0 <= i < m1.buckets[o as int].free_list.len() implies valid_block(
        m1,
        #[trigger] m1.buckets[o as int].free_list[i],
        o,
    ) by {
        if o == order {
            assert(m1.buckets[o as int].free_list[i] == s[i + 1]);
        }
        assert(m1.buckets[o as int].free_list.contains(m1.buckets[o as int].free_list[i]));
    }
    assert(bucket_lists_wf(m1));
    assert(no_duplicate_blocks(m1)) by {
        assert forall|o: nat, i: int, j: int|
            o <= MAX_ORDER && 0 <= i < j < m1.buckets[o as int].free_list.len() implies #[trigger] m1.buckets[o as int].free_list[i] != #[trigger] m1.buckets[o as int].free_list[j] by {
            if o == order {
                assert(m1.buckets[o as int].free_list[i] == s[i + 1]);
                assert(m1.buckets[o as int].free_list[j] == s[j + 1]);
            }
        }
    }
    assert(lists_disjoint(m1)) by {
        assert forall|o1: nat, a1: u64, o2: nat, a2: u64|
            o1 <= MAX_ORDER && o2 <= MAX_ORDER && #[trigger] listed(m1, a1, o1)
                && #[trigger] listed(m1, a2, o2) && (a1 != a2 || o1 != o2) implies intervals_disjoint(
            a1,
            block_size(o1),
            a2,
            block_size(o2),
        ) by {
            assert(listed(m, a1, o1) && listed(m, a2, o2));
        }
    }
    assert(block_unlisted(m1, b, order)) by {
        assert forall|o: nat, a: u64| o <= MAX_ORDER && #[trigger] listed(m1, a, o) implies intervals_disjoint(
            b,
            block_size(order),
            a,
            block_size(o),
        ) by {
            assert(listed(m, a, o) && (a != b || o != order));
        }
    }
    assert forall|x: u64, xo: nat|
        xo <= MAX_ORDER && #[trigger] free_block_ok(m, x, xo) implies free_block_ok(m1, x, xo)
        && intervals_disjoint(x, block_size(xo), b, block_size(order)) by {
        assert(listed(m, b, order));
        assert forall|o: nat, a: u64| o <= MAX_ORDER && #[trigger] listed(m1, a, o) implies intervals_disjoint(
            x,
            block_size(xo),
            a,
            block_size(o),
        ) by {
            assert(listed(m, a, o));
        }
    }
    // parity
    if order < MAX_ORDER as nat {
        lemma_pair_index_range(m, b, order);
        let p0 = pair_index(m.base, b, order);
        assert(bucket_parity_wf(m1)) by {
            assert forall|o: nat, p: int|
                o < MAX_ORDER && 0 <= p < m1.buckets[o as int].bits.len() implies (
            #[trigger] m1.buckets[o as int].bits[p]) == (pair_count(
                m1.buckets[o as int].free_list,
                m.base,
                o,
                p,
            ) % 2 == 1) by {
                if o == order {
                    assert(pair_count(s, m.base, o, p) == pair_count(s.drop_first(), m.base, o, p)
                        + (if pair_index(m.base, b, o) == p {
                        1int
                    } else {
                        0int
                    }));
                    if p == p0 {
                        assert(m1.buckets[o as int].bits[p] == !bk.bits[p0]);
                    } else {
                        assert(m1.buckets[o as int].bits[p] == bk.bits[p]);
                    }
                }
            }
        }
    } else {
        assert(bucket_parity_wf(m1)) by {
            assert forall|o: nat, p: int|
                o < MAX_ORDER && 0 <= p < m1.buckets[o as int].bits.len() implies (
            #[trigger] m1.buckets[o as int].bits[p]) == (pair_count(
                m1.buckets[o as int].free_list,
                m.base,
                o,
                p,
            ) % 2 == 1) by {
                assert(m1.buckets[o as int] == m.buckets[o as int]);
            }
        }
    }
    assert(buddy_wf(m1));
}

/// Splitting a block of the next order: one half is returned, the other
/// becomes the only free block of this order's previously empty list.
proof fn lemma_spec_alloc_split(m: BuddyModel, order: nat, b: u64, m1: BuddyModel)
    requires
        buddy_wf(m),
        order < MAX_ORDER,
        m.buckets[order as int].free_list.len() == 0,
        spec_alloc(m, order + 1) == Some((b, m1)),
        buddy_wf(m1),
        m1.base == m.base,
        m1.len == m.len,
        m1.buckets.len() == m.buckets.len(),
        m.used <= m1.used,
        valid_block(m1, b, order + 1),
        block_unlisted(m1, b, order + 1),
        forall|o: int| 0 <= o < order + 1 ==> m1.buckets[o] == m.buckets[o],
        forall|x: u64, xo: nat|
            xo <= MAX_ORDER && #[trigger] free_block_ok(m, x, xo) ==> free_block_ok(m1, x, xo)
                && intervals_disjoint(x, block_size(xo), b, block_size(order + 1)),
    ensures
        match spec_alloc(m, order) {
            None => false,
            Some((rb, m2)) => {
                &&& rb == b
                &&& buddy_wf(m2)
                &&& m2.base == m.base
                &&& m2.len == m.len
                &&& m2.buckets.len() == m.buckets.len()
                &&& m2.used == m1.used
                &&& valid_block(m2, b, order)
                &&& block_unlisted(m2, b, order)
                &&& forall|o: int| 0 <= o < order ==> m2.buckets[o] == m.buckets[o]
                &&& forall|x: u64, xo: nat|
                    xo <= MAX_ORDER && #[trigger] free_block_ok(m, x, xo) ==> free_block_ok(
                        m2,
                        x,
                        xo,
                    ) && intervals_disjoint(x, block_size(xo), b, block_size(order))
            },
        },
{
    let bs = block_size(order) as int;
    lemma_block_size_pos(order);
    lemma_block_size_double(order);
    let base = m.base;
    let d1 = b - base;
    lemma_fundamental_div_mod(d1, 2 * bs);
    let j = d1 / (2 * bs);
    lemma_div_pos_is_pos(d1, 2 * bs);
    assert(d1 == (2 * j) * bs) by (nonlinear_arith)
        requires
            d1 == (2 * bs) * j,
    ;
    lemma_fundamental_div_mod_converse(d1, bs, 2 * j, 0);
    lemma_mod_multiples_basic(j, 2);
    assert((2 * j) % 2 == 0) by {
        lemma_mul_is_commutative(j, 2);
    }
    lemma_buddy_props(base, b, order);
    let buddy_i = buddy_addr(base, b, order);
    assert(buddy_i == b + bs);
    assert(b + 2 * bs <= m.base + m1.used);
    assert(m.base + m.len <= PHYS_MEM_OFFSET + PHYS_SPAN_LIMIT);
    assert(b + bs <= u64::MAX);
    let buddy = (b + block_size(order)) as u64;
    assert(buddy == b + bs);
    let p0 = pair_index(base, buddy, order);
    assert(pair_index(base, b, order) == p0) by {
        assert((buddy - base) / (2 * bs) == pair_index(base, b, order));
    }
    let (rb, m2) = spec_alloc(m, order).unwrap();
    assert(rb == b);
    assert(m1.buckets[order as int] == m.buckets[order as int]);
    assert(m1.buckets[order as int].free_list.len() == 0);
    assert(m2.buckets[order as int].free_list =~= seq![buddy]);
    assert(valid_block(m1, buddy, order));
    lemma_pair_index_range(m1, buddy, order);
    // membership in m2
    assert forall|o: nat, a: u64| o <= MAX_ORDER && #[trigger] listed(m2, a, o) implies (listed(
        m1,
        a,
        o,
    ) || (o == order && a == buddy)) by {
        if o == order {
            assert(m2.buckets[o as int].free_list[0] == buddy);
            let w = choose|w: int|
                0 <= w < m2.buckets[o as int].free_list.len() && m2.buckets[o as int].free_list[w]
                    == a;
            assert(a == buddy);
        }
    }
    assert(listed(m2, buddy, order)) by {
        assert(m2.buckets[order as int].free_list[0] == buddy);
    }
    assert forall|o: nat, a: u64| o <= MAX_ORDER && #[trigger] listed(m1, a, o) implies intervals_disjoint(
        b,
        block_size(order + 1),
        a,
        block_size(o),
    ) by {}
    // buddy is not on any free list of m1
    assert(!listed(m1, buddy, order));
    assert(bucket_lists_wf(m2)) by {
        assert forall|o: nat, i: int|
            o <= MAX_ORDER && 0 <= i < m2.buckets[o as int].free_list.len() implies valid_block(
            m2,
            #[trigger] m2.buckets[o as int].free_list[i],
            o,
        ) by {
            if o == order {
                assert(m2.buckets[o as int].free_list[i] == buddy);
            } else {
                assert(m2.buckets[o as int].free_list.contains(
                    m2.buckets[o as int].free_list[i],
                ));
                assert(listed(m1, m2.buckets[o as int].free_list[i], o));
                assert(valid_block(m1, m2.buckets[o as int].free_list[i], o));
            }
        }
    }
    assert(no_duplicate_blocks(m2)) by {
        assert forall|o: nat, i: int, j2: int|
            o <= MAX_ORDER && 0 <= i < j2 < m2.buckets[o as int].free_list.len()
            implies #[trigger] m2.buckets[o as int].free_list[i]
            != #[trigger] m2.buckets[o as int].free_list[j2] by {
            if o == order {
                assert(m2.buckets[o as int].free_list.len() == 1);
            }
        }
    }
    assert(lists_disjoint(m2)) by {
        assert forall|o1: nat, a1: u64, o2: nat, a2: u64|
            o1 <= MAX_ORDER && o2 <= MAX_ORDER && #[trigger] listed(m2, a1, o1)
                && #[trigger] listed(m2, a2, o2) && (a1 != a2 || o1 != o2)
            implies intervals_disjoint(a1, block_size(o1), a2, block_size(o2)) by {
            if o1 == order && a1 == buddy {
                if !(o2 == order && a2 == buddy) {
                    assert(listed(m1, a2, o2));
                }
            } else if o2 == order && a2 == buddy {
                assert(listed(m1, a1, o1));
            } else {
                assert(listed(m1, a1, o1) && listed(m1, a2, o2));
            }
        }
    }
    assert(block_unlisted(m2, b, order)) by {
        assert forall|o: nat, a: u64| o <= MAX_ORDER && #[trigger] listed(m2, a, o) implies intervals_disjoint(
            b,
            block_size(order),
            a,
            block_size(o),
        ) by {
            if o == order && a == buddy {
            } else {
                assert(listed(m1, a, o));
            }
        }
    }
    assert forall|x: u64, xo: nat|
        xo <= MAX_ORDER && #[trigger] free_block_ok(m, x, xo) implies free_block_ok(m2, x, xo)
        && intervals_disjoint(x, block_size(xo), b, block_size(order)) by {
        lemma_block_size_pos(xo);
        assert(free_block_ok(m1, x, xo));
        assert(intervals_disjoint(x, block_size(xo), b, block_size(order + 1)));
        assert forall|o: nat, a: u64| o <= MAX_ORDER && #[trigger] listed(m2, a, o) implies intervals_disjoint(
            x,
            block_size(xo),
            a,
            block_size(o),
        ) by {
            if o == order && a == buddy {
            } else {
                assert(listed(m1, a, o));
            }
        }
    }
    // parity: this order's list was empty, so every bit in range was clear
    assert(bucket_parity_wf(m2)) by {
        assert forall|o: nat, p: int|
            o < MAX_ORDER && 0 <= p < m2.buckets[o as int].bits.len() implies (
        #[trigger] m2.buckets[o as int].bits[p]) == (pair_count(
            m2.buckets[o as int].free_list,
            base,
            o,
            p,
        ) % 2 == 1) by {
            if o == order {
                lemma_pair_count_cons(Seq::<u64>::empty(), base, o, buddy, p);
                assert(seq![buddy] + Seq::<u64>::empty() =~= seq![buddy]);
                assert(m1.buckets[o as int].free_list =~= Seq::<u64>::empty());
                assert(pair_count(Seq::<u64>::empty(), base, o, p) == 0);
                assert(m1.buckets[o as int].bits[p] == false);
                if p == p0 {
                    assert(m2.buckets[o as int].bits[p] == true);
                    assert(pair_count(seq![buddy], base, o, p) == 1);
                } else {
                    assert(m2.buckets[o as int].bits[p] == false);
                    assert(pair_count(seq![buddy], base, o, p) == 0);
                }
            }
        }
    }
    assert(bucket_bits_wf(m2)) by {
        assert forall|o: nat| o <= MAX_ORDER implies (#[trigger] m2.buckets[o as int].bits.len())
            * (2 * block_size(o) as int) >= (m2.len as int / SIZE_OF_MAX_ORDER as int)
            * SIZE_OF_MAX_ORDER && m2.buckets[o as int].bits.len() <= usize::MAX by {
            assert(m2.buckets[o as int].bits.len() == m1.buckets[o as int].bits.len());
        }
    }
    assert(buddy_wf(m2));
}

/// Carving a fresh top-order block from the region's tail.
proof fn lemma_spec_alloc_carve(m: BuddyModel)
    requires
        buddy_wf(m),
        m.buckets[MAX_ORDER as int].free_list.len() == 0,
        m.used + SIZE_OF_MAX_ORDER <= m.len,
    ensures
        match spec_alloc(m, MAX_ORDER as nat) {
            None => false,
            Some((b, m1)) => {
                &&& buddy_wf(m1)
                &&& m1.base == m.base
                &&& m1.len == m.len
                &&& m1.buckets.len() == m.buckets.len()
                &&& m1.used == m.used + SIZE_OF_MAX_ORDER
                &&& b == m.base + m.used
                &&& valid_block(m1, b, MAX_ORDER as nat)
                &&& block_unlisted(m1, b, MAX_ORDER as nat)
                &&& m1.buckets == m.buckets
                &&& forall|x: u64, xo: nat|
                    xo <= MAX_ORDER && #[trigger] free_block_ok(m, x, xo) ==> free_block_ok(
                        m1,
                        x,
                        xo,
                    ) && intervals_disjoint(x, block_size(xo), b, block_size(MAX_ORDER as nat))
            },
        },
{
    lemma_block_size_max(MAX_ORDER as nat);
    let (b, m1) = spec_alloc(m, MAX_ORDER as nat).unwrap();
    lemma_mod_multiples_basic(
        m.used as int / SIZE_OF_MAX_ORDER as int + 1,
        SIZE_OF_MAX_ORDER as int,
    );
    assert(m1.used % SIZE_OF_MAX_ORDER == 0) by {
        lemma_fundamental_div_mod(m.used as int, SIZE_OF_MAX_ORDER as int);
        assert((m.used + SIZE_OF_MAX_ORDER) as int == (m.used as int / SIZE_OF_MAX_ORDER as int + 1)
            * SIZE_OF_MAX_ORDER as int) by (nonlinear_arith)
            requires
                m.used as int == SIZE_OF_MAX_ORDER as int * (m.used as int
                    / SIZE_OF_MAX_ORDER as int),
        ;
    }
    assert(bucket_lists_wf(m1)) by {
        assert forall|o: nat, i: int|
            o <= MAX_ORDER && 0 <= i < m1.buckets[o as int].free_list.len() implies valid_block(
            m1,
            #[trigger] m1.buckets[o as int].free_list[i],
            o,
        ) by {
            assert(valid_block(m, m.buckets[o as int].free_list[i], o));
        }
    }
    assert(block_unlisted(m1, b, MAX_ORDER as nat)) by {
        assert forall|o: nat, a: u64| o <= MAX_ORDER && #[trigger] listed(m1, a, o) implies intervals_disjoint(
            b,
            block_size(MAX_ORDER as nat),
            a,
            block_size(o),
        ) by {
            assert(listed(m, a, o));
            let i = choose|i: int|
                0 <= i < m.buckets[o as int].free_list.len() && m.buckets[o as int].free_list[i]
                    == a;
            assert(m.buckets[o as int].free_list[i] == a);
            assert(valid_block(m, a, o));
            assert(a + block_size(o) <= m.base + m.used);
        }
    }
    assert forall|x: u64, xo: nat|
        xo <= MAX_ORDER && #[trigger] free_block_ok(m, x, xo) implies free_block_ok(m1, x, xo)
        && intervals_disjoint(x, block_size(xo), b, block_size(MAX_ORDER as nat)) by {
        lemma_block_size_pos(xo);
        assert(x + block_size(xo) <= m.base + m.used);
        assert forall|o: nat, a: u64| o <= MAX_ORDER && #[trigger] listed(m1, a, o) implies intervals_disjoint(
            x,
            block_size(xo),
            a,
            block_size(o),
        ) by {
            assert(listed(m, a, o));
        }
    }
    assert(bucket_parity_wf(m1)) by {
        assert forall|o: nat, p: int|
            o < MAX_ORDER && 0 <= p < m1.buckets[o as int].bits.len() implies (
        #[trigger] m1.buckets[o as int].bits[p]) == (pair_count(
            m1.buckets[o as int].free_list,
            m1.base,
            o,
            p,
        ) % 2 == 1) by {
            assert(m1.buckets[o as int] == m.buckets[o as int]);
        }
    }
    assert(no_duplicate_blocks(m1)) by {
        assert forall|o: nat, i: int, j: int|
            o <= MAX_ORDER && 0 <= i < j < m1.buckets[o as int].free_list.len()
            implies #[trigger] m1.buckets[o as int].free_list[i]
            != #[trigger] m1.buckets[o as int].free_list[j] by {
            assert(m1.buckets[o as int] == m.buckets[o as int]);
        }
    }
    assert(lists_disjoint(m1)) by {
        assert forall|o1: nat, a1: u64, o2: nat, a2: u64|
            o1 <= MAX_ORDER && o2 <= MAX_ORDER && #[trigger] listed(m1, a1, o1)
                && #[trigger] listed(m1, a2, o2) && (a1 != a2 || o1 != o2)
            implies intervals_disjoint(a1, block_size(o1), a2, block_size(o2)) by {
            assert(listed(m, a1, o1) && listed(m, a2, o2));
        }
    }
    assert(buddies_coalesced(m1)) by {
        assert forall|o: nat, a1: u64, a2: u64|
            o < MAX_ORDER && #[trigger] listed(m1, a1, o) && #[trigger] listed(m1, a2, o)
            implies a2 != buddy_addr(m1.base, a1, o) by {
            assert(listed(m, a1, o) && listed(m, a2, o));
        }
    }
    assert(bucket_bits_wf(m1)) by {
        assert forall|o: nat| o <= MAX_ORDER implies (#[trigger] m1.buckets[o as int].bits.len())
            * (2 * block_size(o) as int) >= (m1.len as int / SIZE_OF_MAX_ORDER as int)
            * SIZE_OF_MAX_ORDER && m1.buckets[o as int].bits.len() <= usize::MAX by {
            assert(m1.buckets[o as int] == m.buckets[o as int]);
        }
    }
    assert(buddy_wf(m1));
}

/// When the coalescing bit of a pending block's pair is set, the pair's
/// other half is on this order's free list.
proof fn lemma_buddy_listed_when_bit_set(m: BuddyModel, addr: u64, order: nat)
    requires
        buddy_wf(m),
        order < MAX_ORDER,
        free_block_ok(m, addr, order),
        m.buckets[order as int].bits[pair_index(m.base, addr, order)],
    ensures
        base_le_buddy(m, addr, order),
        listed(m, (buddy_addr(m.base, addr, order)) as u64, order),
{
    let bs = block_size(order) as int;
    lemma_block_size_pos(order);
    lemma_pair_index_range(m, addr, order);
    let p0 = pair_index(m.base, addr, order);
    let s = m.buckets[order as int].free_list;
    assert(pair_count(s, m.base, order, p0) % 2 == 1);
    lemma_pair_count_pos(s, m.base, order, p0);
    let a = choose|a: u64| s.contains(a) && pair_index(m.base, a, order) == p0;
    assert(listed(m, a, order));
    let i = choose|i: int| 0 <= i < s.len() && s[i] == a;
    assert(s[i] == a);
    assert(valid_block(m, a, order));
    lemma_buddy_props(m.base, addr, order);
    assert(a != addr) by {
        assert(intervals_disjoint(addr, block_size(order), a, block_size(order)));
    }
    assert(a == buddy_addr(m.base, addr, order) as u64);
}

/// `buddy_addr` stays inside the region for a pending block.
pub open spec fn base_le_buddy(m: BuddyModel, addr: u64, order: nat) -> bool {
    m.base <= buddy_addr(m.base, addr, order) <= u64::MAX
}

/// The release step preserves well-formedness and touches neither the
/// region bounds nor the bump offset.
pub proof fn lemma_spec_free(m: BuddyModel, addr: u64, order: nat)
    requires
        buddy_wf(m),
        order <= MAX_ORDER,
        free_block_ok(m, addr, order),
    ensures
        ({
            let m1 = spec_free(m, addr, order);
            &&& buddy_wf(m1)
            &&& m1.base == m.base
            &&& m1.len == m.len
            &&& m1.used == m.used
            &&& m1.buckets.len() == m.buckets.len()
            &&& forall|x: u64, xo: nat|
                xo <= MAX_ORDER && #[trigger] free_block_ok(m, x, xo) && intervals_disjoint(
                    x,
                    block_size(xo),
                    addr,
                    block_size(order),
                ) ==> free_block_ok(m1, x, xo)
        }),
    decreases MAX_ORDER - order,
{
    let bs = block_size(order) as int;
    lemma_block_size_pos(order);
    let s = m.buckets[order as int].free_list;
    assert(!s.contains(addr)) by {
        if s.contains(addr) {
            assert(listed(m, addr, order));
            assert(intervals_disjoint(addr, block_size(order), addr, block_size(order)));
        }
    }
    if order == MAX_ORDER as nat {
        let m1 = spec_free(m, addr, order);
        lemma_free_push_wf(m, addr, order, m.buckets[order as int].bits);
        lemma_free_push_keeps_outstanding(m, addr, order, m1);
    } else {
        lemma_pair_index_range(m, addr, order);
        let p0 = pair_index(m.base, addr, order);
        let bk = m.buckets[order as int];
        let bkt = toggled(bk, m.base, addr, order);
        if bkt.bits[p0] {
            // the pair's other half is still allocated: push this block
            assert(bk.bits[p0] == false);
            assert(pair_count(s, m.base, order, p0) % 2 == 0);
            lemma_free_push_wf(m, addr, order, bkt.bits);
            lemma_free_push_keeps_outstanding(m, addr, order, spec_free(m, addr, order));
        } else {
            assert(bk.bits[p0] == true);
            lemma_free_merge_setup(m, addr, order);
            let m_mid = free_merge_mid(m, addr, order);
            let merged = free_merged_block(m, addr, order);
            lemma_spec_free(m_mid, merged, order + 1);
            let bud = buddy_addr(m.base, addr, order) as u64;
            lemma_block_size_double(order);
            assert forall|x: u64, xo: nat|
                xo <= MAX_ORDER && #[trigger] free_block_ok(m, x, xo) && intervals_disjoint(
                    x,
                    block_size(xo),
                    addr,
                    block_size(order),
                ) implies free_block_ok(spec_free(m, addr, order), x, xo) by {
                lemma_block_size_pos(xo);
                assert(listed(m, bud, order));
                assert(intervals_disjoint(x, block_size(xo), bud, block_size(order)));
                assert(free_block_ok(m_mid, x, xo)) by {
                    assert forall|o: nat, a: u64|
                        o <= MAX_ORDER && #[trigger] listed(m_mid, a, o) implies intervals_disjoint(
                        x,
                        block_size(xo),
                        a,
                        block_size(o),
                    ) by {
                        if o == order {
                            lemma_remove_first_subset(
                                m.buckets[order as int].free_list,
                                bud,
                            );
                            let w = choose|w: int|
                                0 <= w < m_mid.buckets[o as int].free_list.len()
                                    && m_mid.buckets[o as int].free_list[w] == a;
                            assert(m.buckets[order as int].free_list.contains(
                                m_mid.buckets[o as int].free_list[w],
                            ));
                        }
                        assert(listed(m, a, o));
                    }
                }
                assert(intervals_disjoint(x, block_size(xo), merged, block_size(order + 1)));
            }
        }
    }
}

/// The abstract state after the withdrawal half of a merging free: the bit
/// toggled and the pair's other half taken off this order's list.
pub open spec fn free_merge_mid(m: BuddyModel, addr: u64, order: nat) -> BuddyModel {
    let bk = m.buckets[order as int];
    let bkt = toggled(bk, m.base, addr, order);
    let bud = buddy_addr(m.base, addr, order) as u64;
    BuddyModel {
        buckets: m.buckets.update(
            order as int,
            BucketModel { free_list: remove_first(bkt.free_list, bud), bits: bkt.bits },
        ),
        ..m
    }
}

/// The lower of a pending block and its buddy: the canonical merge target.
pub open spec fn free_merged_block(m: BuddyModel, addr: u64, order: nat) -> u64 {
    let bud = buddy_addr(m.base, addr, order) as u64;
    if addr < bud {
        addr
    } else {
        bud
    }
}

/// When a merging free withdraws the pair's other half, the intermediate
/// state is well formed, the merged block satisfies the free precondition
/// one order up, and the free step equals a free of the merged block there.
pub proof fn lemma_free_merge_setup(m: BuddyModel, addr: u64, order: nat)
    requires
        buddy_wf(m),
        order < MAX_ORDER,
        free_block_ok(m, addr, order),
        m.buckets[order as int].bits[pair_index(m.base, addr, order)],
    ensures
        ({
            let m_mid = free_merge_mid(m, addr, order);
            let merged = free_merged_block(m, addr, order);
            let bud = buddy_addr(m.base, addr, order);
            &&& m.base <= bud <= u64::MAX
            &&& (bud == addr + block_size(order) || bud + block_size(order) == addr)
            &&& listed(m, bud as u64, order)
            &&& buddy_wf(m_mid)
            &&& m_mid.base == m.base
            &&& m_mid.len == m.len
            &&& m_mid.used == m.used
            &&& m_mid.buckets.len() == m.buckets.len()
            &&& free_block_ok(m_mid, merged, order + 1)
            &&& spec_free(m, addr, order) == spec_free(m_mid, merged, order + 1)
        }),
{
    let bs = block_size(order) as int;
    lemma_block_size_pos(order);
    let s = m.buckets[order as int].free_list;
    assert(!s.contains(addr)) by {
        if s.contains(addr) {
            assert(listed(m, addr, order));
            assert(intervals_disjoint(addr, block_size(order), addr, block_size(order)));
        }
    }
    lemma_pair_index_range(m, addr, order);
    let p0 = pair_index(m.base, addr, order);
    let bk = m.buckets[order as int];
    let bkt = toggled(bk, m.base, addr, order);
    assert(bk.bits[p0] == true);
    lemma_buddy_listed_when_bit_set(m, addr, order);
    lemma_buddy_props(m.base, addr, order);
    let bud = buddy_addr(m.base, addr, order) as u64;
    assert(s.contains(bud));
    lemma_pair_count_remove_first(s, m.base, order, bud, p0);
    let s1 = remove_first(s, bud);
    let bk1 = BucketModel { free_list: s1, bits: bkt.bits };
    let m_mid = BuddyModel { buckets: m.buckets.update(order as int, bk1), ..m };
    assert(m_mid == free_merge_mid(m, addr, order));
    lemma_remove_first_subset(s, bud);
            // membership after the withdrawal
            assert forall|o: nat, a: u64| o <= MAX_ORDER && #[trigger] listed(m_mid, a, o) implies listed(
                m,
                a,
                o,
            ) by {
                if o == order {
                    let w = choose|w: int| 0 <= w < s1.len() && s1[w] == a;
                    assert(s.contains(s1[w]));
                }
            }
            // the withdrawn value occurs only once, so it is gone
            assert(!listed(m_mid, bud, order)) by {
                lemma_first_index_bounds(s, bud);
                lemma_remove_first_is_remove_at(s, bud);
                let fi = first_index(s, bud);
                if s1.contains(bud) {
                    let w = choose|w: int| 0 <= w < s1.len() && s1[w] == bud;
                    if w < fi {
                        assert(s[w] == bud);
                    } else {
                        assert(s[w + 1] == bud);
                    }
                }
            }
            assert(buddy_wf(m_mid)) by {
                lemma_free_withdraw_wf(m, addr, order, m_mid);
            }
            let merged = if addr < bud {
                addr
            } else {
                bud
            };
            assert(valid_block(m_mid, merged, order + 1)) by {
                lemma_block_size_double(order);
                assert(valid_block(m, bud, order));
            }
            assert(block_unlisted(m_mid, merged, order + 1)) by {
                lemma_block_size_double(order);
                assert forall|o: nat, a: u64| o <= MAX_ORDER && #[trigger] listed(
                    m_mid,
                    a,
                    o,
                ) implies intervals_disjoint(merged, block_size(order + 1), a, block_size(o)) by {
                    lemma_block_size_pos(o);
                    assert(listed(m, a, o));
                    assert(intervals_disjoint(addr, block_size(order), a, block_size(o)));
                    assert(a != bud || o != order);
                    assert(intervals_disjoint(bud, block_size(order), a, block_size(o)));
                    assert(addr + block_size(order) == bud || bud + block_size(order) == addr);
                    assert(merged + block_size(order + 1) == addr + block_size(order) || merged
                        + block_size(order + 1) == bud + block_size(order));
                }
            }
            assert(merged == free_merged_block(m, addr, order));
            assert(spec_free(m, addr, order) == spec_free(m_mid, merged, order + 1));
}

/// A free that only pushes its block keeps every other outstanding block
/// outstanding.
proof fn lemma_free_push_keeps_outstanding(m: BuddyModel, addr: u64, order: nat, m1: BuddyModel)
    requires
        buddy_wf(m),
        order <= MAX_ORDER,
        free_block_ok(m, addr, order),
        m1.base == m.base,
        m1.used == m.used,
        m1.buckets.len() == m.buckets.len(),
        m1.buckets.len() == MAX_ORDER + 1,
        forall|o: nat, a: u64|
            o <= MAX_ORDER && #[trigger] listed(m1, a, o) ==> (listed(m, a, o) || (o == order && a
                == addr)),
    ensures
        forall|x: u64, xo: nat|
            xo <= MAX_ORDER && #[trigger] free_block_ok(m, x, xo) && intervals_disjoint(
                x,
                block_size(xo),
                addr,
                block_size(order),
            ) ==> free_block_ok(m1, x, xo),
{
    assert forall|x: u64, xo: nat|
        xo <= MAX_ORDER && #[trigger] free_block_ok(m, x, xo) && intervals_disjoint(
            x,
            block_size(xo),
            addr,
            block_size(order),
        ) implies free_block_ok(m1, x, xo) by {
        assert forall|o: nat, a: u64| o <= MAX_ORDER && #[trigger] listed(m1, a, o) implies intervals_disjoint(
            x,
            block_size(xo),
            a,
            block_size(o),
        ) by {
            if o == order && a == addr {
            } else {
                assert(listed(m, a, o));
            }
        }
    }
}

/// Pushing a pending block onto its order's free list (with any bit
/// sequence of the same length that respects the new parity) keeps the
/// allocator well formed.
proof fn lemma_free_push_wf(m: BuddyModel, addr: u64, order: nat, new_bits: Seq<bool>)
    requires
        buddy_wf(m),
        order <= MAX_ORDER,
        free_block_ok(m, addr, order),
        new_bits.len() == m.buckets[order as int].bits.len(),
        order < MAX_ORDER ==> new_bits == toggled(
            m.buckets[order as int],
            m.base,
            addr,
            order,
        ).bits,
        order == MAX_ORDER ==> new_bits == m.buckets[order as int].bits,
        order < MAX_ORDER ==> !m.buckets[order as int].bits[pair_index(m.base, addr, order)],
    ensures
        ({
            let bk1 = BucketModel {
                free_list: seq![addr] + m.buckets[order as int].free_list,
                bits: new_bits,
            };
            let m1 = BuddyModel { buckets: m.buckets.update(order as int, bk1), ..m };
            buddy_wf(m1)
        }),
{
    let s = m.buckets[order as int].free_list;
    let bk1 = BucketModel { free_list: seq![addr] + s, bits: new_bits };
    let m1 = BuddyModel { buckets: m.buckets.update(order as int, bk1), ..m };
    let t = seq![addr] + s;
    lemma_block_size_pos(order);
    assert(t[0] == addr);
    assert forall|a: u64| #[trigger] t.contains(a) implies a == addr || s.contains(a) by {
        lemma_cons_contains(s, addr, a);
    }
    assert(!s.contains(addr)) by {
        if s.contains(addr) {
            assert(listed(m, addr, order));
            assert(intervals_disjoint(addr, block_size(order), addr, block_size(order)));
        }
    }
    assert forall|o: nat, a: u64| o <= MAX_ORDER && #[trigger] listed(m1, a, o) implies (listed(
        m,
        a,
        o,
    ) || (o == order && a == addr)) by {
        if o == order {
            let w = choose|w: int| 0 <= w < t.len() && t[w] == a;
            if w > 0 {
                assert(s[w - 1] == a);
            }
        }
    }
    assert(bucket_lists_wf(m1)) by {
        assert forall|o: nat, i: int|
            o <= MAX_ORDER && 0 <= i < m1.buckets[o as int].free_list.len() implies valid_block(
            m1,
            #[trigger] m1.buckets[o as int].free_list[i],
            o,
        ) by {
            if o == order {
                if i > 0 {
                    assert(t[i] == s[i - 1]);
                    assert(s.contains(s[i - 1]));
                }
            } else {
                assert(m1.buckets[o as int].free_list.contains(
                    m1.buckets[o as int].free_list[i],
                ));
                assert(listed(m, m1.buckets[o as int].free_list[i], o));
            }
        }
    }
    assert(no_duplicate_blocks(m1)) by {
        assert forall|o: nat, i: int, j: int|
            o <= MAX_ORDER && 0 <= i < j < m1.buckets[o as int].free_list.len()
            implies #[trigger] m1.buckets[o as int].free_list[i]
            != #[trigger] m1.buckets[o as int].free_list[j] by {
            if o == order {
                if i == 0 {
                    assert(t[j] == s[j - 1]);
                    assert(s.contains(s[j - 1]));
                    assert(t[0] == addr);
                } else {
                    assert(t[i] == s[i - 1]);
                    assert(t[j] == s[j - 1]);
                }
            }
        }
    }
    assert(lists_disjoint(m1)) by {
        assert forall|o1: nat, a1: u64, o2: nat, a2: u64|
            o1 <= MAX_ORDER && o2 <= MAX_ORDER && #[trigger] listed(m1, a1, o1)
                && #[trigger] listed(m1, a2, o2) && (a1 != a2 || o1 != o2)
            implies intervals_disjoint(a1, block_size(o1), a2, block_size(o2)) by {
            if o1 == order && a1 == addr {
                if !(o2 == order && a2 == addr) {
                    assert(listed(m, a2, o2));
                }
            } else if o2 == order && a2 == addr {
                assert(listed(m, a1, o1));
            } else {
                assert(listed(m, a1, o1) && listed(m, a2, o2));
            }
        }
    }
    assert(bucket_parity_wf(m1)) by {
        assert forall|o: nat, p: int|
            o < MAX_ORDER && 0 <= p < m1.buckets[o as int].bits.len() implies (
        #[trigger] m1.buckets[o as int].bits[p]) == (pair_count(
            m1.buckets[o as int].free_list,
            m1.base,
            o,
            p,
        ) % 2 == 1) by {
            if o == order {
                lemma_pair_count_cons(s, m.base, o, addr, p);
                lemma_pair_index_range(m, addr, o);
            }
        }
    }
    assert(buddies_coalesced(m1)) by {
        if order < MAX_ORDER as nat {
            lemma_pair_index_range(m, addr, order);
            lemma_buddy_props(m.base, addr, order);
            let p0 = pair_index(m.base, addr, order);
            let bud = buddy_addr(m.base, addr, order) as u64;
            assert(pair_count(s, m.base, order, p0) % 2 == 0);
            assert forall|i: int|
                0 <= i < s.len() && pair_index(m.base, #[trigger] s[i], order) == p0 implies s[i]
                == addr || s[i] == bud by {
                assert(s.contains(s[i]));
                assert(listed(m, s[i], order));
                let w = choose|w: int| 0 <= w < s.len() && s[w] == s[i];
                assert(valid_block(m, s[i], order));
            }
            lemma_pair_count_unique(s, m.base, order, p0, addr, bud);
            assert(!s.contains(bud));
            assert forall|o: nat, a1: u64, a2: u64|
                o < MAX_ORDER && #[trigger] listed(m1, a1, o) && #[trigger] listed(m1, a2, o)
                implies a2 != buddy_addr(m1.base, a1, o) by {
                if o == order {
                    if a1 == addr {
                        if a2 != addr {
                            assert(listed(m, a2, o));
                            assert(a2 != bud);
                        }
                    } else {
                        assert(listed(m, a1, o));
                        if a2 == addr {
                            assert(s.contains(a1));
                            assert(valid_block(m, a1, order));
                            lemma_buddy_props(m.base, a1, order);
                            if buddy_addr(m.base, a1, order) == addr {
                                assert(pair_index(m.base, a1, order) == p0) by {
                                    assert((addr - m.base) / (2 * block_size(order) as int)
                                        == pair_index(m.base, a1, order));
                                }
                                assert(a1 == addr || a1 == bud);
                                assert(false);
                            }
                        } else {
                            assert(listed(m, a2, o));
                        }
                    }
                } else {
                    assert(listed(m, a1, o) && listed(m, a2, o));
                }
            }
        } else {
            assert forall|o: nat, a1: u64, a2: u64|
                o < MAX_ORDER && #[trigger] listed(m1, a1, o) && #[trigger] listed(m1, a2, o)
                implies a2 != buddy_addr(m1.base, a1, o) by {
                assert(listed(m, a1, o) && listed(m, a2, o));
            }
        }
    }
    assert(bucket_bits_wf(m1)) by {
        assert forall|o: nat| o <= MAX_ORDER implies (#[trigger] m1.buckets[o as int].bits.len())
            * (2 * block_size(o) as int) >= (m1.len as int / SIZE_OF_MAX_ORDER as int)
            * SIZE_OF_MAX_ORDER && m1.buckets[o as int].bits.len() <= usize::MAX by {
            if o != order {
                assert(m1.buckets[o as int] == m.buckets[o as int]);
            }
        }
    }
    assert(buddy_wf(m1));
}

/// Withdrawing the listed half of a pair (with its bit cleared) keeps the
/// allocator well formed.
proof fn lemma_free_withdraw_wf(m: BuddyModel, addr: u64, order: nat, m_mid: BuddyModel)
    requires
        buddy_wf(m),
        order < MAX_ORDER,
        free_block_ok(m, addr, order),
        m.buckets[order as int].bits[pair_index(m.base, addr, order)],
        listed(m, buddy_addr(m.base, addr, order) as u64, order),
        base_le_buddy(m, addr, order),
        m_mid == ({
            let bk = m.buckets[order as int];
            let bkt = toggled(bk, m.base, addr, order);
            let bud = buddy_addr(m.base, addr, order) as u64;
            let bk1 = BucketModel { free_list: remove_first(bkt.free_list, bud), bits: bkt.bits };
            BuddyModel { buckets: m.buckets.update(order as int, bk1), ..m }
        }),
    ensures
        buddy_wf(m_mid),
{
    let bk = m.buckets[order as int];
    let s = bk.free_list;
    let bud = buddy_addr(m.base, addr, order) as u64;
    let s1 = remove_first(s, bud);
    let p0 = pair_index(m.base, addr, order);
    lemma_block_size_pos(order);
    lemma_pair_index_range(m, addr, order);
    lemma_buddy_props(m.base, addr, order);
    lemma_remove_first_subset(s, bud);
    lemma_first_index_bounds(s, bud);
    lemma_remove_first_is_remove_at(s, bud);
    let fi = first_index(s, bud);
    assert forall|a: u64| #[trigger] s1.contains(a) implies s.contains(a) by {
        let w = choose|w: int| 0 <= w < s1.len() && s1[w] == a;
        assert(s.contains(s1[w]));
    }
    assert forall|o: nat, a: u64| o <= MAX_ORDER && #[trigger] listed(m_mid, a, o) implies listed(
        m,
        a,
        o,
    ) by {}
    assert(bucket_lists_wf(m_mid)) by {
        assert forall|o: nat, i: int|
            o <= MAX_ORDER && 0 <= i < m_mid.buckets[o as int].free_list.len() implies valid_block(
            m_mid,
            #[trigger] m_mid.buckets[o as int].free_list[i],
            o,
        ) by {
            assert(m_mid.buckets[o as int].free_list.contains(
                m_mid.buckets[o as int].free_list[i],
            ));
            assert(listed(m, m_mid.buckets[o as int].free_list[i], o));
        }
    }
    assert(no_duplicate_blocks(m_mid)) by {
        assert forall|o: nat, i: int, j: int|
            o <= MAX_ORDER && 0 <= i < j < m_mid.buckets[o as int].free_list.len()
            implies #[trigger] m_mid.buckets[o as int].free_list[i]
            != #[trigger] m_mid.buckets[o as int].free_list[j] by {
            if o == order {
                assert(s1 == s.remove(fi));
                if i < fi {
                    assert(s1[i] == s[i]);
                } else {
                    assert(s1[i] == s[i + 1]);
                }
                if j < fi {
                    assert(s1[j] == s[j]);
                } else {
                    assert(s1[j] == s[j + 1]);
                }
            }
        }
    }
    assert(lists_disjoint(m_mid)) by {
        assert forall|o1: nat, a1: u64, o2: nat, a2: u64|
            o1 <= MAX_ORDER && o2 <= MAX_ORDER && #[trigger] listed(m_mid, a1, o1)
                && #[trigger] listed(m_mid, a2, o2) && (a1 != a2 || o1 != o2)
            implies intervals_disjoint(a1, block_size(o1), a2, block_size(o2)) by {
            assert(listed(m, a1, o1) && listed(m, a2, o2));
        }
    }
    assert(bucket_parity_wf(m_mid)) by {
        assert forall|o: nat, p: int|
            o < MAX_ORDER && 0 <= p < m_mid.buckets[o as int].bits.len() implies (
        #[trigger] m_mid.buckets[o as int].bits[p]) == (pair_count(
            m_mid.buckets[o as int].free_list,
            m_mid.base,
            o,
            p,
        ) % 2 == 1) by {
            if o == order {
                lemma_pair_count_remove_first(s, m.base, o, bud, p);
            }
        }
    }
    assert(bucket_bits_wf(m_mid)) by {
        assert forall|o: nat| o <= MAX_ORDER implies (
        #[trigger] m_mid.buckets[o as int].bits.len()) * (2 * block_size(o) as int) >= (
        m_mid.len as int / SIZE_OF_MAX_ORDER as int) * SIZE_OF_MAX_ORDER && m_mid.buckets[o as int].bits.len() <= usize::MAX by {
            if o != order {
                assert(m_mid.buckets[o as int] == m.buckets[o as int]);
            }
        }
    }
    assert(buddy_wf(m_mid));
}

/// The two order-`order` halves of a valid block of the next order.
proof fn lemma_split_block_facts(m1: BuddyModel, b: u64, order: nat)
    requires
        buddy_wf(m1),
        order < MAX_ORDER,
        valid_block(m1, b, order + 1),
    ensures
        b + block_size(order) <= u64::MAX,
        valid_block(m1, b, order),
        valid_block(m1, (b + block_size(order)) as u64, order),
        pair_index(m1.base, (b + block_size(order)) as u64, order) == pair_index(m1.base, b, order),
        buddy_addr(m1.base, b, order) == b + block_size(order),
{
    let bs = block_size(order) as int;
    lemma_block_size_pos(order);
    lemma_block_size_double(order);
    let d1 = b - m1.base;
    lemma_fundamental_div_mod(d1, 2 * bs);
    let j = d1 / (2 * bs);
    lemma_div_pos_is_pos(d1, 2 * bs);
    assert(d1 == (2 * j) * bs) by (nonlinear_arith)
        requires
            d1 == (2 * bs) * j,
    ;
    lemma_fundamental_div_mod_converse(d1, bs, 2 * j, 0);
    lemma_mod_multiples_basic(j, 2);
    assert((2 * j) % 2 == 0) by {
        lemma_mul_is_commutative(j, 2);
    }
    lemma_buddy_props(m1.base, b, order);
    assert(b + 2 * bs <= m1.base + m1.used);
    assert(m1.base + m1.len <= PHYS_MEM_OFFSET + PHYS_SPAN_LIMIT);
    let buddy = (b + block_size(order)) as u64;
    assert(buddy == b + bs);
    assert((buddy - m1.base) / (2 * bs) == pair_index(m1.base, b, order));
}

/// One order's free list and coalescing bitmap.
struct Bucket {
    free_list: DoublyListHead,
    bitmap: Bitmap,
}

/// The buddy page-frame allocator over one contiguous region.
pub struct BuddyAllocator {
    memory_base: u64,
    memory_len: u64,
    used: u64,
    buckets: Vec<Bucket>,
}

impl View for BuddyAllocator {
    type V = BuddyModel;

    closed spec fn view(&self) -> BuddyModel {
        BuddyModel {
            base: self.memory_base,
            len: self.memory_len,
            used: self.used,
            buckets: Seq::new(
                self.buckets@.len(),
                |i: int|
                    BucketModel {
                        free_list: self.buckets@[i].free_list@,
                        bits: self.buckets@[i].bitmap@,
                    },
            ),
        }
    }
}

/// Executable form of [`block_size`].
pub(crate) fn block_size_exec(order: usize) -> (r: u64)
    requires
        order <= 11,
    ensures
        r == block_size(order as nat),
{
    proof {
        lemma2_to64();
        if (order as nat) < 11 {
            vstd::arithmetic::power2::lemma_pow2_strictly_increases(order as nat, 11);
        }
        vstd::bits::lemma_u64_shl_is_mul(PAGE_SIZE, order as u64);
    }
    PAGE_SIZE << (order as u64)
}

/// Executable form of [`pair_index`].
fn pair_index_exec(base: u64, addr: u64, order: usize) -> (r: u64)
    requires
        order <= MAX_ORDER,
        base <= addr,
    ensures
        r == pair_index(base, addr, order as nat),
{
    let bs = block_size_exec(order);
    proof {
        lemma_block_size_pos(order as nat);
        lemma_block_size_max(order as nat);
    }
    (addr - base) / (2 * bs)
}

impl BuddyAllocator {
    /// Allocate one block of 2^`order` pages: pop a free block of this
    /// order, or carve a fresh top-order block from the region's tail, or
    /// split a block of the next order.  Returns the block's address, or
    /// `None` exactly when the region cannot serve the request.
    pub fn alloc_pages_order(&mut self, order: usize) -> (r: Option<u64>)
        requires
            buddy_wf(old(self)@),
            order <= MAX_ORDER,
        ensures
            buddy_wf(final(self)@),
            match r {
                Some(b) => spec_alloc(old(self)@, order as nat) == Some((b, final(self)@)),
                None => spec_alloc(old(self)@, order as nat).is_none() && final(self)@ == old(
                    self,
                )@,
            },
        decreases MAX_ORDER - order,
    {
        let ghost m0 = self@;
        proof {
            lemma_spec_alloc(m0, order as nat);
            lemma_block_size_pos(order as nat);
        }
        if !self.buckets[order].free_list.is_empty() {
            let page = self.buckets[order].free_list.first();
            proof {
                assert(m0.buckets[order as int].free_list[0] == page);
                assert(m0.buckets[order as int].free_list.contains(page));
                assert(listed(m0, page, order as nat));
                assert(valid_block(m0, page, order as nat));
                if order < MAX_ORDER {
                    lemma_pair_index_range(m0, page, order as nat);
                }
                assert(remove_first(m0.buckets[order as int].free_list, page)
                    =~= m0.buckets[order as int].free_list.drop_first());
            }
            let base = self.memory_base;
            let bucket = &mut self.buckets[order];
            bucket.free_list.delete(page);
            if order != MAX_ORDER {
                let idx = pair_index_exec(base, page, order);
                let cur = bucket.bitmap.get(idx);
                bucket.bitmap.set(idx, !cur);
            }
            proof {
                assert(self@ =~~= spec_alloc(m0, order as nat).unwrap().1);
            }
            Some(page)
        } else if order == MAX_ORDER {
            if self.used + SIZE_OF_MAX_ORDER > self.memory_len {
                None
            } else {
                let page = self.memory_base + self.used;
                self.used = self.used + SIZE_OF_MAX_ORDER;
                proof {
                    assert(self@ =~~= spec_alloc(m0, order as nat).unwrap().1);
                }
                Some(page)
            }
        } else {
            match self.alloc_pages_order(order + 1) {
                None => None,
                Some(buddies) => {
                    proof {
                        lemma_spec_alloc(m0, order as nat + 1);
                        lemma_split_block_facts(self@, buddies, order as nat);
                        lemma_pair_index_range(
                            self@,
                            (buddies + block_size(order as nat)) as u64,
                            order as nat,
                        );
                    }
                    let bs = block_size_exec(order);
                    let buddy = buddies + bs;
                    let base = self.memory_base;
                    let bucket = &mut self.buckets[order];
                    bucket.free_list.insert_after(buddy);
                    let idx = pair_index_exec(base, buddy, order);
                    let cur = bucket.bitmap.get(idx);
                    bucket.bitmap.set(idx, !cur);
                    proof {
                        assert(self@ =~~= spec_alloc(m0, order as nat).unwrap().1);
                    }
                    Some(buddies)
                },
            }
        }
    }

    /// Release one block of 2^`order` pages at `page`.  The caller must hand
    /// back the exact address and order of an outstanding allocation.  At the
    /// top order the block is simply listed; below it the block merges with
    /// its buddy whenever that buddy is free too, recursively upward.
    pub fn free_pages_order(&mut self, page: u64, order: usize)
        requires
            buddy_wf(old(self)@),
            order <= MAX_ORDER,
            free_block_ok(old(self)@, page, order as nat),
        ensures
            buddy_wf(final(self)@),
            final(self)@ == spec_free(old(self)@, page, order as nat),
        decreases MAX_ORDER - order,
    {
        let ghost m0 = self@;
        proof {
            lemma_spec_free(m0, page, order as nat);
            lemma_block_size_pos(order as nat);
        }
        if order == MAX_ORDER {
            let bucket = &mut self.buckets[order];
            bucket.free_list.insert_after(page);
            proof {
                assert(self@ =~~= spec_free(m0, page, order as nat));
            }
        } else {
            proof {
                lemma_pair_index_range(m0, page, order as nat);
            }
            let base = self.memory_base;
            let idx = pair_index_exec(base, page, order);
            let bucket = &mut self.buckets[order];
            let cur = bucket.bitmap.get(idx);
            bucket.bitmap.set(idx, !cur);
            if !cur {
                // the pair's other half is still allocated: list this block
                bucket.free_list.insert_after(page);
                proof {
                    assert(self@ =~~= spec_free(m0, page, order as nat));
                }
            } else {
                // the pair's other half is free too: withdraw it and merge
                proof {
                    lemma_free_merge_setup(m0, page, order as nat);
                    lemma_block_size_pos(order as nat);
                }
                let bs = block_size_exec(order);
                let offset = page - base;
                let buddy = if (offset / bs) % 2 == 0 {
                    page + bs
                } else {
                    page - bs
                };
                proof {
                    assert(buddy == buddy_addr(m0.base, page, order as nat));
                    assert(listed(m0, buddy, order as nat));
                    assert(bucket.free_list@.contains(buddy));
                }
                bucket.free_list.delete(buddy);
                let merged = if page < buddy {
                    page
                } else {
                    buddy
                };
                proof {
                    assert(self@ =~~= free_merge_mid(m0, page, order as nat));
                    assert(merged == free_merged_block(m0, page, order as nat));
                }
                self.free_pages_order(merged, order + 1);
                proof {
                    assert(self@ == spec_free(m0, page, order as nat));
                }
            }
        }
    }

    /// Allocate at least `num_pages` pages: the request is rounded up to the
    /// smallest covering order.  The caller must remember that order (or the
    /// same page count) and hand it back on free.
    pub fn alloc_pages(&mut self, num_pages: u64) -> (r: Option<u64>)
        requires
            buddy_wf(old(self)@),
            1 <= num_pages <= 1024,
        ensures
            buddy_wf(final(self)@),
            match r {
                Some(b) => spec_alloc(old(self)@, log2_ceil_spec(num_pages as nat)) == Some(
                    (b, final(self)@),
                ),
                None => spec_alloc(old(self)@, log2_ceil_spec(num_pages as nat)).is_none()
                    && final(self)@ == old(self)@,
            },
    {
        let order = log2_ceil(num_pages);
        proof {
            lemma_log2_ceil_le_10(num_pages as nat);
        }
        self.alloc_pages_order(order)
    }

    /// Release an allocation made by `alloc_pages` with the same page count.
    pub fn free_pages(&mut self, ptr: u64, num_pages: u64)
        requires
            buddy_wf(old(self)@),
            1 <= num_pages <= 1024,
            free_block_ok(old(self)@, ptr, log2_ceil_spec(num_pages as nat)),
        ensures
            buddy_wf(final(self)@),
            final(self)@ == spec_free(old(self)@, ptr, log2_ceil_spec(num_pages as nat)),
    {
        let order = log2_ceil(num_pages);
        proof {
            lemma_log2_ceil_le_10(num_pages as nat);
        }
        self.free_pages_order(ptr, order)
    }
}

/// Requests of at most 1024 pages round up to at most the top order.
pub proof fn lemma_log2_ceil_le_10(n: nat)
    requires
        1 <= n <= 1024,
    ensures
        log2_ceil_spec(n) <= 10,
{
    crate::helper::lemma_log2_ceil_spec_bracket(n);
    lemma2_to64();
    if log2_ceil_spec(n) > 10 {
        vstd::arithmetic::power2::lemma_pow2_strictly_increases(
            10,
            (log2_ceil_spec(n) - 1) as nat,
        );
    }
}

// ---- initialization ----

/// How many order-`order` blocks the init loop budgets bits for: the number
/// of whole top-order blocks in the raw region, doubled per order below the
/// top.
pub open spec fn blocks_at(len: u64, order: nat) -> nat {
    (len as nat / SIZE_OF_MAX_ORDER as nat) * pow2((MAX_ORDER - order) as nat)
}

/// Bits held by the bitmap built for `order`: the block budget rounded up to
/// whole bytes.
pub open spec fn bitmap_bits_at(len: u64, order: nat) -> nat {
    ((blocks_at(len, order) + 7) / 8) * 8
}

/// Bytes consumed from the region's head by the bitmaps of the orders below
/// `o`.
pub open spec fn bitmap_bytes_upto(len: u64, o: nat) -> nat
    decreases o,
{
    if o == 0 {
        0
    } else {
        bitmap_bytes_upto(len, (o - 1) as nat) + (blocks_at(len, (o - 1) as nat) + 7) / 8
    }
}

proof fn lemma_blocks_at_bound(len: u64, o: nat)
    requires
        o <= MAX_ORDER,
    ensures
        blocks_at(len, o) <= (len as nat / SIZE_OF_MAX_ORDER as nat) * 1024,
{
    lemma2_to64();
    if ((MAX_ORDER - o) as nat) < 10 {
        vstd::arithmetic::power2::lemma_pow2_strictly_increases((MAX_ORDER - o) as nat, 10);
    }
    lemma_mul_inequality(
        pow2((MAX_ORDER - o) as nat) as int,
        1024,
        (len as nat / SIZE_OF_MAX_ORDER as nat) as int,
    );
    lemma_mul_is_commutative(
        (len as nat / SIZE_OF_MAX_ORDER as nat) as int,
        pow2((MAX_ORDER - o) as nat) as int,
    );
    lemma_mul_is_commutative((len as nat / SIZE_OF_MAX_ORDER as nat) as int, 1024);
}

proof fn lemma_bitmap_bytes_upto_bound(len: u64, o: nat)
    requires
        o <= 11,
    ensures
        bitmap_bytes_upto(len, o) <= o * ((len as nat / SIZE_OF_MAX_ORDER as nat) * 128 + 1),
    decreases o,
{
    if o > 0 {
        lemma_bitmap_bytes_upto_bound(len, (o - 1) as nat);
        lemma_blocks_at_bound(len, (o - 1) as nat);
        let q = len as nat / SIZE_OF_MAX_ORDER as nat;
        assert((blocks_at(len, (o - 1) as nat) + 7) / 8 <= q * 128 + 1) by (nonlinear_arith)
            requires
                blocks_at(len, (o - 1) as nat) <= q * 1024,
        ;
        assert((o - 1) * (q * 128 + 1) + (q * 128 + 1) == o * (q * 128 + 1)) by (nonlinear_arith);
    }
}

/// The bitmap budgeted for an order covers every block the carved region
/// can ever hold.
proof fn lemma_init_bits_cover(len: u64, rlen: u64, o: nat)
    requires
        rlen <= len,
        o <= MAX_ORDER,
    ensures
        bitmap_bits_at(len, o) * (2 * block_size(o) as int) >= (rlen as int
            / SIZE_OF_MAX_ORDER as int) * SIZE_OF_MAX_ORDER,
{
    let q = len as nat / SIZE_OF_MAX_ORDER as nat;
    let bl = blocks_at(len, o);
    let bits = bitmap_bits_at(len, o);
    assert(bits >= bl) by (nonlinear_arith)
        requires
            bits == ((bl + 7) / 8) * 8,
    ;
    let bs = block_size(o);
    lemma_block_size_pos(o);
    lemma_block_size_max(o);
    assert(bl * (2 * bs) == q * (2 * SIZE_OF_MAX_ORDER as nat)) by (nonlinear_arith)
        requires
            bl == q * pow2((MAX_ORDER - o) as nat),
            SIZE_OF_MAX_ORDER == bs * pow2((MAX_ORDER - o) as nat),
            bs > 0,
    ;
    lemma_div_is_ordered(rlen as int, len as int, SIZE_OF_MAX_ORDER as int);
    assert((rlen as int / SIZE_OF_MAX_ORDER as int) * SIZE_OF_MAX_ORDER <= q * (2
        * SIZE_OF_MAX_ORDER as nat)) by (nonlinear_arith)
        requires
            rlen as int / SIZE_OF_MAX_ORDER as int <= q,
            rlen as int / SIZE_OF_MAX_ORDER as int >= 0,
    ;
    assert(bits * (2 * bs as int) >= bl * (2 * bs as int)) by (nonlinear_arith)
        requires
            bits >= bl,
            bs > 0,
    ;
}

impl BuddyAllocator {
    /// Set up the allocator over the raw region `[base, base+len)`: budget
    /// the bytes a coalescing bitmap for every order takes from the
    /// region's head, then align what remains up to one top-order block;
    /// that aligned tail is the managed region, initially unused, with
    /// every free list empty.
    pub fn init(base: u64, len: u64) -> (r: BuddyAllocator)
        requires
            PHYS_MEM_OFFSET <= base,
            base + len <= PHYS_MEM_OFFSET + PHYS_SPAN_LIMIT - 2 * SIZE_OF_MAX_ORDER,
            (len / SIZE_OF_MAX_ORDER) * 1024 + 7 <= usize::MAX / 8,
        ensures
            buddy_wf(r@),
            r@.used == 0,
            r@.len <= len,
            forall|o: int|
                0 <= o <= MAX_ORDER ==> (#[trigger] r@.buckets[o]).free_list
                    == Seq::<u64>::empty() && r@.buckets[o].bits == Seq::new(
                    bitmap_bits_at(len, o as nat),
                    |j: int| false,
                ),
            ({
                let total = bitmap_bytes_upto(len, 11) as int;
                let sz = SIZE_OF_MAX_ORDER as int;
                let fp = ((base + total + (sz - 1)) / sz) * sz;
                if fp <= base + len {
                    r@.base == fp && r@.base + r@.len == base + len
                } else {
                    r@.len == 0
                }
            }),
    {
        let num_top = len / SIZE_OF_MAX_ORDER;
        proof {
            assert(len <= PHYS_SPAN_LIMIT);
            lemma_div_is_ordered(len as int, PHYS_SPAN_LIMIT as int, SIZE_OF_MAX_ORDER as int);
        }
        let mut buckets: Vec<Bucket> = Vec::new();
        let mut total: u64 = 0;
        let mut order: usize = 0;
        while order <= MAX_ORDER
            invariant
                PHYS_MEM_OFFSET <= base,
                base + len <= PHYS_MEM_OFFSET + PHYS_SPAN_LIMIT - 2 * SIZE_OF_MAX_ORDER,
                (len / SIZE_OF_MAX_ORDER) * 1024 + 7 <= usize::MAX / 8,
                num_top == len / SIZE_OF_MAX_ORDER,
                num_top <= 0x1000000,
                buckets@.len() == order,
                order <= 11,
                total == bitmap_bytes_upto(len, order as nat),
                forall|i: int|
                    0 <= i < order ==> (#[trigger] buckets@[i].free_list@)
                        == Seq::<u64>::empty() && buckets@[i].bitmap@ == Seq::new(
                        bitmap_bits_at(len, i as nat),
                        |j: int| false,
                    ),
            decreases 11 - order,
        {
            let shift = (MAX_ORDER - order) as u64;
            proof {
                lemma2_to64();
                if (shift as nat) < 10 {
                    vstd::arithmetic::power2::lemma_pow2_strictly_increases(shift as nat, 10);
                }
                assert(num_top * pow2(shift as nat) <= num_top * 1024) by (nonlinear_arith)
                    requires
                        pow2(shift as nat) <= 1024,
                        num_top >= 0,
                ;
                vstd::bits::lemma_u64_shl_is_mul(num_top, shift);
            }
            let blocks = num_top << shift;
            let bitmap_bytes = (blocks + 7) / 8;
            let bits_count = bitmap_bytes * 8;
            proof {
                assert(blocks == blocks_at(len, order as nat));
                assert(bits_count == bitmap_bits_at(len, order as nat));
                assert(bits_count <= blocks + 7) by (nonlinear_arith)
                    requires
                        bitmap_bytes == (blocks + 7) / 8,
                        bits_count == bitmap_bytes * 8,
                        blocks >= 0,
                ;
                lemma_blocks_at_bound(len, order as nat);
                lemma_bitmap_bytes_upto_bound(len, order as nat + 1);
                assert(bitmap_bytes_upto(len, order as nat + 1) <= 11 * (0x1000000 * 128 + 1))
                    by (nonlinear_arith)
                    requires
                        bitmap_bytes_upto(len, order as nat + 1) <= (order as nat + 1) * ((
                        len as nat / SIZE_OF_MAX_ORDER as nat) * 128 + 1),
                        order as nat + 1 <= 11,
                        len as nat / SIZE_OF_MAX_ORDER as nat <= 0x1000000,
                ;
            }
            let bitmap = Bitmap::new_zeroed(bits_count);
            buckets.push(Bucket { free_list: DoublyListHead::new_empty(), bitmap });
            total = total + bitmap_bytes;
            order = order + 1;
        }
        proof {
            lemma_bitmap_bytes_upto_bound(len, 11);
        }
        let fp = align_up(base + total, SIZE_OF_MAX_ORDER);
        let memory_base: u64;
        let memory_len: u64;
        if fp <= base + len {
            memory_base = fp;
            memory_len = base + len - fp;
        } else {
            memory_base = align_up(base, SIZE_OF_MAX_ORDER);
            memory_len = 0;
        }
        let r = BuddyAllocator { memory_base, memory_len, used: 0, buckets };
        proof {
            let m = r@;
            assert(m.buckets.len() == MAX_ORDER + 1);
            assert forall|o: nat, i: int|
                o <= MAX_ORDER && 0 <= i < m.buckets[o as int].free_list.len() implies valid_block(
                m,
                #[trigger] m.buckets[o as int].free_list[i],
                o,
            ) by {}
            assert forall|o: nat, p: int|
                o < MAX_ORDER && 0 <= p < m.buckets[o as int].bits.len() implies (
            #[trigger] m.buckets[o as int].bits[p]) == (pair_count(
                m.buckets[o as int].free_list,
                m.base,
                o,
                p,
            ) % 2 == 1) by {
                assert(m.buckets[o as int].bits[p] == false);
                assert(m.buckets[o as int].free_list.len() == 0);
            }
            assert forall|o: nat| o <= MAX_ORDER implies (#[trigger] m.buckets[o as int].bits.len())
                * (2 * block_size(o) as int) >= (m.len as int / SIZE_OF_MAX_ORDER as int)
                * SIZE_OF_MAX_ORDER && m.buckets[o as int].bits.len() <= usize::MAX by {
                lemma_init_bits_cover(len, memory_len, o);
                lemma_blocks_at_bound(len, o);
                assert(bitmap_bits_at(len, o) <= blocks_at(len, o) + 7) by (nonlinear_arith);
            }
            assert(no_duplicate_blocks(m));
            assert(lists_disjoint(m)) by {
                assert forall|o1: nat, a1: u64, o2: nat, a2: u64|
                    o1 <= MAX_ORDER && o2 <= MAX_ORDER && #[trigger] listed(m, a1, o1)
                        && #[trigger] listed(m, a2, o2) && (a1 != a2 || o1 != o2)
                    implies intervals_disjoint(a1, block_size(o1), a2, block_size(o2)) by {
                    let w = choose|w: int|
                        0 <= w < m.buckets[o1 as int].free_list.len()
                            && m.buckets[o1 as int].free_list[w] == a1;
                }
            }
            assert(buddies_coalesced(m)) by {
                assert forall|o: nat, a1: u64, a2: u64|
                    o < MAX_ORDER && #[trigger] listed(m, a1, o) && #[trigger] listed(m, a2, o)
                    implies a2 != buddy_addr(m.base, a1, o) by {
                    let w = choose|w: int|
                        0 <= w < m.buckets[o as int].free_list.len()
                            && m.buckets[o as int].free_list[w] == a1;
                }
            }
            assert(buddy_wf(m));
        }
        r
    }
}

// ---- laws ----

/// Allocate-then-free round trip: when an allocation at `order` is served
/// from the free lists (the bump offset does not move), freeing the returned
/// block at the same order restores the free-list and bitmap state exactly.
/// An allocation carved from the never-yet-split tail is the one exception:
/// freeing it lands the block on the top-order free list instead of
/// returning it to the tail, which is why the hypothesis fixes the offset.
pub proof fn lemma_alloc_free_restores(m: BuddyModel, order: nat)
    requires
        buddy_wf(m),
        order <= MAX_ORDER,
        spec_alloc(m, order).is_some(),
        spec_alloc(m, order).unwrap().1.used == m.used,
    ensures
        spec_free(spec_alloc(m, order).unwrap().1, spec_alloc(m, order).unwrap().0, order) == m,
    decreases MAX_ORDER - order,
{
    let (b, m1) = spec_alloc(m, order).unwrap();
    let s = m.buckets[order as int].free_list;
    let bk = m.buckets[order as int];
    lemma_block_size_pos(order);
    if s.len() > 0 {
        assert(b == s[0]);
        assert(s.contains(b));
        assert(listed(m, b, order));
        assert(valid_block(m, b, order));
        if order == MAX_ORDER as nat {
            let m2 = spec_free(m1, b, order);
            assert(m2.buckets[order as int].free_list =~= s) by {
                assert(seq![b] + s.drop_first() =~= s);
            }
            assert(m2.buckets =~~= m.buckets);
            assert(m2 =~~= m);
        } else {
            lemma_pair_index_range(m, b, order);
            let p0 = pair_index(m.base, b, order);
            lemma_buddy_props(m.base, b, order);
            let bud = buddy_addr(m.base, b, order) as u64;
            assert(!s.contains(bud)) by {
                if s.contains(bud) {
                    assert(listed(m, bud, order) && listed(m, b, order));
                }
            }
            assert forall|i: int|
                0 <= i < s.len() && pair_index(m.base, #[trigger] s[i], order) == p0 implies s[i]
                == b || s[i] == bud by {
                assert(s.contains(s[i]));
                assert(listed(m, s[i], order));
                assert(valid_block(m, s[i], order));
            }
            lemma_pair_count_unique(s, m.base, order, p0, b, bud);
            assert(pair_count(s, m.base, order, p0) == 1);
            assert(bk.bits[p0] == true);
            assert(m1.buckets[order as int].bits[p0] == false);
            let m2 = spec_free(m1, b, order);
            assert(m2.buckets[order as int].free_list =~= s) by {
                assert(seq![b] + s.drop_first() =~= s);
            }
            assert(m2.buckets[order as int].bits =~= bk.bits);
            assert(m2.buckets =~~= m.buckets);
            assert(m2 =~~= m);
        }
    } else if order == MAX_ORDER as nat {
        assert(m1.used == m.used + SIZE_OF_MAX_ORDER);
        assert(false);
    } else {
        let (b1, mrec) = spec_alloc(m, order + 1).unwrap();
        lemma_spec_alloc(m, order + 1);
        assert(b == b1);
        assert(m1.used == mrec.used);
        assert(mrec.used == m.used);
        lemma_alloc_free_restores(m, order + 1);
        assert(spec_free(mrec, b, order + 1) == m);
        // reconstruct the split bucket and undo it
        let bs = block_size(order) as int;
        lemma_block_size_double(order);
        assert(valid_block(mrec, b, order + 1));
        let d1 = b - m.base;
        lemma_fundamental_div_mod(d1, 2 * bs);
        let j = d1 / (2 * bs);
        lemma_div_pos_is_pos(d1, 2 * bs);
        assert(d1 == (2 * j) * bs) by (nonlinear_arith)
            requires
                d1 == (2 * bs) * j,
        ;
        lemma_fundamental_div_mod_converse(d1, bs, 2 * j, 0);
        lemma_mod_multiples_basic(j, 2);
        assert((2 * j) % 2 == 0) by {
            lemma_mul_is_commutative(j, 2);
        }
        lemma_buddy_props(m.base, b, order);
        let buddy = (b + block_size(order)) as u64;
        assert(buddy == b + bs);
        let p0 = pair_index(m.base, buddy, order);
        assert(pair_index(m.base, b, order) == p0) by {
            assert((buddy - m.base) / (2 * bs) == pair_index(m.base, b, order));
        }
        assert(mrec.buckets[order as int] == m.buckets[order as int]);
        assert(valid_block(mrec, b, order)) by {
            assert(b + bs <= b + 2 * bs);
        }
        lemma_pair_index_range(mrec, b, order);
        assert(bk.bits[p0] == false) by {
            assert(pair_count(s, m.base, order, p0) == 0);
        }
        assert(m1.buckets[order as int].free_list =~= seq![buddy]);
        assert(m1.buckets[order as int].bits == bk.bits.update(p0, true));
        // now free b at this order: the bit is set, so the halves merge
        let m2 = spec_free(m1, b, order);
        assert(m1.buckets[order as int].bits[p0] == true);
        let bkt = toggled(m1.buckets[order as int], m.base, b, order);
        assert(bkt.bits[p0] == false);
        assert(buddy_addr(m.base, b, order) as u64 == buddy);
        assert(remove_first(bkt.free_list, buddy) =~= s) by {
            assert(bkt.free_list[0] == buddy);
            assert(bkt.free_list.drop_first() =~= Seq::<u64>::empty());
            assert(s =~= Seq::<u64>::empty());
        }
        assert(bkt.bits =~= bk.bits);
        let m_mid = BuddyModel {
            buckets: m1.buckets.update(
                order as int,
                BucketModel { free_list: remove_first(bkt.free_list, buddy), bits: bkt.bits },
            ),
            ..m1
        };
        assert(m_mid.buckets =~~= mrec.buckets);
        assert(m_mid =~~= mrec);
        let merged = if b < buddy {
            b
        } else {
            buddy
        };
        assert(merged == b);
        assert(m2 == spec_free(m_mid, b, order + 1));
        assert(m2 == m);
    }
}

/// One half of a buddy pair is freed while the other is still allocated,
/// then the other half is freed: the two merge, and the combined state
/// change is exactly one free of the lower half at the next order.
proof fn lemma_free_pair_step(m: BuddyModel, x: u64, y: u64, order: nat)
    requires
        buddy_wf(m),
        order < MAX_ORDER,
        free_block_ok(m, x, order),
        free_block_ok(m, y, order),
        y as int == buddy_addr(m.base, x, order),
    ensures
        spec_free(spec_free(m, x, order), y, order) == spec_free(
            m,
            if x < y {
                x
            } else {
                y
            },
            order + 1,
        ),
{
    let bs = block_size(order) as int;
    lemma_block_size_pos(order);
    let s = m.buckets[order as int].free_list;
    let bk = m.buckets[order as int];
    lemma_pair_index_range(m, x, order);
    let p0 = pair_index(m.base, x, order);
    lemma_buddy_props(m.base, x, order);
    assert(!s.contains(x)) by {
        if s.contains(x) {
            assert(listed(m, x, order));
            assert(intervals_disjoint(x, block_size(order), x, block_size(order)));
        }
    }
    assert(!s.contains(y)) by {
        if s.contains(y) {
            assert(listed(m, y, order));
            assert(intervals_disjoint(y, block_size(order), y, block_size(order)));
        }
    }
    assert forall|i: int|
        0 <= i < s.len() && pair_index(m.base, #[trigger] s[i], order) == p0 implies s[i] == x
        || s[i] == y by {
        assert(s.contains(s[i]));
        assert(listed(m, s[i], order));
        assert(valid_block(m, s[i], order));
    }
    lemma_pair_count_unique(s, m.base, order, p0, x, y);
    assert(pair_count(s, m.base, order, p0) == 0);
    assert(bk.bits[p0] == false);
    // first free: the pair's other half is still allocated, so push
    let m_a = spec_free(m, x, order);
    assert(m_a.buckets[order as int].free_list == seq![x] + s);
    assert(m_a.buckets[order as int].bits == bk.bits.update(p0, true));
    // second free: the bit is set now, withdraw the first half and merge
    assert(pair_index(m.base, y, order) == p0) by {
        assert((y - m.base) / (2 * bs) == p0);
    }
    assert(m_a.buckets[order as int].bits[p0] == true);
    let bkt = toggled(m_a.buckets[order as int], m.base, y, order);
    assert(bkt.bits[p0] == false);
    lemma_buddy_props(m.base, y, order);
    let bud2 = buddy_addr(m.base, y, order);
    assert(m.base <= bud2 <= u64::MAX);
    assert(bud2 == x) by {
        let z = bud2 as u64;
        assert(m.base <= z && (z - m.base) % bs == 0 && pair_index(m.base, z, order) == p0) by {
            assert((bud2 - m.base) / (2 * bs) == pair_index(m.base, y, order));
        }
        assert(z == x || z == y);
        assert(bud2 != y);
    }
    assert(remove_first(bkt.free_list, x) =~= s) by {
        assert(bkt.free_list[0] == x);
        assert(bkt.free_list.drop_first() =~= s);
    }
    assert(bkt.bits =~= bk.bits);
    let m2 = spec_free(m_a, y, order);
    let m_mid = BuddyModel {
        buckets: m_a.buckets.update(
            order as int,
            BucketModel { free_list: remove_first(bkt.free_list, x), bits: bkt.bits },
        ),
        ..m_a
    };
    assert(m_mid.buckets =~~= m.buckets);
    assert(m_mid =~~= m);
    let merged = if y < x {
        y
    } else {
        x
    };
    assert(m2 == spec_free(m_mid, merged, order + 1));
    assert(m2 == spec_free(m, if x < y { x } else { y }, order + 1));
}

/// Two same-order buddies, both allocated, freed in either order: once both
/// halves are free they merge into one block of the next order, freed there
/// in turn (so coalescing continues upward while buddies remain free), and
/// both interleavings land in the same state.
pub proof fn lemma_buddies_merge(m: BuddyModel, x: u64, y: u64, order: nat)
    requires
        buddy_wf(m),
        order < MAX_ORDER,
        free_block_ok(m, x, order),
        free_block_ok(m, y, order),
        y as int == buddy_addr(m.base, x, order),
    ensures
        spec_free(spec_free(m, x, order), y, order) == spec_free(
            m,
            if x < y {
                x
            } else {
                y
            },
            order + 1,
        ),
        spec_free(spec_free(m, y, order), x, order) == spec_free(
            m,
            if x < y {
                x
            } else {
                y
            },
            order + 1,
        ),
{
    let bs = block_size(order) as int;
    lemma_block_size_pos(order);
    lemma_free_pair_step(m, x, y, order);
    lemma_buddy_props(m.base, x, order);
    lemma_buddy_props(m.base, y, order);
    let p0 = pair_index(m.base, x, order);
    assert(pair_index(m.base, y, order) == p0) by {
        assert((y - m.base) / (2 * bs) == p0);
    }
    assert(x as int == buddy_addr(m.base, y, order)) by {
        let bud2 = buddy_addr(m.base, y, order);
        let z = bud2 as u64;
        assert(m.base <= z && (z - m.base) % bs == 0 && pair_index(m.base, z, order) == p0) by {
            assert((bud2 - m.base) / (2 * bs) == pair_index(m.base, y, order));
        }
        assert(z == x || z == y);
        assert(bud2 != y);
    }
    lemma_free_pair_step(m, y, x, order);
}

} // verus!
