//! A basic slab allocator layered on the buddy allocator.
//!
//! Each size class keeps one shared freelist of freed objects across all its
//! slabs; there is no per-slab bookkeeping, so unused slabs are never
//! returned to the buddy allocator.  Requests beyond the largest class
//! bypass the slab layer and go straight to the buddy allocator.
//!
//! Callers must free with the exact size (or any size mapping to the same
//! class or buddy order) they allocated with: no per-object header exists.
//!
//! The model tracks the freelist of every class as a sequence of object
//! addresses; the byte copy a reallocation performs on real memory has no
//! place in this bookkeeping model and is the caller's to carry out.

use vstd::prelude::*;
use vstd::arithmetic::power2::{pow2, lemma2_to64};
use vstd::arithmetic::div_mod::{
    lemma_fundamental_div_mod, lemma_fundamental_div_mod_converse, lemma_mod_multiples_basic,
};

use crate::buddy::{
    BuddyAllocator, BuddyModel, buddy_wf, spec_alloc, spec_free, free_block_ok, valid_block,
    block_size, MAX_ORDER, SIZE_OF_MAX_ORDER,
};
use crate::consts::PAGE_SIZE;
use crate::helper::{log2_ceil, log2_ceil_spec};
use crate::singly_list_head::SinglyListHead;

verus! {

/// One size class: its object size, the buddy order of one slab, and the
/// freelist of freed objects.
pub struct Cache {
    obj_size: u64,
    slab_order: usize,
    freelist: SinglyListHead,
}

/// Abstract state of one size class.
#[verifier::ext_equal]
pub ghost struct CacheModel {
    pub obj_size: u64,
    pub slab_order: nat,
    pub freelist: Seq<u64>,
}

impl View for Cache {
    type V = CacheModel;

    closed spec fn view(&self) -> CacheModel {
        CacheModel {
            obj_size: self.obj_size,
            slab_order: self.slab_order as nat,
            freelist: self.freelist@,
        }
    }
}

impl Cache {
    /// Build a class of `obj_size`-byte objects whose slabs span `num_pages`
    /// pages, with an empty freelist.
    pub fn new(obj_size: u64, num_pages: u64) -> (r: Cache)
        requires
            num_pages >= 1,
        ensures
            r@.obj_size == obj_size,
            pow2(r@.slab_order) <= num_pages < pow2(r@.slab_order + 1),
            num_pages == 1 ==> r@.slab_order == 0,
            num_pages == 2 ==> r@.slab_order == 1,
            r@.freelist == Seq::<u64>::empty(),
    {
        let slab_order = crate::helper::log2_floor(num_pages);
        proof {
            lemma2_to64();
            if num_pages <= 2 && slab_order >= 2 {
                vstd::arithmetic::power2::lemma_pow2_strictly_increases(1, slab_order as nat);
            }
        }
        Cache { obj_size, slab_order, freelist: SinglyListHead::new() }
    }
}

/// The object size of each class, ascending; `-1` when the request exceeds
/// the largest class and bypasses the slab layer.
pub open spec fn class_for(size: u64) -> int {
    if size <= 16 {
        0
    } else if size <= 32 {
        1
    } else if size <= 64 {
        2
    } else if size <= 128 {
        3
    } else if size <= 256 {
        4
    } else if size <= 512 {
        5
    } else if size <= 1024 {
        6
    } else if size <= 2048 {
        7
    } else {
        -1
    }
}

/// The object size of class `c`.
pub open spec fn class_size(c: int) -> u64 {
    if c == 0 {
        16
    } else if c == 1 {
        32
    } else if c == 2 {
        64
    } else if c == 3 {
        128
    } else if c == 4 {
        256
    } else if c == 5 {
        512
    } else if c == 6 {
        1024
    } else {
        2048
    }
}

/// The minimal buddy order covering `size` bytes, for oversize requests.
pub open spec fn oversize_order(size: u64) -> nat {
    log2_ceil_spec((((size as int) + (PAGE_SIZE as int) - 1) / (PAGE_SIZE as int)) as nat)
}

/// Well-formedness: the eight classes carry their fixed sizes and slab
/// orders, and every freed object is aligned to its class's object size.
pub open spec fn slab_wf(m: Seq<CacheModel>) -> bool {
    &&& m.len() == 8
    &&& forall|c: int| 0 <= c < 8 ==> (#[trigger] m[c]).obj_size == class_size(c)
    &&& forall|c: int| 0 <= c < 8 ==> (#[trigger] m[c]).slab_order == if c < 4 {
        0nat
    } else {
        1nat
    }
    &&& forall|c: int, i: int|
        0 <= c < 8 && 0 <= i < m[c].freelist.len() ==> (#[trigger] m[c].freelist[i]) as int % (
        m[c].obj_size as int) == 0
}

/// Release to a class: the object goes to the front of its freelist.
pub open spec fn spec_slab_push(m: Seq<CacheModel>, c: int, ptr: u64) -> Seq<CacheModel> {
    m.update(c, CacheModel { freelist: seq![ptr] + m[c].freelist, ..m[c] })
}

/// The descending object addresses a fresh slab is cut into: the object at
/// the slab's far end comes first, matching the order the subdividing loop
/// links them in.
pub open spec fn slab_objects(slab: u64, obj_size: u64, n: nat) -> Seq<u64> {
    Seq::new(n, |i: int| (slab + (n - 1 - i) * obj_size) as u64)
}

/// The slab allocator: eight caches sorted by object size, ascending.
pub struct SlabAllocator {
    caches: Vec<Cache>,
}

impl View for SlabAllocator {
    type V = Seq<CacheModel>;

    closed spec fn view(&self) -> Seq<CacheModel> {
        Seq::new(self.caches@.len(), |i: int| self.caches@[i]@)
    }
}

impl SlabAllocator {
    /// Build the eight fixed size classes, 16 B to 2 KiB, with one page per
    /// slab for classes up to 128 B and two pages beyond.
    pub fn new() -> (r: SlabAllocator)
        ensures
            slab_wf(r@),
            forall|c: int| 0 <= c < 8 ==> (#[trigger] r@[c]).freelist == Seq::<u64>::empty(),
    {
        let mut caches: Vec<Cache> = Vec::new();
        caches.push(Cache::new(16, 1));
        caches.push(Cache::new(32, 1));
        caches.push(Cache::new(64, 1));
        caches.push(Cache::new(128, 1));
        caches.push(Cache::new(256, 2));
        caches.push(Cache::new(512, 2));
        caches.push(Cache::new(1024, 2));
        caches.push(Cache::new(2048, 2));
        let r = SlabAllocator { caches };
        proof {
            lemma2_to64();
            assert forall|c: int| 0 <= c < 8 implies (#[trigger] r@[c]).obj_size == class_size(c)
                && r@[c].slab_order == (if c < 4 {
                0nat
            } else {
                1nat
            }) && r@[c].freelist == Seq::<u64>::empty() by {
                assert(r@[c] == r.caches@[c]@);
            }
        }
        r
    }

    /// The smallest class that can hold `size` bytes, or `None` when `size`
    /// exceeds the largest class.
    pub fn find_cache(&self, size: u64) -> (r: Option<&Cache>)
        requires
            slab_wf(self@),
        ensures
            match r {
                Some(c) => class_for(size) >= 0 && c@ == self@[class_for(size)],
                None => class_for(size) == -1,
            },
    {
        proof {
            lemma2_to64();
        }
        let mut i: usize = 0;
        while i < self.caches.len()
            invariant
                slab_wf(self@),
                self.caches@.len() == 8,
                i <= 8,
                forall|j: int| 0 <= j < i ==> size > (#[trigger] self@[j]).obj_size,
            decreases 8 - i,
        {
            if size <= self.caches[i].obj_size {
                proof {
                    lemma2_to64();
                    assert(self@[i as int] == self.caches@[i as int]@);
                    if i > 0 {
                        assert(size > self@[i as int - 1].obj_size);
                        assert(size > class_size(i as int - 1));
                    }
                    assert(class_for(size) == i as int);
                }
                return Some(&self.caches[i]);
            }
            proof {
                assert(self@[i as int] == self.caches@[i as int]@);
            }
            i = i + 1;
        }
        proof {
            lemma2_to64();
            assert(size > self@[7].obj_size);
        }
        None
    }

    /// The buddy order an oversize request is served at.
    pub fn calculate_order(size: u64) -> (r: usize)
        requires
            size >= 1,
        ensures
            r == oversize_order(size),
    {
        let pages = size / PAGE_SIZE + if size % PAGE_SIZE != 0 {
            1
        } else {
            0
        };
        proof {
            assert(pages == ((size as int) + (PAGE_SIZE as int) - 1) / (PAGE_SIZE as int)) by {
                lemma_fundamental_div_mod(size as int, PAGE_SIZE as int);
                let q = size as int / PAGE_SIZE as int;
                let rr = size as int % PAGE_SIZE as int;
                if rr == 0 {
                    lemma_fundamental_div_mod_converse(
                        size as int + PAGE_SIZE as int - 1,
                        PAGE_SIZE as int,
                        q,
                        PAGE_SIZE as int - 1,
                    );
                } else {
                    lemma_fundamental_div_mod_converse(
                        size as int + PAGE_SIZE as int - 1,
                        PAGE_SIZE as int,
                        q + 1,
                        rr - 1,
                    );
                }
            }
        }
        log2_ceil(pages)
    }

    /// Whether two sizes are served from the same pool: the same class, or,
    /// past the largest class, the same buddy order.
    pub fn check_same_basket(&self, old_size: u64, new_size: u64) -> (r: bool)
        requires
            slab_wf(self@),
            old_size >= 1,
            new_size >= 1,
        ensures
            r == same_basket(old_size, new_size),
    {
        let old_cache = self.find_cache(old_size);
        let new_cache = self.find_cache(new_size);
        proof {
            lemma2_to64();
        }
        match (old_cache, new_cache) {
            (Some(oc), Some(nc)) => oc.obj_size == nc.obj_size,
            (None, None) => Self::calculate_order(old_size) == Self::calculate_order(new_size),
            _ => false,
        }
    }
}

/// The whole allocation step over both allocators' states: serve from the
/// class freelist, cut a fresh slab when it is empty, or go straight to the
/// buddy allocator past the largest class.
pub open spec fn spec_slab_alloc(s: Seq<CacheModel>, b: BuddyModel, size: u64) -> (
    Option<u64>,
    Seq<CacheModel>,
    BuddyModel,
) {
    let c = class_for(size);
    if c == -1 {
        match spec_alloc(b, oversize_order(size)) {
            None => (None, s, b),
            Some((p, b1)) => (Some(p), s, b1),
        }
    } else if s[c].freelist.len() > 0 {
        (
            Some(s[c].freelist[0]),
            s.update(c, CacheModel { freelist: s[c].freelist.drop_first(), ..s[c] }),
            b,
        )
    } else {
        match spec_alloc(b, s[c].slab_order) {
            None => (None, s, b),
            Some((slab, b1)) => {
                let n = block_size(s[c].slab_order) / s[c].obj_size as nat;
                let objs = slab_objects(slab, s[c].obj_size, n);
                (
                    Some(objs[0]),
                    s.update(c, CacheModel { freelist: objs.drop_first(), ..s[c] }),
                    b1,
                )
            },
        }
    }
}

/// The whole release step: push onto the owning class's freelist, or hand
/// the pages back to the buddy allocator past the largest class.
pub open spec fn spec_slab_dealloc(s: Seq<CacheModel>, b: BuddyModel, ptr: u64, size: u64) -> (
    Seq<CacheModel>,
    BuddyModel,
) {
    let c = class_for(size);
    if c >= 0 {
        (spec_slab_push(s, c, ptr), b)
    } else {
        (s, spec_free(b, ptr, oversize_order(size)))
    }
}

/// What a caller must guarantee of a buffer it hands back: the address and
/// a size of the basket it was allocated from — aligned to the class size,
/// or, past the largest class, a pending block of the covering order.
pub open spec fn dealloc_ok(s: Seq<CacheModel>, b: BuddyModel, ptr: u64, size: u64) -> bool {
    if class_for(size) >= 0 {
        ptr as int % (class_size(class_for(size)) as int) == 0
    } else {
        oversize_order(size) <= MAX_ORDER && free_block_ok(b, ptr, oversize_order(size))
    }
}

/// Two sizes map to the same pool of objects.
pub open spec fn same_basket(old_size: u64, new_size: u64) -> bool {
    let oc = class_for(old_size);
    let nc = class_for(new_size);
    if oc >= 0 && nc >= 0 {
        oc == nc
    } else if oc == -1 && nc == -1 {
        oversize_order(old_size) == oversize_order(new_size)
    } else {
        false
    }
}

proof fn lemma_class_size_divides_page(obj_size: u64)
    requires
        obj_size == 16 || obj_size == 32 || obj_size == 64 || obj_size == 128 || obj_size == 256
            || obj_size == 512 || obj_size == 1024 || obj_size == 2048,
    ensures
        (PAGE_SIZE as int) % (obj_size as int) == 0,
{
    if obj_size == 16 {
        assert((PAGE_SIZE as int) % 16 == 0);
    } else if obj_size == 32 {
        assert((PAGE_SIZE as int) % 32 == 0);
    } else if obj_size == 64 {
        assert((PAGE_SIZE as int) % 64 == 0);
    } else if obj_size == 128 {
        assert((PAGE_SIZE as int) % 128 == 0);
    } else if obj_size == 256 {
        assert((PAGE_SIZE as int) % 256 == 0);
    } else if obj_size == 512 {
        assert((PAGE_SIZE as int) % 512 == 0);
    } else if obj_size == 1024 {
        assert((PAGE_SIZE as int) % 1024 == 0);
    } else {
        assert((PAGE_SIZE as int) % 2048 == 0);
    }
}

proof fn lemma_mod_mod_divides(x: int, small: int, big: int)
    requires
        small > 0,
        big > 0,
        big % small == 0,
        x % big == 0,
    ensures
        x % small == 0,
{
    lemma_fundamental_div_mod(x, big);
    lemma_fundamental_div_mod(big, small);
    assert(x == ((x / big) * (big / small)) * small) by (nonlinear_arith)
        requires
            x == big * (x / big),
            big == small * (big / small),
    ;
    lemma_mod_multiples_basic((x / big) * (big / small), small);
}

/// A block handed out by the buddy allocator starts on a page boundary.
pub proof fn lemma_buddy_block_page_aligned(b0: BuddyModel, order: nat, slab: u64, b1: BuddyModel)
    requires
        buddy_wf(b0),
        order <= MAX_ORDER,
        spec_alloc(b0, order) == Some((slab, b1)),
    ensures
        slab as int % (PAGE_SIZE as int) == 0,
{
    crate::buddy::lemma_spec_alloc(b0, order);
    assert(valid_block(b1, slab, order));
    let bs = block_size(order) as int;
    assert(bs == PAGE_SIZE as int * pow2(order)) by {
        assert(block_size(order) == PAGE_SIZE as nat * pow2(order));
    }
    vstd::arithmetic::power2::lemma_pow2_pos(order);
    assert(bs % (PAGE_SIZE as int) == 0) by {
        lemma_mod_multiples_basic(pow2(order) as int, PAGE_SIZE as int);
        vstd::arithmetic::mul::lemma_mul_is_commutative(PAGE_SIZE as int, pow2(order) as int);
    }
    lemma_mod_mod_divides(slab - b1.base, PAGE_SIZE as int, bs);
    assert(SIZE_OF_MAX_ORDER as int % (PAGE_SIZE as int) == 0);
    lemma_mod_mod_divides(b1.base as int, PAGE_SIZE as int, SIZE_OF_MAX_ORDER as int);
    vstd::arithmetic::div_mod::lemma_add_mod_noop(
        b1.base as int,
        slab - b1.base,
        PAGE_SIZE as int,
    );
}

impl SlabAllocator {
    /// Index of the class serving `size`; 8 when `size` is oversize.
    fn class_index(&self, size: u64) -> (r: usize)
        requires
            slab_wf(self@),
        ensures
            class_for(size) >= 0 ==> r == class_for(size),
            class_for(size) == -1 ==> r == 8,
    {
        let mut i: usize = 0;
        while i < self.caches.len()
            invariant
                slab_wf(self@),
                self.caches@.len() == 8,
                i <= 8,
                forall|j: int| 0 <= j < i ==> size > (#[trigger] self@[j]).obj_size,
            decreases 8 - i,
        {
            if size <= self.caches[i].obj_size {
                proof {
                    assert(self@[i as int] == self.caches@[i as int]@);
                    if i > 0 {
                        assert(size > self@[i as int - 1].obj_size);
                        assert(size > class_size(i as int - 1));
                    }
                }
                return i;
            }
            proof {
                assert(self@[i as int] == self.caches@[i as int]@);
            }
            i = i + 1;
        }
        proof {
            assert(size > self@[7].obj_size);
        }
        8
    }

    /// Allocate a buffer of at least `size` bytes.  Requests within a class
    /// come from that class's freelist, cutting one new slab from the buddy
    /// allocator when the freelist is empty; larger requests go to the buddy
    /// allocator directly.  A returned class object is aligned to its
    /// class's object size.
    pub fn allocate(&mut self, buddy: &mut BuddyAllocator, size: u64) -> (r: Option<u64>)
        requires
            slab_wf(old(self)@),
            buddy_wf(old(buddy)@),
            1 <= size <= SIZE_OF_MAX_ORDER,
        ensures
            slab_wf(final(self)@),
            buddy_wf(final(buddy)@),
            (r, final(self)@, final(buddy)@) == spec_slab_alloc(old(self)@, old(buddy)@, size),
            r.is_some() && class_for(size) >= 0 ==> r.unwrap() as int % (class_size(
                class_for(size),
            ) as int) == 0,
    {
        let ghost s0 = self@;
        let ghost b0 = buddy@;
        let idx = self.class_index(size);
        if idx < 8 {
            let ghost c = idx as int;
            let obj_size = self.caches[idx].obj_size;
            let so = self.caches[idx].slab_order;
            proof {
                assert(self@[c] == self.caches@[c]@);
                assert(obj_size == class_size(c));
                assert(so as nat == s0[c].slab_order);
            }
            let cache = &mut self.caches[idx];
            let popped = cache.freelist.pop();
            match popped {
                Some(obj) => {
                    proof {
                        assert(s0[c].freelist.len() > 0);
                        assert(s0[c].freelist[0] == obj);
                        assert(class_for(size) == c);
                        assert(self@[c].freelist == s0[c].freelist.drop_first());
                        assert(self@[c].obj_size == s0[c].obj_size);
                        assert(self@[c].slab_order == s0[c].slab_order);
                        assert(forall|j: int| 0 <= j < 8 && j != c ==> self@[j] == s0[j]);
                        assert(self@ =~~= spec_slab_alloc(s0, b0, size).1);
                        assert(buddy@ == b0);
                        assert forall|c2: int, i: int|
                            0 <= c2 < 8 && 0 <= i < self@[c2].freelist.len() implies (
                        #[trigger] self@[c2].freelist[i]) as int % (self@[c2].obj_size as int)
                            == 0 by {
                            if c2 == c {
                                assert(self@[c2].freelist[i] == s0[c2].freelist[i + 1]);
                            }
                        }
                    }
                    Some(obj)
                },
                None => {
                    match buddy.alloc_pages_order(so) {
                        None => {
                            proof {
                                assert(self@ =~~= s0);
                            }
                            None
                        },
                        Some(slab) => {
                            proof {
                                crate::buddy::lemma_spec_alloc(b0, so as nat);
                                lemma_buddy_block_page_aligned(b0, so as nat, slab, buddy@);
                                assert(obj_size == 16 || obj_size == 32 || obj_size == 64
                                    || obj_size == 128 || obj_size == 256 || obj_size == 512
                                    || obj_size == 1024 || obj_size == 2048);
                                lemma_class_size_divides_page(obj_size);
                                lemma_mod_mod_divides(
                                    slab as int,
                                    obj_size as int,
                                    PAGE_SIZE as int,
                                );
                                crate::buddy::lemma_block_size_max(so as nat);
                                assert((block_size(so as nat) as int) % (obj_size as int) == 0)
                                    by {
                                    lemma_mod_mod_divides(
                                        block_size(so as nat) as int,
                                        obj_size as int,
                                        PAGE_SIZE as int,
                                    );
                                    assert((block_size(so as nat) as int) % (PAGE_SIZE as int)
                                        == 0) by {
                                        lemma_mod_multiples_basic(
                                            pow2(so as nat) as int,
                                            PAGE_SIZE as int,
                                        );
                                        vstd::arithmetic::mul::lemma_mul_is_commutative(
                                            PAGE_SIZE as int,
                                            pow2(so as nat) as int,
                                        );
                                    }
                                }
                            }
                            let slab_size = crate::buddy::block_size_exec(so);
                            let num_objs = slab_size / obj_size;
                            proof {
                                lemma_fundamental_div_mod(slab_size as int, obj_size as int);
                                vstd::arithmetic::mul::lemma_mul_is_commutative(
                                    obj_size as int,
                                    num_objs as int,
                                );
                                assert(num_objs * obj_size == slab_size);
                                assert(valid_block(buddy@, slab, so as nat));
                                assert(slab + slab_size <= u64::MAX);
                                lemma_fundamental_div_mod(slab as int, obj_size as int);
                            }
                            let mut i: u64 = 0;
                            while i < num_objs
                                invariant
                                    cache.freelist@ == slab_objects(slab, obj_size, i as nat),
                                    cache.obj_size == obj_size,
                                    cache.slab_order == so,
                                    i <= num_objs,
                                    num_objs * obj_size == slab_size,
                                    obj_size >= 1,
                                    slab + slab_size <= u64::MAX,
                                decreases num_objs - i,
                            {
                                proof {
                                    assert(i * obj_size + obj_size <= num_objs * obj_size)
                                        by (nonlinear_arith)
                                        requires
                                            i < num_objs,
                                            obj_size >= 1,
                                    ;
                                }
                                cache.freelist.insert_after(slab + i * obj_size);
                                proof {
                                    assert(cache.freelist@ =~= slab_objects(
                                        slab,
                                        obj_size,
                                        i as nat + 1,
                                    ));
                                }
                                i = i + 1;
                            }
                            let got = cache.freelist.pop();
                            proof {
                                let n = block_size(so as nat) / obj_size as nat;
                                assert(num_objs as nat == n);
                                assert(self@[c].obj_size == s0[c].obj_size);
                                assert(self@[c].slab_order == s0[c].slab_order);
                                assert(forall|j: int| 0 <= j < 8 && j != c ==> self@[j] == s0[j]);
                                assert(n >= 1) by (nonlinear_arith)
                                    requires
                                        n * obj_size == block_size(so as nat),
                                        obj_size as nat <= 2048,
                                        block_size(so as nat) >= 4096,
                                ;
                                assert(got == Some(slab_objects(slab, obj_size, n)[0]));
                                assert(self@ =~~= spec_slab_alloc(s0, b0, size).1);
                                // alignment of every object on the new freelist
                                assert forall|k: int|
                                    0 <= k < slab_objects(slab, obj_size, n).len() implies (
                                #[trigger] slab_objects(slab, obj_size, n)[k]) as int % (
                                obj_size as int) == 0 by {
                                    let t = slab as int / obj_size as int;
                                    assert(slab as int == t * obj_size);
                                    assert((slab + (n - 1 - k) * obj_size) as int == (t + n - 1
                                        - k) * obj_size) by (nonlinear_arith)
                                        requires
                                            slab as int == t * obj_size,
                                    ;
                                    assert((n - 1 - k) * obj_size < n * obj_size)
                                        by (nonlinear_arith)
                                        requires
                                            0 <= k < n,
                                            obj_size >= 1,
                                    ;
                                    lemma_mod_multiples_basic(t + n - 1 - k, obj_size as int);
                                }
                                assert forall|c2: int, i2: int|
                                    0 <= c2 < 8 && 0 <= i2 < self@[c2].freelist.len() implies (
                                #[trigger] self@[c2].freelist[i2]) as int % (
                                self@[c2].obj_size as int) == 0 by {
                                    if c2 != c {
                                        assert(self@[c2] == s0[c2]);
                                    } else {
                                        assert(self@[c2].freelist[i2] == slab_objects(
                                            slab,
                                            obj_size,
                                            n,
                                        )[i2 + 1]);
                                    }
                                }
                            }
                            got
                        },
                    }
                },
            }
        } else {
            let order = Self::calculate_order(size);
            proof {
                crate::buddy::lemma_log2_ceil_le_10(
                    (((size as int) + (PAGE_SIZE as int) - 1) / (PAGE_SIZE as int)) as nat,
                );
            }
            buddy.alloc_pages_order(order)
        }
    }

    /// Free an allocated buffer of the given size back to its basket.
    pub fn dealloc(&mut self, buddy: &mut BuddyAllocator, ptr: u64, size: u64)
        requires
            slab_wf(old(self)@),
            buddy_wf(old(buddy)@),
            1 <= size <= SIZE_OF_MAX_ORDER,
            dealloc_ok(old(self)@, old(buddy)@, ptr, size),
        ensures
            slab_wf(final(self)@),
            buddy_wf(final(buddy)@),
            (final(self)@, final(buddy)@) == spec_slab_dealloc(
                old(self)@,
                old(buddy)@,
                ptr,
                size,
            ),
    {
        let ghost s0 = self@;
        let ghost b0 = buddy@;
        let idx = self.class_index(size);
        if idx < 8 {
            let ghost c = idx as int;
            let cache = &mut self.caches[idx];
            cache.freelist.insert_after(ptr);
            proof {
                assert(self@ =~~= spec_slab_push(s0, c, ptr));
                assert forall|c2: int, i: int|
                    0 <= c2 < 8 && 0 <= i < self@[c2].freelist.len() implies (
                #[trigger] self@[c2].freelist[i]) as int % (self@[c2].obj_size as int) == 0 by {
                    if c2 == c && i > 0 {
                        assert(self@[c2].freelist[i] == s0[c2].freelist[i - 1]);
                    }
                }
            }
        } else {
            let order = Self::calculate_order(size);
            buddy.free_pages_order(ptr, order);
        }
    }

    /// Reallocate a buffer to a new size.  Nothing happens when both sizes
    /// share a basket; otherwise a new buffer is allocated and the old one
    /// freed — copying the payload between them is real-memory work outside
    /// this bookkeeping.  On exhaustion the old buffer is left untouched.
    pub fn realloc(&mut self, buddy: &mut BuddyAllocator, ptr: u64, old_size: u64, new_size: u64)
        -> (r: Option<u64>)
        requires
            slab_wf(old(self)@),
            buddy_wf(old(buddy)@),
            1 <= old_size <= SIZE_OF_MAX_ORDER,
            1 <= new_size <= SIZE_OF_MAX_ORDER,
            dealloc_ok(old(self)@, old(buddy)@, ptr, old_size),
        ensures
            slab_wf(final(self)@),
            buddy_wf(final(buddy)@),
            same_basket(old_size, new_size) ==> r == Some(ptr) && final(self)@ == old(self)@
                && final(buddy)@ == old(buddy)@,
            !same_basket(old_size, new_size) ==> ({
                let (ar, s1, b1) = spec_slab_alloc(old(self)@, old(buddy)@, new_size);
                match ar {
                    None => r.is_none() && final(self)@ == s1 && final(buddy)@ == b1,
                    Some(np) => r == Some(np) && (final(self)@, final(buddy)@)
                        == spec_slab_dealloc(s1, b1, ptr, old_size),
                }
            }),
    {
        let ghost s0 = self@;
        let ghost b0 = buddy@;
        if self.check_same_basket(old_size, new_size) {
            return Some(ptr);
        }
        let new_ptr = self.allocate(buddy, new_size);
        match new_ptr {
            None => None,
            Some(np) => {
                proof {
                    // the old buffer is still a valid handle after the allocation
                    if class_for(old_size) == -1 {
                        let nc = class_for(new_size);
                        if nc == -1 {
                            crate::buddy::lemma_log2_ceil_le_10(
                                (((new_size as int) + (PAGE_SIZE as int) - 1) / (
                                PAGE_SIZE as int)) as nat,
                            );
                            crate::buddy::lemma_spec_alloc(b0, oversize_order(new_size));
                        } else {
                            if s0[nc].freelist.len() == 0 {
                                crate::buddy::lemma_spec_alloc(b0, s0[nc].slab_order);
                            }
                        }
                        assert(free_block_ok(buddy@, ptr, oversize_order(old_size)));
                    }
                }
                self.dealloc(buddy, ptr, old_size);
                Some(np)
            },
        }
    }
}

/// The kernel's general-purpose allocation entry point: folds a layout's
/// alignment into the request size the way the global-allocator hook does,
/// then defers to the slab allocator.  A request of `max(size, align)` bytes
/// from a class is aligned to at least `align`, because class sizes are
/// powers of two.
pub struct SlabAllocatorWrapper {
    inner: SlabAllocator,
}

impl View for SlabAllocatorWrapper {
    type V = Seq<CacheModel>;

    closed spec fn view(&self) -> Seq<CacheModel> {
        self.inner@
    }
}

/// The single request size a size/alignment pair is served as.
pub open spec fn layout_request(size: u64, align: u64) -> u64 {
    if size >= align {
        size
    } else {
        align
    }
}

impl SlabAllocatorWrapper {
    pub fn new() -> (r: SlabAllocatorWrapper)
        ensures
            slab_wf(r@),
            forall|c: int| 0 <= c < 8 ==> (#[trigger] r@[c]).freelist == Seq::<u64>::empty(),
    {
        SlabAllocatorWrapper { inner: SlabAllocator::new() }
    }

    pub fn allocate(&mut self, buddy: &mut BuddyAllocator, size: u64, align: u64) -> (r: Option<
        u64,
    >)
        requires
            slab_wf(old(self)@),
            buddy_wf(old(buddy)@),
            1 <= layout_request(size, align) <= SIZE_OF_MAX_ORDER,
        ensures
            slab_wf(final(self)@),
            buddy_wf(final(buddy)@),
            (r, final(self)@, final(buddy)@) == spec_slab_alloc(
                old(self)@,
                old(buddy)@,
                layout_request(size, align),
            ),
    {
        let request = if size >= align {
            size
        } else {
            align
        };
        self.inner.allocate(buddy, request)
    }

    pub fn dealloc(&mut self, buddy: &mut BuddyAllocator, ptr: u64, size: u64, align: u64)
        requires
            slab_wf(old(self)@),
            buddy_wf(old(buddy)@),
            1 <= layout_request(size, align) <= SIZE_OF_MAX_ORDER,
            dealloc_ok(old(self)@, old(buddy)@, ptr, layout_request(size, align)),
        ensures
            slab_wf(final(self)@),
            buddy_wf(final(buddy)@),
            (final(self)@, final(buddy)@) == spec_slab_dealloc(
                old(self)@,
                old(buddy)@,
                ptr,
                layout_request(size, align),
            ),
    {
        let request = if size >= align {
            size
        } else {
            align
        };
        self.inner.dealloc(buddy, ptr, request)
    }

    pub fn realloc(
        &mut self,
        buddy: &mut BuddyAllocator,
        ptr: u64,
        size: u64,
        align: u64,
        new_size: u64,
    ) -> (r: Option<u64>)
        requires
            slab_wf(old(self)@),
            buddy_wf(old(buddy)@),
            1 <= layout_request(size, align) <= SIZE_OF_MAX_ORDER,
            1 <= layout_request(new_size, align) <= SIZE_OF_MAX_ORDER,
            dealloc_ok(old(self)@, old(buddy)@, ptr, layout_request(size, align)),
        ensures
            slab_wf(final(self)@),
            buddy_wf(final(buddy)@),
            same_basket(layout_request(size, align), layout_request(new_size, align)) ==> r
                == Some(ptr) && final(self)@ == old(self)@ && final(buddy)@ == old(buddy)@,
            !same_basket(layout_request(size, align), layout_request(new_size, align)) ==> ({
                let (ar, s1, b1) = spec_slab_alloc(
                    old(self)@,
                    old(buddy)@,
                    layout_request(new_size, align),
                );
                match ar {
                    None => r.is_none() && final(self)@ == s1 && final(buddy)@ == b1,
                    Some(np) => r == Some(np) && (final(self)@, final(buddy)@)
                        == spec_slab_dealloc(s1, b1, ptr, layout_request(size, align)),
                }
            }),
    {
        let old_request = if size >= align {
            size
        } else {
            align
        };
        let new_request = if new_size >= align {
            new_size
        } else {
            align
        };
        self.inner.realloc(buddy, ptr, old_request, new_request)
    }
}

// ---- laws ----

/// A slab is cut into objects that all lie wholly within it: when a class
/// request finds its freelist empty and a fresh slab is obtained from the
/// buddy allocator, the returned object and every object put on the
/// freelist sit inside that slab's 2^order pages.
pub proof fn lemma_fresh_slab_objects_within_slab(
    s: Seq<CacheModel>,
    b: BuddyModel,
    size: u64,
)
    requires
        slab_wf(s),
        buddy_wf(b),
        1 <= size,
        class_for(size) >= 0,
        s[class_for(size)].freelist.len() == 0,
        spec_alloc(b, s[class_for(size)].slab_order).is_some(),
    ensures
        ({
            let c = class_for(size);
            let (slab, b1) = spec_alloc(b, s[c].slab_order).unwrap();
            let (r, s1, b2) = spec_slab_alloc(s, b, size);
            let span = block_size(s[c].slab_order);
            &&& r.is_some()
            &&& slab <= r.unwrap() && r.unwrap() + class_size(c) <= slab + span
            &&& forall|i: int|
                0 <= i < s1[c].freelist.len() ==> slab <= #[trigger] s1[c].freelist[i]
                    && s1[c].freelist[i] + class_size(c) <= slab + span
        }),
{
    let c = class_for(size);
    let (slab, b1) = spec_alloc(b, s[c].slab_order).unwrap();
    let span = block_size(s[c].slab_order);
    let obj = s[c].obj_size;
    crate::buddy::lemma_spec_alloc(b, s[c].slab_order);
    crate::buddy::lemma_block_size_max(s[c].slab_order);
    crate::buddy::lemma_block_size_pos(s[c].slab_order);
    assert((span as int) % (obj as int) == 0) by {
        assert((span as int) % (PAGE_SIZE as int) == 0) by {
            lemma_mod_multiples_basic(pow2(s[c].slab_order) as int, PAGE_SIZE as int);
            vstd::arithmetic::mul::lemma_mul_is_commutative(
                PAGE_SIZE as int,
                pow2(s[c].slab_order) as int,
            );
        }
        assert(obj == 16 || obj == 32 || obj == 64 || obj == 128 || obj == 256 || obj == 512
            || obj == 1024 || obj == 2048);
        lemma_class_size_divides_page(obj);
        lemma_mod_mod_divides(span as int, obj as int, PAGE_SIZE as int);
    }
    let n = span / obj as nat;
    vstd::arithmetic::div_mod::lemma_fundamental_div_mod(span as int, obj as int);
    vstd::arithmetic::mul::lemma_mul_is_commutative(obj as int, n as int);
    assert(n * obj == span);
    assert(n >= 1) by (nonlinear_arith)
        requires
            n * obj == span,
            obj as nat <= 2048,
            span >= 4096,
    ;
    let objs = slab_objects(slab, obj, n);
    assert forall|i: int| 0 <= i < objs.len() implies slab <= #[trigger] objs[i] && objs[i] + obj
        <= slab + span by {
        assert((n - 1 - i) * obj + obj <= n * obj) by (nonlinear_arith)
            requires
                0 <= i < n,
                obj >= 1,
        ;
        assert(0 <= (n - 1 - i) * obj) by (nonlinear_arith)
            requires
                0 <= i < n,
                obj >= 1,
        ;
    }
    assert(spec_slab_alloc(s, b, size).0 == Some(objs[0]));
    assert forall|i: int|
        0 <= i < spec_slab_alloc(s, b, size).1[c].freelist.len() implies slab
        <= #[trigger] spec_slab_alloc(s, b, size).1[c].freelist[i] && spec_slab_alloc(
        s,
        b,
        size,
    ).1[c].freelist[i] + class_size(c) <= slab + span by {
        assert(spec_slab_alloc(s, b, size).1[c].freelist[i] == objs.drop_first()[i]);
        assert(objs.drop_first()[i] == objs[i + 1]);
    }
}

/// Freeing a class object and allocating the same size again returns that
/// very object, from the same freelist, and restores both allocators to the
/// exact state before the free: no other live object is touched.
pub proof fn lemma_slab_free_then_alloc(s: Seq<CacheModel>, b: BuddyModel, ptr: u64, size: u64)
    requires
        slab_wf(s),
        class_for(size) >= 0,
    ensures
        ({
            let (s1, b1) = spec_slab_dealloc(s, b, ptr, size);
            &&& spec_slab_alloc(s1, b1, size).0 == Some(ptr)
            &&& spec_slab_alloc(s1, b1, size).1 == s
            &&& spec_slab_alloc(s1, b1, size).2 == b
        }),
{
    let c = class_for(size);
    let (s1, b1) = spec_slab_dealloc(s, b, ptr, size);
    assert(s1[c].freelist == seq![ptr] + s[c].freelist);
    assert(s1[c].freelist[0] == ptr);
    assert(s1[c].freelist.drop_first() =~= s[c].freelist);
    assert(spec_slab_alloc(s1, b1, size).1 =~~= s);
}

} // verus!
