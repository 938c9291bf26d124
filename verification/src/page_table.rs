//! Hardware page-table entries and virtual-address decomposition.
//!
//! The official x86-64 names for these structures are complicated, so the
//! simpler ones are used here: the top three levels are page directories
//! (P4, P3, P2) and the bottom level is the page table (P1).  An entry is a
//! bit-packed 64-bit word; the accessors below keep the hardware layout in
//! one place, as explicit bit-field functions over a fixed-width integer.

use vstd::prelude::*;

verus! {

/// Mask of the physical-address field, bits 12..=51.
pub const ENTRY_ADDR_MASK: u64 = 0x000FFFFFFFFFF000;

pub open spec fn entry_present(e: u64) -> bool {
    e & 1 != 0
}

pub open spec fn entry_writable(e: u64) -> bool {
    e & 2 != 0
}

pub open spec fn entry_user_accessible(e: u64) -> bool {
    e & 4 != 0
}

pub open spec fn entry_execute_disable(e: u64) -> bool {
    e & 0x8000000000000000 != 0
}

/// The physical address an entry points at.
pub open spec fn entry_addr(e: u64) -> u64 {
    e & ENTRY_ADDR_MASK
}

/// The slot index of `va` at level `lvl` (0 is the page-table level, 3 the
/// top level), and the byte offset within the page.
pub open spec fn va_index(va: u64, lvl: nat) -> u64 {
    (va >> (12 + 9 * lvl)) & 0x1ff
}

pub open spec fn va_offset(va: u64) -> u64 {
    va & 0xfff
}

/// The exact bit pattern of a present entry with the given flags.
pub open spec fn make_entry_bits(addr: u64, writable: bool, user_accessible: bool, execute_disable: bool) -> u64 {
    1u64 | addr | (if writable {
        2u64
    } else {
        0u64
    }) | (if user_accessible {
        4u64
    } else {
        0u64
    }) | (if execute_disable {
        0x8000000000000000u64
    } else {
        0u64
    })
}

/// A present entry with the given flags and 4 KiB-aligned target address.
pub fn make_entry(addr: u64, writable: bool, user_accessible: bool, execute_disable: bool) -> (r:
    u64)
    requires
        addr % 4096 == 0,
        addr < 0x10000000000000,
    ensures
        r == make_entry_bits(addr, writable, user_accessible, execute_disable),
        entry_present(r),
        entry_writable(r) == writable,
        entry_user_accessible(r) == user_accessible,
        entry_execute_disable(r) == execute_disable,
        entry_addr(r) == addr,
{
    let wbit: u64 = if writable {
        2
    } else {
        0
    };
    let ubit: u64 = if user_accessible {
        4
    } else {
        0
    };
    let xbit: u64 = if execute_disable {
        0x8000000000000000
    } else {
        0
    };
    let e: u64 = 1 | addr | wbit | ubit | xbit;
    proof {
        assert((e & 1 != 0) && ((e & 2 != 0) == (wbit == 2)) && ((e & 4 != 0) == (ubit == 4))
            && ((e & 0x8000000000000000 != 0) == (xbit == 0x8000000000000000)) && (e
            & 0x000FFFFFFFFFF000 == addr)) by (bit_vector)
            requires
                addr % 4096 == 0,
                addr < 0x10000000000000,
                wbit == 2 || wbit == 0,
                ubit == 4 || ubit == 0,
                xbit == 0x8000000000000000 || xbit == 0,
                e == 1 | addr | wbit | ubit | xbit,
        ;
    }
    e
}

/// An entry in one of the top three levels.
pub struct PageDirectoryEntry {
    pub bits: u64,
}

impl PageDirectoryEntry {
    pub fn new_zero() -> (r: PageDirectoryEntry)
        ensures
            r.bits == 0,
    {
        PageDirectoryEntry { bits: 0 }
    }

    pub fn present(&self) -> (r: bool)
        ensures
            r == entry_present(self.bits),
    {
        self.bits & 1 != 0
    }

    pub fn addr(&self) -> (r: u64)
        ensures
            r == entry_addr(self.bits),
    {
        self.bits & ENTRY_ADDR_MASK
    }

    pub fn with_addr(&self, addr: u64) -> (r: PageDirectoryEntry)
        requires
            addr % 4096 == 0,
            addr < 0x10000000000000,
        ensures
            entry_addr(r.bits) == addr,
            entry_present(r.bits) == entry_present(self.bits),
            entry_writable(r.bits) == entry_writable(self.bits),
            entry_user_accessible(r.bits) == entry_user_accessible(self.bits),
            entry_execute_disable(r.bits) == entry_execute_disable(self.bits),
    {
        let bits = (self.bits & !ENTRY_ADDR_MASK) | addr;
        proof {
            let s = self.bits;
            assert((addr % 4096 == 0 && addr < 0x10000000000000) ==> (((s
                & !0x000FFFFFFFFFF000u64) | addr) & 0x000FFFFFFFFFF000 == addr) && (((s
                & !0x000FFFFFFFFFF000u64) | addr) & 1 == s & 1) && (((s
                & !0x000FFFFFFFFFF000u64) | addr) & 2 == s & 2) && (((s
                & !0x000FFFFFFFFFF000u64) | addr) & 4 == s & 4) && (((s
                & !0x000FFFFFFFFFF000u64) | addr) & 0x8000000000000000 == s
                & 0x8000000000000000)) by (bit_vector);
        }
        PageDirectoryEntry { bits }
    }

    pub fn set_addr(&mut self, addr: u64)
        requires
            addr % 4096 == 0,
            addr < 0x10000000000000,
        ensures
            entry_addr(final(self).bits) == addr,
            entry_present(final(self).bits) == entry_present(old(self).bits),
            entry_writable(final(self).bits) == entry_writable(old(self).bits),
            entry_user_accessible(final(self).bits) == entry_user_accessible(old(self).bits),
            entry_execute_disable(final(self).bits) == entry_execute_disable(old(self).bits),
    {
        let updated = self.with_addr(addr);
        self.bits = updated.bits;
    }
}

/// An entry in the bottom level; the bits this core reads are laid out as in
/// the directory levels.
pub struct PageTableEntry {
    pub bits: u64,
}

impl PageTableEntry {
    pub fn new_zero() -> (r: PageTableEntry)
        ensures
            r.bits == 0,
    {
        PageTableEntry { bits: 0 }
    }

    pub fn present(&self) -> (r: bool)
        ensures
            r == entry_present(self.bits),
    {
        self.bits & 1 != 0
    }

    pub fn addr(&self) -> (r: u64)
        ensures
            r == entry_addr(self.bits),
    {
        self.bits & ENTRY_ADDR_MASK
    }

    pub fn with_addr(&self, addr: u64) -> (r: PageTableEntry)
        requires
            addr % 4096 == 0,
            addr < 0x10000000000000,
        ensures
            entry_addr(r.bits) == addr,
            entry_present(r.bits) == entry_present(self.bits),
            entry_writable(r.bits) == entry_writable(self.bits),
            entry_user_accessible(r.bits) == entry_user_accessible(self.bits),
            entry_execute_disable(r.bits) == entry_execute_disable(self.bits),
    {
        let bits = (self.bits & !ENTRY_ADDR_MASK) | addr;
        proof {
            let s = self.bits;
            assert((addr % 4096 == 0 && addr < 0x10000000000000) ==> (((s
                & !0x000FFFFFFFFFF000u64) | addr) & 0x000FFFFFFFFFF000 == addr) && (((s
                & !0x000FFFFFFFFFF000u64) | addr) & 1 == s & 1) && (((s
                & !0x000FFFFFFFFFF000u64) | addr) & 2 == s & 2) && (((s
                & !0x000FFFFFFFFFF000u64) | addr) & 4 == s & 4) && (((s
                & !0x000FFFFFFFFFF000u64) | addr) & 0x8000000000000000 == s
                & 0x8000000000000000)) by (bit_vector);
        }
        PageTableEntry { bits }
    }

    pub fn set_addr(&mut self, addr: u64)
        requires
            addr % 4096 == 0,
            addr < 0x10000000000000,
        ensures
            entry_addr(final(self).bits) == addr,
            entry_present(final(self).bits) == entry_present(old(self).bits),
            entry_writable(final(self).bits) == entry_writable(old(self).bits),
            entry_user_accessible(final(self).bits) == entry_user_accessible(old(self).bits),
            entry_execute_disable(final(self).bits) == entry_execute_disable(old(self).bits),
    {
        let updated = self.with_addr(addr);
        self.bits = updated.bits;
    }
}

/// One hardware page table of any level: 512 entries.
pub struct PageDirectory {
    entries: Vec<u64>,
}

impl View for PageDirectory {
    type V = Seq<u64>;

    closed spec fn view(&self) -> Seq<u64> {
        self.entries@
    }
}

impl PageDirectory {
    pub fn new_zeroed() -> (r: PageDirectory)
        ensures
            r@.len() == 512,
            forall|i: int| 0 <= i < 512 ==> r@[i] == 0,
    {
        let mut entries: Vec<u64> = Vec::new();
        let mut i: usize = 0;
        while i < 512
            invariant
                entries@.len() == i,
                i <= 512,
                forall|j: int| 0 <= j < i ==> entries@[j] == 0,
            decreases 512 - i,
        {
            entries.push(0);
            i = i + 1;
        }
        PageDirectory { entries }
    }

    pub fn get(&self, i: usize) -> (r: u64)
        requires
            i < self@.len(),
        ensures
            r == self@[i as int],
    {
        self.entries[i]
    }

    pub fn set(&mut self, i: usize, e: u64)
        requires
            i < old(self)@.len(),
        ensures
            final(self)@ == old(self)@.update(i as int, e),
    {
        let slot = &mut self.entries[i];
        *slot = e;
    }
}

/// A virtual address split into its table indices.
pub struct VirtAddr {
    pub bits: u64,
}

impl VirtAddr {
    pub fn new(bits: u64) -> (r: VirtAddr)
        ensures
            r.bits == bits,
    {
        VirtAddr { bits }
    }

    pub fn offset(&self) -> (r: u64)
        ensures
            r == va_offset(self.bits),
            r < 4096,
    {
        proof {
            let v = self.bits;
            assert(v & 0xfff < 4096) by (bit_vector);
        }
        self.bits & 0xfff
    }

    pub fn p1_index(&self) -> (r: u64)
        ensures
            r == va_index(self.bits, 0),
            r < 512,
    {
        proof {
            let v = self.bits;
            assert((v >> 12) & 0x1ff < 512) by (bit_vector);
        }
        (self.bits >> 12) & 0x1ff
    }

    pub fn p2_index(&self) -> (r: u64)
        ensures
            r == va_index(self.bits, 1),
            r < 512,
    {
        proof {
            let v = self.bits;
            assert((v >> 21) & 0x1ff < 512) by (bit_vector);
        }
        (self.bits >> 21) & 0x1ff
    }

    pub fn p3_index(&self) -> (r: u64)
        ensures
            r == va_index(self.bits, 2),
            r < 512,
    {
        proof {
            let v = self.bits;
            assert((v >> 30) & 0x1ff < 512) by (bit_vector);
        }
        (self.bits >> 30) & 0x1ff
    }

    pub fn p4_index(&self) -> (r: u64)
        ensures
            r == va_index(self.bits, 3),
            r < 512,
    {
        proof {
            let v = self.bits;
            assert((v >> 39) & 0x1ff < 512) by (bit_vector);
        }
        (self.bits >> 39) & 0x1ff
    }
}

/// Each index extractor stays below 512, and the page offset below 4096.
pub proof fn lemma_va_index_bounds(va: u64, lvl: nat)
    requires
        lvl <= 3,
    ensures
        va_index(va, lvl) < 512,
        va_offset(va) < 4096,
{
    if lvl == 0 {
        assert((va >> 12) & 0x1ff < 512) by (bit_vector);
    } else if lvl == 1 {
        assert((va >> 21) & 0x1ff < 512) by (bit_vector);
    } else if lvl == 2 {
        assert((va >> 30) & 0x1ff < 512) by (bit_vector);
    } else {
        assert((va >> 39) & 0x1ff < 512) by (bit_vector);
    }
    assert(va & 0xfff < 4096) by (bit_vector);
}

/// An address inside a page decomposes into the page's indices plus its
/// offset.
pub proof fn lemma_va_in_page(page: u64, off: u64)
    requires
        page % 4096 == 0,
        off < 4096,
        page + off <= u64::MAX,
    ensures
        va_index((page + off) as u64, 3) == va_index(page, 3),
        va_index((page + off) as u64, 2) == va_index(page, 2),
        va_index((page + off) as u64, 1) == va_index(page, 1),
        va_index((page + off) as u64, 0) == va_index(page, 0),
        va_offset((page + off) as u64) == off,
{
    let s = (page + off) as u64;
    assert(((s >> 39) & 0x1ff) == ((page >> 39) & 0x1ff) && ((s >> 30) & 0x1ff) == ((page >> 30)
        & 0x1ff) && ((s >> 21) & 0x1ff) == ((page >> 21) & 0x1ff) && ((s >> 12) & 0x1ff) == ((page
        >> 12) & 0x1ff) && (s & 0xfff) == off) by (bit_vector)
        requires
            page % 4096 == 0,
            off < 4096,
            s == (page + off) as u64,
            page + off <= u64::MAX,
    ;
}

/// A page-aligned address below the low half's top has a top-level index
/// under 256, and the level indices fit in `usize` positions.
pub proof fn lemma_va_user_half(va: u64)
    requires
        va < 0x800000000000,
    ensures
        va_index(va, 3) < 256,
{
    assert((va < 0x800000000000) ==> ((va >> 39) & 0x1ff) < 256) by (bit_vector);
}

} // verus!
