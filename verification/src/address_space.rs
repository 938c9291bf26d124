//! Per-task virtual address spaces over 4-level hardware page tables.
//!
//! An address space owns an arena of page-table pages: slot 0 is the
//! top-level table, and every intermediate table it ever allocates lives in
//! the arena too, so all of them can be released on destruction.  Raw
//! parent/child pointers are replaced by arena indices, kept side by side
//! with the hardware entries; an invariant ties each recorded child to the
//! physical address its entry carries.
//!
//! Each mapped region records the exact backing allocation it owns and a
//! byte-for-byte model of that backing memory's contents.

use vstd::prelude::*;
use vstd::arithmetic::power2::pow2;

use crate::buddy::{
    BuddyAllocator, BuddyModel, buddy_wf, spec_alloc, spec_free, free_block_ok, valid_block,
    block_size, intervals_disjoint, MAX_ORDER, SIZE_OF_MAX_ORDER, PHYS_SPAN_LIMIT,
};
use crate::consts::{PAGE_SIZE, PHYS_MEM_OFFSET, USERSPACE_LIMIT};
use crate::elf_parser::{ElfParser, le_u16, le_u32, le_u64, program_header_offset};
use crate::helper::{add_within_bounds, align_down, align_up, log2_ceil, log2_ceil_spec};
use crate::page_table::{
    PageDirectory, entry_present, entry_addr, make_entry, va_index, va_offset, VirtAddr,
    lemma_va_index_bounds, lemma_va_in_page, lemma_va_user_half,
};

verus! {

/// Top of the hardware user half: the level-4 index of any address below
/// this is under 256, so user mappings can never touch the kernel's shared
/// entries.
pub const USER_HALF_LIMIT: u64 = 0x800000000000;

/// One mapped region and the backing allocation it owns.
pub struct VirtRegion {
    pub start: u64,
    pub len: u64,
    pub writable: bool,
    pub executable: bool,
    backing_pages: u64,
    backing_order: usize,
    content: Vec<u8>,
}

/// Abstract state of one region: its placement, permissions, backing block,
/// and the bytes of its backing memory.
#[verifier::ext_equal]
pub ghost struct RegionModel {
    pub start: u64,
    pub len: u64,
    pub writable: bool,
    pub executable: bool,
    pub backing_pages: u64,
    pub backing_order: nat,
    pub content: Seq<u8>,
}

impl View for VirtRegion {
    type V = RegionModel;

    closed spec fn view(&self) -> RegionModel {
        RegionModel {
            start: self.start,
            len: self.len,
            writable: self.writable,
            executable: self.executable,
            backing_pages: self.backing_pages,
            backing_order: self.backing_order as nat,
            content: self.content@,
        }
    }
}

impl VirtRegion {
    /// The bytes of the region's backing memory.
    pub fn content_byte(&self, i: usize) -> (r: u8)
        requires
            i < self@.content.len(),
        ensures
            r == self@.content[i as int],
    {
        self.content[i]
    }

    /// The physical base its virtual addresses map to.
    pub fn physical_base(&self) -> (r: u64)
        requires
            self@.backing_pages >= PHYS_MEM_OFFSET,
        ensures
            r == self@.backing_pages - PHYS_MEM_OFFSET,
    {
        self.backing_pages - PHYS_MEM_OFFSET
    }
}

/// Abstract state of an address space.
#[verifier::ext_equal]
pub ghost struct AddressSpaceModel {
    pub tables: Seq<Seq<u64>>,
    pub table_addrs: Seq<u64>,
    pub children: Seq<Seq<Option<usize>>>,
    pub regions: Seq<RegionModel>,
}

/// A userspace address space.
pub struct AddressSpace {
    tables: Vec<PageDirectory>,
    table_addrs: Vec<u64>,
    children: Vec<Vec<Option<usize>>>,
    virt_regions: Vec<VirtRegion>,
}

impl View for AddressSpace {
    type V = AddressSpaceModel;

    closed spec fn view(&self) -> AddressSpaceModel {
        AddressSpaceModel {
            tables: Seq::new(self.tables@.len(), |i: int| self.tables@[i]@),
            table_addrs: self.table_addrs@,
            children: Seq::new(self.children@.len(), |i: int| self.children@[i]@),
            regions: Seq::new(self.virt_regions@.len(), |i: int| self.virt_regions@[i]@),
        }
    }
}

/// `region` covers the virtual address `va`.
pub open spec fn region_covers(r: RegionModel, va: u64) -> bool {
    r.start <= va < r.start + r.len
}

/// The page-table walk over the arena: three child steps selected by the
/// upper indices, then the leaf entry.  Addresses outside the hardware user
/// half are outside this space's own tables.
pub open spec fn spec_resolve(m: AddressSpaceModel, va: u64) -> Option<u64> {
    if va >= USER_HALF_LIMIT {
        None
    } else {
        match m.children[0][va_index(va, 3) as int] {
            None => None,
            Some(t3) => match m.children[t3 as int][va_index(va, 2) as int] {
                None => None,
                Some(t2) => match m.children[t2 as int][va_index(va, 1) as int] {
                    None => None,
                    Some(t1) => {
                        let e = m.tables[t1 as int][va_index(va, 0) as int];
                        if entry_present(e) {
                            Some((entry_addr(e) + va_offset(va)) as u64)
                        } else {
                            None
                        }
                    },
                },
            },
        }
    }
}

/// The placement rules for a new region: not the zero page, wholly below
/// the userspace ceiling leaving a guard page, and no intersection with
/// any recorded region (half-open ranges).
pub open spec fn region_check(m: AddressSpaceModel, start: u64, len: u64) -> bool {
    &&& start != 0
    &&& start + len <= USERSPACE_LIMIT - PAGE_SIZE
    &&& forall|i: int|
        0 <= i < m.regions.len() ==> (start + len <= (#[trigger] m.regions[i]).start
            || start >= m.regions[i].start + m.regions[i].len)
}

pub open spec fn tables_wf(m: AddressSpaceModel) -> bool {
    &&& 1 <= m.tables.len()
    &&& m.table_addrs.len() == m.tables.len()
    &&& m.children.len() == m.tables.len()
    &&& m.tables.len() <= usize::MAX
    &&& forall|j: int| 0 <= j < m.tables.len() ==> (#[trigger] m.tables[j]).len() == 512
    &&& forall|j: int| 0 <= j < m.children.len() ==> (#[trigger] m.children[j]).len() == 512
    &&& forall|j: int|
        0 <= j < m.table_addrs.len() ==> (#[trigger] m.table_addrs[j]) % PAGE_SIZE == 0
            && m.table_addrs[j] < PHYS_SPAN_LIMIT
    &&& forall|j1: int, j2: int|
        0 <= j1 < j2 < m.table_addrs.len() ==> (#[trigger] m.table_addrs[j1])
            != (#[trigger] m.table_addrs[j2])
}

/// Each recorded child is a real arena table, and the hardware entry in its
/// slot points at that table's physical page.
pub open spec fn children_wf(m: AddressSpaceModel) -> bool {
    forall|j: int, i: int|
        0 <= j < m.children.len() && 0 <= i < 512 && (#[trigger] m.children[j][i]).is_some()
            ==> ({
            let k = m.children[j][i].unwrap() as int;
            &&& 0 < k < m.tables.len()
            &&& entry_present(m.tables[j][i])
            &&& entry_addr(m.tables[j][i]) == m.table_addrs[k]
        })
}

/// The child maps form a forest: no table is anyone's child twice, and the
/// root is nobody's child.
pub open spec fn children_injective(m: AddressSpaceModel) -> bool {
    forall|j1: int, i1: int, j2: int, i2: int|
        0 <= j1 < m.children.len() && 0 <= i1 < 512 && 0 <= j2 < m.children.len() && 0 <= i2
            < 512 && (j1 != j2 || i1 != i2) && (#[trigger] m.children[j1][i1]).is_some()
            && (#[trigger] m.children[j2][i2]).is_some() ==> m.children[j1][i1].unwrap()
            != m.children[j2][i2].unwrap()
}

pub open spec fn no_root_child(m: AddressSpaceModel) -> bool {
    forall|j: int, i: int|
        0 <= j < m.children.len() && 0 <= i < 512 && (#[trigger] m.children[j][i]).is_some()
            ==> m.children[j][i].unwrap() != 0
}

pub open spec fn region_wf(r: RegionModel) -> bool {
    &&& r.start % PAGE_SIZE == 0
    &&& r.len % PAGE_SIZE == 0
    &&& PAGE_SIZE <= r.start
    &&& PAGE_SIZE <= r.len
    &&& r.start + r.len <= USER_HALF_LIMIT
    &&& r.content.len() == r.len
    &&& r.backing_pages % PAGE_SIZE == 0
    &&& PHYS_MEM_OFFSET <= r.backing_pages
    &&& r.backing_pages + block_size(r.backing_order) <= PHYS_MEM_OFFSET + PHYS_SPAN_LIMIT
    &&& r.backing_order <= MAX_ORDER
    &&& r.len <= block_size(r.backing_order)
    &&& r.backing_order == log2_ceil_spec((r.len / PAGE_SIZE) as nat)
}

pub open spec fn regions_wf(m: AddressSpaceModel) -> bool {
    &&& forall|i: int| 0 <= i < m.regions.len() ==> region_wf(#[trigger] m.regions[i])
    &&& forall|i1: int, i2: int|
        0 <= i1 < m.regions.len() && 0 <= i2 < m.regions.len() && i1 != i2 ==> ((
        #[trigger] m.regions[i1]).start + m.regions[i1].len <= (#[trigger] m.regions[i2]).start
            || m.regions[i2].start + m.regions[i2].len <= m.regions[i1].start)
}

/// Every page of every region resolves to its place in the region's backing
/// block.
pub open spec fn mapping_wf(m: AddressSpaceModel) -> bool {
    forall|i: int, k: int|
        0 <= i < m.regions.len() && 0 <= k < m.regions[i].len / PAGE_SIZE ==> #[trigger] spec_resolve(
            m,
            (m.regions[i].start + k * PAGE_SIZE) as u64,
        ) == Some(((m.regions[i].backing_pages - PHYS_MEM_OFFSET) + k * PAGE_SIZE) as u64)
}

/// A page that no region covers is unmapped.
pub open spec fn unmapped_wf(m: AddressSpaceModel) -> bool {
    forall|va: u64|
        va % PAGE_SIZE == 0 && (#[trigger] spec_resolve(m, va)).is_some() ==> exists|i: int|
            0 <= i < m.regions.len() && region_covers(#[trigger] m.regions[i], va)
}

/// The interval of bytes one owned block spans: each arena table owns one
/// direct-mapped page, each region its backing block.
pub open spec fn table_block(m: AddressSpaceModel, j: int) -> u64 {
    (m.table_addrs[j] + PHYS_MEM_OFFSET) as u64
}

/// All blocks this space owns are pairwise disjoint.
pub open spec fn owned_disjoint(m: AddressSpaceModel) -> bool {
    &&& forall|j1: int, j2: int|
        0 <= j1 < j2 < m.table_addrs.len() ==> intervals_disjoint(
            table_block(m, j1),
            block_size(0),
            table_block(m, j2),
            block_size(0),
        )
    &&& forall|j: int, i: int|
        0 <= j < m.table_addrs.len() && 0 <= i < m.regions.len() ==> intervals_disjoint(
            #[trigger] table_block(m, j),
            block_size(0),
            (#[trigger] m.regions[i]).backing_pages,
            block_size(m.regions[i].backing_order),
        )
    &&& forall|i1: int, i2: int|
        0 <= i1 < m.regions.len() && 0 <= i2 < m.regions.len() && i1 != i2 ==> intervals_disjoint(
            (#[trigger] m.regions[i1]).backing_pages,
            block_size(m.regions[i1].backing_order),
            (#[trigger] m.regions[i2]).backing_pages,
            block_size(m.regions[i2].backing_order),
        )
}

/// The kernel half of the top-level table is shared, never built here: the
/// root records no children in slots 256 and up.
pub open spec fn root_kernel_half_clear(m: AddressSpaceModel) -> bool {
    forall|i: int| 256 <= i < 512 ==> (#[trigger] m.children[0][i]).is_none()
}

/// The structural half of well-formedness: everything except the two
/// resolution invariants, which mapping temporarily disturbs while a new
/// region's pages are being installed one by one.
pub open spec fn as_core_wf(m: AddressSpaceModel) -> bool {
    &&& tables_wf(m)
    &&& root_kernel_half_clear(m)
    &&& children_wf(m)
    &&& children_injective(m)
    &&& no_root_child(m)
    &&& regions_wf(m)
    &&& owned_disjoint(m)
}

/// Well-formedness of an address space.
pub open spec fn as_wf(m: AddressSpaceModel) -> bool {
    &&& as_core_wf(m)
    &&& mapping_wf(m)
    &&& unmapped_wf(m)
}

/// `t` is reachable from the root in at most two child steps, so it can
/// serve as a parent at one of the three upper levels.
pub open spec fn table_shallow(m: AddressSpaceModel, t: int) -> bool {
    ||| t == 0
    ||| exists|i: int| 0 <= i < 512 && m.children[0][i] == Some(t as usize)
    ||| exists|i4: int, i3: int|
        #![trigger m.children[m.children[0][i4].unwrap() as int][i3]]
        0 <= i4 < 512 && 0 <= i3 < 512 && m.children[0][i4].is_some()
            && m.children[m.children[0][i4].unwrap() as int][i3] == Some(t as usize)
}

/// Every block this space owns is still a pending allocation of the buddy
/// allocator: aligned, inside the carved region, and clear of its free
/// lists.  This is what permits releasing them later.
pub open spec fn blocks_outstanding(m: AddressSpaceModel, b: BuddyModel) -> bool {
    &&& forall|j: int|
        0 <= j < m.table_addrs.len() ==> free_block_ok(b, #[trigger] table_block(m, j), 0)
    &&& forall|i: int|
        0 <= i < m.regions.len() ==> free_block_ok(
            b,
            (#[trigger] m.regions[i]).backing_pages,
            m.regions[i].backing_order,
        )
}

impl AddressSpace {
    /// Create a new address space with a fresh, zeroed top-level page
    /// table.  Fails exactly when the buddy allocator cannot supply the
    /// table's page.
    pub fn new(buddy: &mut BuddyAllocator) -> (r: Result<AddressSpace, ()>)
        requires
            buddy_wf(old(buddy)@),
        ensures
            buddy_wf(final(buddy)@),
            match r {
                Ok(s) => {
                    &&& as_wf(s@)
                    &&& blocks_outstanding(s@, final(buddy)@)
                    &&& s@.regions.len() == 0
                    &&& s@.tables.len() == 1
                    &&& forall|i: int| 0 <= i < 512 ==> s@.tables[0][i] == 0
                    &&& forall|va: u64| spec_resolve(s@, va).is_none()
                    &&& spec_alloc(old(buddy)@, 0) == Some(
                        ((s@.table_addrs[0] + PHYS_MEM_OFFSET) as u64, final(buddy)@),
                    )
                    &&& s@ == fresh_space(s@.table_addrs[0])
                },
                Err(()) => spec_alloc(old(buddy)@, 0).is_none() && final(buddy)@ == old(buddy)@,
            },
    {
        let ghost b0 = buddy@;
        let block = match buddy.alloc_pages_order(0) {
            None => {
                return Err(());
            },
            Some(b) => b,
        };
        proof {
            crate::buddy::lemma_spec_alloc(b0, 0);
            crate::slab::lemma_buddy_block_page_aligned(b0, 0, block, buddy@);
            assert(valid_block(buddy@, block, 0));
            vstd::arithmetic::power2::lemma2_to64();
            assert(block_size(0) == PAGE_SIZE);
            assert(PHYS_MEM_OFFSET % PAGE_SIZE == 0);
            lemma_aligned_diff(block, PHYS_MEM_OFFSET);
        }
        let phys = block - PHYS_MEM_OFFSET;
        let table = PageDirectory::new_zeroed();
        let mut tables: Vec<PageDirectory> = Vec::new();
        tables.push(table);
        let mut table_addrs: Vec<u64> = Vec::new();
        table_addrs.push(phys);
        let mut children: Vec<Vec<Option<usize>>> = Vec::new();
        children.push(none_row());
        let virt_regions: Vec<VirtRegion> = Vec::new();
        let s = AddressSpace { tables, table_addrs, children, virt_regions };
        proof {
            let m = s@;
            assert(m.tables.len() == 1 && m.table_addrs.len() == 1 && m.children.len() == 1);
            assert(m.tables[0].len() == 512 && m.children[0].len() == 512);
            assert forall|va: u64| (#[trigger] spec_resolve(m, va)).is_none() by {
                if va < USER_HALF_LIMIT {
                    lemma_va_index_bounds(va, 3);
                    assert(m.children[0][va_index(va, 3) as int].is_none());
                }
            }
            assert(as_wf(m));
            assert(blocks_outstanding(m, buddy@)) by {
                assert(table_block(m, 0) == block);
            }
            assert(m.tables[0] =~= zero_table());
            assert(m.children[0] =~= empty_children());
            assert(m =~~= fresh_space(phys));
        }
        Ok(s)
    }

    /// The virtual (direct-mapped) address of the top-level page table.
    pub fn p4_table(&self) -> (r: u64)
        requires
            as_core_wf(self@),
        ensures
            r == self@.table_addrs[0] + PHYS_MEM_OFFSET,
    {
        self.table_addrs[0] + PHYS_MEM_OFFSET
    }

    /// Load this space's top-level table into the given page-table-root
    /// slot; the caller must keep the space alive while it is active.
    pub fn switch_to_this(&self, page_table_root: &mut u64)
        requires
            as_core_wf(self@),
        ensures
            *final(page_table_root) == self@.table_addrs[0],
    {
        *page_table_root = self.table_addrs[0];
    }

    /// Copy the canonical higher-half entries (256..512) from the kernel's
    /// reference table: kernel mappings are shared, not duplicated.  The
    /// user-space walk never reads them, so every resolution is unchanged.
    pub fn map_kernel_pages(&mut self, kernel_table: &PageDirectory)
        requires
            as_wf(old(self)@),
            kernel_table@.len() == 512,
        ensures
            as_wf(final(self)@),
            final(self)@.regions == old(self)@.regions,
            final(self)@.table_addrs == old(self)@.table_addrs,
            final(self)@.children == old(self)@.children,
            final(self)@.tables.len() == old(self)@.tables.len(),
            forall|i: int| 256 <= i < 512 ==> final(self)@.tables[0][i] == kernel_table@[i],
            forall|i: int| 0 <= i < 256 ==> final(self)@.tables[0][i] == old(self)@.tables[0][i],
            forall|j: int|
                1 <= j < old(self)@.tables.len() ==> final(self)@.tables[j] == old(
                    self,
                )@.tables[j],
            forall|va: u64| #[trigger]
                spec_resolve(final(self)@, va) == spec_resolve(old(self)@, va),
            forall|b: BuddyModel| #[trigger]
                blocks_outstanding(old(self)@, b) ==> blocks_outstanding(final(self)@, b),
            final(self)@ == with_kernel_half(old(self)@, kernel_table@),
    {
        let ghost m0 = self@;
        let mut i: usize = 256;
        while i < 512
            invariant
                as_wf(m0),
                256 <= i <= 512,
                self.tables@.len() == m0.tables.len(),
                self@.table_addrs == m0.table_addrs,
                self@.children == m0.children,
                self@.regions == m0.regions,
                self@.tables[0].len() == 512,
                kernel_table@.len() == 512,
                forall|j: int| 1 <= j < m0.tables.len() ==> self@.tables[j] == m0.tables[j],
                forall|p: int| 0 <= p < 256 ==> self@.tables[0][p] == m0.tables[0][p],
                forall|p: int| 256 <= p < i ==> self@.tables[0][p] == kernel_table@[p],
                forall|p: int| i <= p < 512 ==> self@.tables[0][p] == m0.tables[0][p],
            decreases 512 - i,
        {
            let ghost pre = self@;
            let e = kernel_table.get(i);
            proof {
                assert(pre.tables[0] == self.tables@[0]@);
            }
            let root = &mut self.tables[0];
            root.set(i, e);
            proof {
                assert(self@.tables[0] == pre.tables[0].update(i as int, e));
                assert(forall|j: int|
                    1 <= j < pre.tables.len() ==> self@.tables[j] == pre.tables[j]);
                assert(self@.children =~= pre.children);
                assert(self@.regions =~= pre.regions);
            }
            i = i + 1;
        }
        proof {
            let m1 = self@;
            lemma_resolve_same_after_root_kernel_write(m0, m1);
            assert forall|va: u64| #[trigger] spec_resolve(m1, va) == spec_resolve(m0, va) by {}
            assert(children_wf(m1)) by {
                assert forall|j: int, i2: int|
                    0 <= j < m1.children.len() && 0 <= i2 < 512 && (
                #[trigger] m1.children[j][i2]).is_some() implies ({
                    let k = m1.children[j][i2].unwrap() as int;
                    &&& 0 < k < m1.tables.len()
                    &&& entry_present(m1.tables[j][i2])
                    &&& entry_addr(m1.tables[j][i2]) == m1.table_addrs[k]
                }) by {
                    assert(m0.children[j][i2].is_some());
                    if j == 0 {
                        assert(i2 < 256);
                        assert(m1.tables[0][i2] == m0.tables[0][i2]);
                    } else {
                        assert(m1.tables[j] == m0.tables[j]);
                    }
                }
            }
            assert(mapping_wf(m1)) by {
                assert forall|i2: int, k: int|
                    0 <= i2 < m1.regions.len() && 0 <= k < m1.regions[i2].len / PAGE_SIZE
                    implies #[trigger] spec_resolve(
                    m1,
                    (m1.regions[i2].start + k * PAGE_SIZE) as u64,
                ) == Some(
                    ((m1.regions[i2].backing_pages - PHYS_MEM_OFFSET) + k * PAGE_SIZE) as u64,
                ) by {
                    assert(m1.regions[i2] == m0.regions[i2]);
                }
            }
            assert(unmapped_wf(m1)) by {
                assert forall|va: u64|
                    va % PAGE_SIZE == 0 && (#[trigger] spec_resolve(m1, va)).is_some()
                    implies exists|i2: int|
                        0 <= i2 < m1.regions.len() && region_covers(
                            #[trigger] m1.regions[i2],
                            va,
                        ) by {
                    assert(spec_resolve(m0, va).is_some());
                    let w = choose|w: int|
                        0 <= w < m0.regions.len() && region_covers(m0.regions[w], va);
                    assert(m1.regions[w] == m0.regions[w]);
                    assert(region_covers(m1.regions[w], va));
                }
            }
            assert(tables_wf(m1)) by {
                assert forall|j: int| 0 <= j < m1.tables.len() implies (
                #[trigger] m1.tables[j]).len() == 512 by {
                    if j >= 1 {
                        assert(m1.tables[j] == m0.tables[j]);
                    }
                }
            }
            assert(root_kernel_half_clear(m1));
            assert(children_injective(m1));
            assert(no_root_child(m1));
            assert(regions_wf(m1));
            assert(owned_disjoint(m1)) by {
                assert forall|j1: int, j2: int|
                    0 <= j1 < j2 < m1.table_addrs.len() implies intervals_disjoint(
                    table_block(m1, j1),
                    block_size(0),
                    table_block(m1, j2),
                    block_size(0),
                ) by {
                    assert(table_block(m1, j1) == table_block(m0, j1));
                    assert(table_block(m1, j2) == table_block(m0, j2));
                }
                assert forall|j: int, i2: int|
                    0 <= j < m1.table_addrs.len() && 0 <= i2 < m1.regions.len()
                    implies intervals_disjoint(
                    #[trigger] table_block(m1, j),
                    block_size(0),
                    (#[trigger] m1.regions[i2]).backing_pages,
                    block_size(m1.regions[i2].backing_order),
                ) by {
                    assert(table_block(m1, j) == table_block(m0, j));
                    assert(m1.regions[i2] == m0.regions[i2]);
                }
                assert forall|i1: int, i2: int|
                    0 <= i1 < m1.regions.len() && 0 <= i2 < m1.regions.len() && i1 != i2
                    implies intervals_disjoint(
                    (#[trigger] m1.regions[i1]).backing_pages,
                    block_size(m1.regions[i1].backing_order),
                    (#[trigger] m1.regions[i2]).backing_pages,
                    block_size(m1.regions[i2].backing_order),
                ) by {
                    assert(m1.regions[i1] == m0.regions[i1]);
                    assert(m1.regions[i2] == m0.regions[i2]);
                }
            }
            assert(as_wf(m1));
            assert(m1.tables[0] =~= with_kernel_half(m0, kernel_table@).tables[0]);
            assert(m1 =~~= with_kernel_half(m0, kernel_table@));
            assert forall|b: BuddyModel| #[trigger]
                blocks_outstanding(m0, b) implies blocks_outstanding(m1, b) by {
                assert forall|j: int| 0 <= j < m1.table_addrs.len() implies free_block_ok(
                    b,
                    #[trigger] table_block(m1, j),
                    0,
                ) by {
                    assert(table_block(m1, j) == table_block(m0, j));
                }
                assert forall|i2: int| 0 <= i2 < m1.regions.len() implies free_block_ok(
                    b,
                    (#[trigger] m1.regions[i2]).backing_pages,
                    m1.regions[i2].backing_order,
                ) by {
                    assert(m1.regions[i2] == m0.regions[i2]);
                }
            }
        }
    }

    /// Walk the four levels for `virt_addr`, following present entries and
    /// ignoring permission bits; the physical address, or `None` when the
    /// walk stops at an absent entry or leaves the user half this space
    /// builds.
    pub fn resolve_virt_addr(&self, virt_addr: u64) -> (r: Option<u64>)
        requires
            as_core_wf(self@),
        ensures
            r == spec_resolve(self@, virt_addr),
    {
        if virt_addr >= USER_HALF_LIMIT {
            return None;
        }
        let va = VirtAddr::new(virt_addr);
        let i4 = va.p4_index() as usize;
        let t3 = match self.children[0][i4] {
            None => {
                return None;
            },
            Some(t) => t,
        };
        let i3 = va.p3_index() as usize;
        let t2 = match self.children[t3][i3] {
            None => {
                return None;
            },
            Some(t) => t,
        };
        let i2 = va.p2_index() as usize;
        let t1 = match self.children[t2][i2] {
            None => {
                return None;
            },
            Some(t) => t,
        };
        let i1 = va.p1_index() as usize;
        let e = self.tables[t1].get(i1);
        if e & 1 != 0 {
            proof {
                assert(e & 0x000FFFFFFFFFF000 <= 0x000FFFFFFFFFF000) by (bit_vector);
            }
            Some((e & crate::page_table::ENTRY_ADDR_MASK) + va.offset())
        } else {
            None
        }
    }

    /// Test that a region does not overlap any existing region and lies
    /// within the userspace bounds, exactly as `region_check` states.
    pub fn check_region_no_overlap(&self, start: u64, len: u64) -> (r: bool)
        requires
            as_core_wf(self@),
        ensures
            r == region_check(self@, start, len),
    {
        if start == 0 {
            return false;
        }
        let end = match add_within_bounds(start, len, USERSPACE_LIMIT - PAGE_SIZE) {
            Some(e) => e,
            None => {
                return false;
            },
        };
        let mut i: usize = 0;
        while i < self.virt_regions.len()
            invariant
                as_core_wf(self@),
                i <= self.virt_regions@.len(),
                end == start + len,
                forall|j: int|
                    0 <= j < i ==> (start + len <= (#[trigger] self@.regions[j]).start || start
                        >= self@.regions[j].start + self@.regions[j].len),
            decreases self.virt_regions@.len() - i,
        {
            let region_start = self.virt_regions[i].start;
            let region_len = self.virt_regions[i].len;
            proof {
                assert(self@.regions[i as int] == self.virt_regions@[i as int]@);
                assert(region_wf(self@.regions[i as int]));
            }
            let region_end = region_start + region_len;
            if !(end <= region_start || start >= region_end) {
                return false;
            }
            i = i + 1;
        }
        true
    }

    /// The number of mapped regions.
    pub fn region_count(&self) -> (r: usize)
        ensures
            r == self@.regions.len(),
    {
        self.virt_regions.len()
    }

    /// The region at the given position.
    pub fn region_at(&self, i: usize) -> (r: &VirtRegion)
        requires
            i < self@.regions.len(),
        ensures
            r@ == self@.regions[i as int],
    {
        &self.virt_regions[i]
    }
}


/// The 512 zero entries of a freshly allocated table.
pub open spec fn zero_table() -> Seq<u64> {
    Seq::new(512, |i: int| 0u64)
}

/// The 512 empty slots of a fresh table's child row.
pub open spec fn empty_children() -> Seq<Option<usize>> {
    Seq::new(512, |i: int| None::<usize>)
}

/// The entry installed for an intermediate table: present, writable,
/// user-accessible, execute allowed.
pub open spec fn table_entry_bits(phys: u64) -> u64 {
    crate::page_table::make_entry_bits(phys, true, true, false)
}

/// The leaf entry installed for one page of a region: present and
/// user-accessible, with the region's writable and execute-disable bits.
pub open spec fn leaf_entry_bits(phys: u64, writable: bool, executable: bool) -> u64 {
    crate::page_table::make_entry_bits(phys, writable, true, !executable)
}

/// A fresh address space: one zeroed root table at the given physical
/// page, no children, no regions.
pub open spec fn fresh_space(root_phys: u64) -> AddressSpaceModel {
    AddressSpaceModel {
        tables: seq![zero_table()],
        table_addrs: seq![root_phys],
        children: seq![empty_children()],
        regions: Seq::<RegionModel>::empty(),
    }
}

/// The model after the kernel's higher-half entries are copied into the
/// root table's slots 256..512.
pub open spec fn with_kernel_half(m: AddressSpaceModel, kt: Seq<u64>) -> AddressSpaceModel {
    AddressSpaceModel {
        tables: m.tables.update(
            0,
            Seq::new(
                512,
                |i: int|
                    if 256 <= i < 512 {
                        kt[i]
                    } else {
                        m.tables[0][i]
                    },
            ),
        ),
        ..m
    }
}

/// The model after a fresh zeroed table at physical page `phys` is
/// attached under `(t, slot)`.
pub open spec fn attach_table(m: AddressSpaceModel, t: int, slot: int, phys: u64) -> AddressSpaceModel {
    AddressSpaceModel {
        tables: m.tables.push(zero_table()).update(
            t,
            m.tables[t].update(slot, table_entry_bits(phys)),
        ),
        table_addrs: m.table_addrs.push(phys),
        children: m.children.push(empty_children()).update(
            t,
            m.children[t].update(slot, Some(m.tables.len() as usize)),
        ),
        regions: m.regions,
    }
}

/// One walk-or-create step: follow the recorded child, or allocate one
/// page for a fresh table and attach it.  `None` exactly on exhaustion.
pub open spec fn spec_goc(m: AddressSpaceModel, b: BuddyModel, t: int, slot: int) -> Option<
    (int, AddressSpaceModel, BuddyModel),
> {
    match m.children[t][slot] {
        Some(k) => Some((k as int, m, b)),
        None => match spec_alloc(b, 0) {
            None => None,
            Some((block, b1)) => Some(
                (
                    m.tables.len() as int,
                    attach_table(m, t, slot, (block - PHYS_MEM_OFFSET) as u64),
                    b1,
                ),
            ),
        },
    }
}

/// Mapping one page: three walk-or-create steps selected by the address's
/// upper indices, then the leaf entry with the region's permission bits.
/// On failure the returned state is the state the steps so far built.
pub open spec fn spec_map_page(
    m: AddressSpaceModel,
    b: BuddyModel,
    va: u64,
    pa: u64,
    writable: bool,
    executable: bool,
) -> (bool, AddressSpaceModel, BuddyModel) {
    match spec_goc(m, b, 0, va_index(va, 3) as int) {
        None => (false, m, b),
        Some((t3, m1, b1)) => match spec_goc(m1, b1, t3, va_index(va, 2) as int) {
            None => (false, m1, b1),
            Some((t2, m2, b2)) => match spec_goc(m2, b2, t2, va_index(va, 1) as int) {
                None => (false, m2, b2),
                Some((t1, m3, b3)) => (
                    true,
                    AddressSpaceModel {
                        tables: m3.tables.update(
                            t1,
                            m3.tables[t1].update(
                                va_index(va, 0) as int,
                                leaf_entry_bits(pa, writable, executable),
                            ),
                        ),
                        ..m3
                    },
                    b3,
                ),
            },
        },
    }
}

/// Mapping the first `k` pages of a region, lowest first; a failed page
/// stops the walk and the failed state is carried out.
pub open spec fn spec_map_pages(
    m: AddressSpaceModel,
    b: BuddyModel,
    start: u64,
    phys: u64,
    k: int,
    writable: bool,
    executable: bool,
) -> (bool, AddressSpaceModel, BuddyModel)
    decreases k,
{
    if k <= 0 {
        (true, m, b)
    } else {
        let prev = spec_map_pages(m, b, start, phys, k - 1, writable, executable);
        if !prev.0 {
            prev
        } else {
            spec_map_page(
                prev.1,
                prev.2,
                (start + (k - 1) * PAGE_SIZE) as u64,
                (phys + (k - 1) * PAGE_SIZE) as u64,
                writable,
                executable,
            )
        }
    }
}

/// The whole add-region step: the placement checks, the backing
/// allocation, the per-page mappings, and the region record.  The first
/// component is the returned block on success; the other two are the
/// resulting space and allocator, which on a mid-way exhaustion are
/// exactly what the pages mapped so far left behind.
pub open spec fn spec_add_virt_region(
    m: AddressSpaceModel,
    b: BuddyModel,
    start: u64,
    len: u64,
    writable: bool,
    executable: bool,
) -> (Option<u64>, AddressSpaceModel, BuddyModel) {
    let a_start = page_align_down(start);
    let a_len = page_align_up(len);
    if !(region_check(m, a_start, a_len) && a_start + a_len <= USER_HALF_LIMIT - PAGE_SIZE) {
        (None, m, b)
    } else {
        let order = log2_ceil_spec((a_len / PAGE_SIZE) as nat);
        match spec_alloc(b, order) {
            None => (None, m, b),
            Some((pages, b1)) => {
                let stepped = spec_map_pages(
                    m,
                    b1,
                    a_start,
                    (pages - PHYS_MEM_OFFSET) as u64,
                    (a_len / PAGE_SIZE) as int,
                    writable,
                    executable,
                );
                if !stepped.0 {
                    (None, stepped.1, stepped.2)
                } else {
                    (
                        Some(pages),
                        AddressSpaceModel {
                            regions: stepped.1.regions.push(
                                RegionModel {
                                    start: a_start,
                                    len: a_len,
                                    writable: writable,
                                    executable: executable,
                                    backing_pages: pages,
                                    backing_order: order,
                                    content: zero_bytes(a_len as nat),
                                },
                            ),
                            ..stepped.1
                        },
                        stepped.2,
                    )
                }
            },
        }
    }
}

/// Once a page fails, the walk stays stuck at the failed state.
pub proof fn lemma_map_pages_stuck(
    m: AddressSpaceModel,
    b: BuddyModel,
    start: u64,
    phys: u64,
    k: int,
    n: int,
    writable: bool,
    executable: bool,
)
    requires
        0 <= k <= n,
        !spec_map_pages(m, b, start, phys, k, writable, executable).0,
    ensures
        spec_map_pages(m, b, start, phys, n, writable, executable) == spec_map_pages(
            m,
            b,
            start,
            phys,
            k,
            writable,
            executable,
        ),
    decreases n - k,
{
    if k < n {
        lemma_map_pages_stuck(m, b, start, phys, k, n - 1, writable, executable);
    }
}

impl AddressSpace {
    /// Follow the entry in `slot` of arena table `t`, or allocate, zero and
    /// attach a new table there.  Fails exactly when the buddy allocator is
    /// exhausted; resolution of every address is unchanged either way.
    fn get_or_create_page_table(&mut self, buddy: &mut BuddyAllocator, t: usize, slot: usize) -> (r:
        Result<usize, ()>)
        requires
            as_core_wf(old(self)@),
            buddy_wf(old(buddy)@),
            blocks_outstanding(old(self)@, old(buddy)@),
            t < old(self)@.tables.len(),
            slot < 512,
            t == 0 ==> slot < 256,
            table_shallow(old(self)@, t as int),
        ensures
            as_core_wf(final(self)@),
            buddy_wf(final(buddy)@),
            blocks_outstanding(final(self)@, final(buddy)@),
            final(self)@.regions == old(self)@.regions,
            old(self)@.tables.len() <= final(self)@.tables.len(),
            forall|i: int|
                256 <= i < 512 ==> final(self)@.tables[0][i] == old(self)@.tables[0][i],
            forall|va: u64| #[trigger]
                spec_resolve(final(self)@, va) == spec_resolve(old(self)@, va),
            forall|x: u64, xo: nat|
                xo <= MAX_ORDER && #[trigger] free_block_ok(old(buddy)@, x, xo)
                    ==> free_block_ok(final(buddy)@, x, xo) && (forall|j: int|
                    old(self)@.tables.len() <= j < final(self)@.tables.len()
                        ==> intervals_disjoint(
                        x,
                        block_size(xo),
                        #[trigger] table_block(final(self)@, j),
                        block_size(0),
                    )),
            match r {
                Ok(k) => {
                    &&& spec_goc(old(self)@, old(buddy)@, t as int, slot as int) == Some(
                        (k as int, final(self)@, final(buddy)@),
                    )
                    &&& k < final(self)@.tables.len()
                    &&& 0 < k
                    &&& final(self)@.children[t as int][slot as int] == Some(k)
                    &&& forall|j: int|
                        0 <= j < old(self)@.table_addrs.len() ==> final(self)@.table_addrs[j]
                            == old(self)@.table_addrs[j]
                    &&& forall|j: int|
                        0 <= j < old(self)@.tables.len() && j != t
                            ==> final(self)@.children[j] == old(self)@.children[j]
                    &&& forall|i: int|
                        0 <= i < 512 && i != slot ==> final(self)@.children[t as int][i] == old(
                            self,
                        )@.children[t as int][i]
                },
                Err(()) => spec_goc(old(self)@, old(buddy)@, t as int, slot as int).is_none()
                    && final(self)@ == old(self)@ && final(buddy)@ == old(buddy)@,
            },
    {
        let ghost m0 = self@;
        let ghost b0 = buddy@;
        proof {
            assert(m0.children[t as int] == self.children@[t as int]@);
        }
        match self.children[t][slot] {
            Some(k) => {
                proof {
                    assert(m0.children[t as int][slot as int].is_some());
                    assert(self@ == m0);
                }
                Ok(k)
            },
            None => {
                let block = match buddy.alloc_pages_order(0) {
                    None => {
                        proof {
                            assert(self@ == m0);
                        }
                        return Err(());
                    },
                    Some(b) => b,
                };
                proof {
                    crate::buddy::lemma_spec_alloc(b0, 0);
                    crate::slab::lemma_buddy_block_page_aligned(b0, 0, block, buddy@);
                    vstd::arithmetic::power2::lemma2_to64();
                    assert(block_size(0) == PAGE_SIZE);
                    assert(valid_block(buddy@, block, 0));
                    assert(PHYS_MEM_OFFSET % PAGE_SIZE == 0);
                    lemma_aligned_diff(block, PHYS_MEM_OFFSET);
                }
                let phys = block - PHYS_MEM_OFFSET;
                let ghost kk = self.tables@.len();
                let k = self.tables.len();
                self.tables.push(PageDirectory::new_zeroed());
                self.table_addrs.push(phys);
                self.children.push(none_row());
                let grown_len = self.tables.len();
                let e = make_entry(phys, true, true, false);
                proof {
                    assert(self@.tables[t as int] == self.tables@[t as int]@);
                    assert(self@.tables[t as int] == m0.tables[t as int]);
                    assert(m0.tables[t as int].len() == 512);
                }
                let pt = &mut self.tables[t];
                pt.set(slot, e);
                proof {
                    assert(self@.children[t as int] == self.children@[t as int]@);
                }
                let row = &mut self.children[t];
                let cell = &mut row[slot];
                *cell = Some(k);
                proof {
                    let m1 = self@;
                    assert(m1.tables.len() == grown_len);
                    assert(m1.regions =~= m0.regions);
                    assert(0u64 & 1 == 0) by (bit_vector);
                    // the fresh block is disjoint from every owned block
                    assert forall|j: int| 0 <= j < m0.table_addrs.len() implies m0.table_addrs[j]
                        != phys by {
                        assert(free_block_ok(b0, table_block(m0, j), 0));
                        assert(intervals_disjoint(
                            table_block(m0, j),
                            block_size(0),
                            block,
                            block_size(0),
                        ));
                    }
                    assert(m1.tables.len() == kk + 1);
                    assert(m1.children.len() == kk + 1);
                    assert(m1.table_addrs.len() == kk + 1);
                    assert(m1.table_addrs[kk as int] == phys);
                    assert(m1.children[t as int][slot as int] == Some(k));
                    assert(m1.tables[t as int] == m0.tables[t as int].update(slot as int, e));
                    assert(m1.children[t as int] == m0.children[t as int].update(
                        slot as int,
                        Some(k),
                    ));
                    assert forall|j: int| 0 <= j < kk && j != t implies m1.children[j]
                        == m0.children[j] && m1.tables[j] == m0.tables[j] by {}
                    assert(forall|i: int|
                        0 <= i < 512 ==> (#[trigger] m1.children[kk as int][i]).is_none());
                    assert(forall|i: int|
                        0 <= i < 512 ==> !entry_present(#[trigger] m1.tables[kk as int][i]));
                    lemma_resolve_preserved_attach(m0, m1, t as int, slot as int, k);
                    // well-formedness of the grown arena
                    assert(tables_wf(m1)) by {
                        assert forall|j: int| 0 <= j < m1.tables.len() implies (
                        #[trigger] m1.tables[j]).len() == 512 by {
                            if j < kk && j != t {
                                assert(m1.tables[j] == m0.tables[j]);
                            }
                        }
                        assert forall|j: int| 0 <= j < m1.children.len() implies (
                        #[trigger] m1.children[j]).len() == 512 by {
                            if j < kk && j != t {
                                assert(m1.children[j] == m0.children[j]);
                            }
                        }
                        assert forall|j: int| 0 <= j < m1.table_addrs.len() implies (
                        #[trigger] m1.table_addrs[j]) % PAGE_SIZE == 0 && m1.table_addrs[j]
                            < PHYS_SPAN_LIMIT by {
                            if j < kk {
                                assert(m1.table_addrs[j] == m0.table_addrs[j]);
                            }
                        }
                        assert forall|j1: int, j2: int|
                            0 <= j1 < j2 < m1.table_addrs.len() implies (
                        #[trigger] m1.table_addrs[j1]) != (#[trigger] m1.table_addrs[j2]) by {
                            if j2 == kk {
                                assert(m1.table_addrs[j1] == m0.table_addrs[j1]);
                            } else {
                                assert(m1.table_addrs[j1] == m0.table_addrs[j1]);
                                assert(m1.table_addrs[j2] == m0.table_addrs[j2]);
                            }
                        }
                    }
                    assert(root_kernel_half_clear(m1)) by {
                        assert forall|i: int| 256 <= i < 512 implies (
                        #[trigger] m1.children[0][i]).is_none() by {
                            if t == 0 {
                                assert(i != slot);
                                assert(m1.children[0][i] == m0.children[0][i]);
                            } else {
                                assert(m1.children[0][i] == m0.children[0][i]);
                            }
                        }
                    }
                    assert(children_wf(m1)) by {
                        assert forall|j: int, i: int|
                            0 <= j < m1.children.len() && 0 <= i < 512 && (
                        #[trigger] m1.children[j][i]).is_some() implies ({
                            let c = m1.children[j][i].unwrap() as int;
                            &&& 0 < c < m1.tables.len()
                            &&& entry_present(m1.tables[j][i])
                            &&& entry_addr(m1.tables[j][i]) == m1.table_addrs[c]
                        }) by {
                            if j == t && i == slot {
                            } else if j == kk {
                            } else {
                                assert(m1.children[j][i] == m0.children[j][i]);
                                assert(m0.children[j][i].is_some());
                                assert(m1.tables[j][i] == m0.tables[j][i]);
                            }
                        }
                    }
                    assert(children_injective(m1)) by {
                        assert forall|j1: int, i1: int, j2: int, i2: int|
                            0 <= j1 < m1.children.len() && 0 <= i1 < 512 && 0 <= j2
                                < m1.children.len() && 0 <= i2 < 512 && (j1 != j2 || i1 != i2)
                                && (#[trigger] m1.children[j1][i1]).is_some() && (
                            #[trigger] m1.children[j2][i2]).is_some()
                            implies m1.children[j1][i1].unwrap()
                            != m1.children[j2][i2].unwrap() by {
                            if j1 == t && i1 == slot {
                                if !(j2 == t && i2 == slot) {
                                    assert(m1.children[j2][i2] == m0.children[j2][i2]);
                                    assert(m0.children[j2][i2].is_some());
                                    assert(m0.children[j2][i2].unwrap() < kk);
                                }
                            } else if j2 == t && i2 == slot {
                                assert(m1.children[j1][i1] == m0.children[j1][i1]);
                                assert(m0.children[j1][i1].is_some());
                                assert(m0.children[j1][i1].unwrap() < kk);
                            } else {
                                assert(m1.children[j1][i1] == m0.children[j1][i1]);
                                assert(m1.children[j2][i2] == m0.children[j2][i2]);
                                assert(m0.children[j1][i1].is_some());
                                assert(m0.children[j2][i2].is_some());
                            }
                        }
                    }
                    assert(no_root_child(m1)) by {
                        assert forall|j: int, i: int|
                            0 <= j < m1.children.len() && 0 <= i < 512 && (
                        #[trigger] m1.children[j][i]).is_some() implies m1.children[j][i].unwrap()
                            != 0 by {
                            if !(j == t && i == slot) && j != kk {
                                assert(m1.children[j][i] == m0.children[j][i]);
                                assert(m0.children[j][i].is_some());
                            }
                        }
                    }
                    assert(regions_wf(m1)) by {
                        assert forall|i: int| 0 <= i < m1.regions.len() implies region_wf(
                            #[trigger] m1.regions[i],
                        ) by {
                            assert(m1.regions[i] == m0.regions[i]);
                        }
                    }
                    assert(owned_disjoint(m1)) by {
                        assert forall|j1: int, j2: int|
                            0 <= j1 < j2 < m1.table_addrs.len() implies intervals_disjoint(
                            table_block(m1, j1),
                            block_size(0),
                            table_block(m1, j2),
                            block_size(0),
                        ) by {
                            if j2 == kk {
                                assert(free_block_ok(b0, table_block(m0, j1), 0));
                                assert(table_block(m1, j1) == table_block(m0, j1));
                                assert(table_block(m1, kk as int) == block);
                            } else {
                                assert(table_block(m1, j1) == table_block(m0, j1));
                                assert(table_block(m1, j2) == table_block(m0, j2));
                            }
                        }
                        assert forall|j: int, i2: int|
                            0 <= j < m1.table_addrs.len() && 0 <= i2 < m1.regions.len()
                            implies intervals_disjoint(
                            #[trigger] table_block(m1, j),
                            block_size(0),
                            (#[trigger] m1.regions[i2]).backing_pages,
                            block_size(m1.regions[i2].backing_order),
                        ) by {
                            assert(m1.regions[i2] == m0.regions[i2]);
                            if j == kk {
                                assert(free_block_ok(
                                    b0,
                                    m0.regions[i2].backing_pages,
                                    m0.regions[i2].backing_order,
                                ));
                                assert(table_block(m1, kk as int) == block);
                            } else {
                                assert(table_block(m1, j) == table_block(m0, j));
                            }
                        }
                        assert forall|i1: int, i2: int|
                            0 <= i1 < m1.regions.len() && 0 <= i2 < m1.regions.len() && i1 != i2
                            implies intervals_disjoint(
                            (#[trigger] m1.regions[i1]).backing_pages,
                            block_size(m1.regions[i1].backing_order),
                            (#[trigger] m1.regions[i2]).backing_pages,
                            block_size(m1.regions[i2].backing_order),
                        ) by {
                            assert(m1.regions[i1] == m0.regions[i1]);
                            assert(m1.regions[i2] == m0.regions[i2]);
                        }
                    }
                    assert(as_core_wf(m1));
                    assert(m1.children[t as int][slot as int] == Some(k));
                    assert(blocks_outstanding(m1, buddy@)) by {
                        assert forall|j: int| 0 <= j < m1.table_addrs.len() implies free_block_ok(
                            buddy@,
                            #[trigger] table_block(m1, j),
                            0,
                        ) by {
                            if j == kk {
                                assert(table_block(m1, kk as int) == block);
                            } else {
                                assert(table_block(m1, j) == table_block(m0, j));
                                assert(free_block_ok(b0, table_block(m0, j), 0));
                            }
                        }
                        assert forall|i2: int| 0 <= i2 < m1.regions.len() implies free_block_ok(
                            buddy@,
                            (#[trigger] m1.regions[i2]).backing_pages,
                            m1.regions[i2].backing_order,
                        ) by {
                            assert(m1.regions[i2] == m0.regions[i2]);
                            assert(free_block_ok(
                                b0,
                                m0.regions[i2].backing_pages,
                                m0.regions[i2].backing_order,
                            ));
                        }
                    }
                    assert(m1.regions =~= m0.regions);
                    assert forall|x: u64, xo: nat|
                        xo <= MAX_ORDER && #[trigger] free_block_ok(b0, x, xo)
                        implies free_block_ok(buddy@, x, xo) && (forall|j: int|
                        kk <= j < m1.tables.len() ==> intervals_disjoint(
                            x,
                            block_size(xo),
                            #[trigger] table_block(m1, j),
                            block_size(0),
                        )) by {
                        assert(intervals_disjoint(x, block_size(xo), block, block_size(0)));
                        assert(table_block(m1, kk as int) == block);
                    }
                    // the new state is exactly one attached table
                    assert(e == table_entry_bits(phys));
                    assert(m1.tables[kk as int] =~= zero_table());
                    assert(m1.children[kk as int] =~= empty_children());
                    assert(m1.tables =~~= attach_table(m0, t as int, slot as int, phys).tables);
                    assert(m1.children =~~= attach_table(
                        m0,
                        t as int,
                        slot as int,
                        phys,
                    ).children);
                    assert(m1.table_addrs =~= attach_table(
                        m0,
                        t as int,
                        slot as int,
                        phys,
                    ).table_addrs);
                    assert(m1 =~~= attach_table(m0, t as int, slot as int, phys));
                    assert forall|i: int| 256 <= i < 512 implies m1.tables[0][i]
                        == m0.tables[0][i] by {
                        if t != 0 {
                            assert(m1.tables[0] == m0.tables[0]);
                        }
                    }
                }
                Ok(k)
            },
        }
    }
}

impl AddressSpace {
    /// Map one page: walk the three upper levels, creating and zeroing any
    /// missing intermediate table, and install the leaf entry with the
    /// requested writable / user-accessible / execute-disable bits.
    #[verifier::rlimit(80)]
    fn map_virt_addr(
        &mut self,
        buddy: &mut BuddyAllocator,
        virt_addr: u64,
        phys_addr: u64,
        writable: bool,
        executable: bool,
    ) -> (r: Result<(), ()>)
        requires
            as_core_wf(old(self)@),
            buddy_wf(old(buddy)@),
            blocks_outstanding(old(self)@, old(buddy)@),
            virt_addr % PAGE_SIZE == 0,
            virt_addr < USER_HALF_LIMIT,
            phys_addr % PAGE_SIZE == 0,
            phys_addr < PHYS_SPAN_LIMIT,
            spec_resolve(old(self)@, virt_addr).is_none(),
        ensures
            as_core_wf(final(self)@),
            buddy_wf(final(buddy)@),
            blocks_outstanding(final(self)@, final(buddy)@),
            final(self)@.regions == old(self)@.regions,
            old(self)@.tables.len() <= final(self)@.tables.len(),
            forall|i: int|
                256 <= i < 512 ==> final(self)@.tables[0][i] == old(self)@.tables[0][i],
            forall|j: int|
                0 <= j < old(self)@.table_addrs.len() ==> final(self)@.table_addrs[j] == old(
                    self,
                )@.table_addrs[j],
            forall|x: u64, xo: nat|
                xo <= MAX_ORDER && #[trigger] free_block_ok(old(buddy)@, x, xo)
                    ==> free_block_ok(final(buddy)@, x, xo) && (forall|j: int|
                    old(self)@.tables.len() <= j < final(self)@.tables.len()
                        ==> intervals_disjoint(
                        x,
                        block_size(xo),
                        #[trigger] table_block(final(self)@, j),
                        block_size(0),
                    )),
            spec_map_page(old(self)@, old(buddy)@, virt_addr, phys_addr, writable, executable)
                == (r.is_ok(), final(self)@, final(buddy)@),
            match r {
                Ok(()) => {
                    &&& forall|va: u64|
                        (va < virt_addr || va >= virt_addr + PAGE_SIZE)
                            ==> #[trigger] spec_resolve(final(self)@, va) == spec_resolve(
                            old(self)@,
                            va,
                        )
                    &&& forall|va: u64|
                        virt_addr <= va < virt_addr + PAGE_SIZE ==> #[trigger] spec_resolve(
                            final(self)@,
                            va,
                        ) == Some((phys_addr + (va - virt_addr)) as u64)
                },
                Err(()) => forall|va: u64| #[trigger]
                    spec_resolve(final(self)@, va) == spec_resolve(old(self)@, va),
            },
    {
        let ghost m0 = self@;
        let ghost b0 = buddy@;
        let va = VirtAddr::new(virt_addr);
        let i4 = va.p4_index() as usize;
        let i3 = va.p3_index() as usize;
        let i2 = va.p2_index() as usize;
        let i1 = va.p1_index() as usize;
        proof {
            lemma_va_user_half(virt_addr);
        }
        let t3 = match self.get_or_create_page_table(buddy, 0, i4) {
            Err(()) => {
                proof {
                    assert(spec_map_page(m0, b0, virt_addr, phys_addr, writable, executable)
                        == (false, self@, buddy@));
                }
                return Err(());
            },
            Ok(t) => t,
        };
        let ghost ma = self@;
        let ghost ba = buddy@;
        proof {
            assert(table_shallow(ma, t3 as int)) by {
                assert(ma.children[0][i4 as int] == Some(t3));
            }
            assert(t3 < ma.tables.len() && t3 != 0);
        }
        let t2 = match self.get_or_create_page_table(buddy, t3, i3) {
            Err(()) => {
                proof {
                    lemma_fbo_tables_compose(m0, ma, self@, b0, ba, buddy@);
                    assert(spec_map_page(m0, b0, virt_addr, phys_addr, writable, executable)
                        == (false, self@, buddy@));
                }
                return Err(());
            },
            Ok(t) => t,
        };
        let ghost mb = self@;
        let ghost bb = buddy@;
        proof {
            lemma_fbo_tables_compose(m0, ma, mb, b0, ba, bb);
            assert(mb.children[0][i4 as int] == Some(t3)) by {
                assert(t3 != 0);
            }
            assert(mb.children[t3 as int][i3 as int] == Some(t2));
            assert(table_shallow(mb, t2 as int)) by {
                assert(mb.children[0][i4 as int].is_some());
                assert(mb.children[mb.children[0][i4 as int].unwrap() as int][i3 as int] == Some(
                    t2,
                ));
            }
            assert(t2 < mb.tables.len() && t2 != 0 && t2 != t3);
        }
        let t1 = match self.get_or_create_page_table(buddy, t2, i2) {
            Err(()) => {
                proof {
                    lemma_fbo_tables_compose(m0, mb, self@, b0, bb, buddy@);
                    assert(spec_map_page(m0, b0, virt_addr, phys_addr, writable, executable)
                        == (false, self@, buddy@));
                }
                return Err(());
            },
            Ok(t) => t,
        };
        let ghost mc = self@;
        let ghost bc = buddy@;
        proof {
            lemma_fbo_tables_compose(m0, mb, mc, b0, bb, bc);
            assert(mc.children[t3 as int][i3 as int] == Some(t2)) by {
                assert(t2 != t3);
                if t3 as int != t2 as int {
                    assert(mc.children[t3 as int] == mb.children[t3 as int]);
                }
            }
            assert(mc.children[0][i4 as int] == Some(t3)) by {
                if 0 != t2 as int {
                    assert(mc.children[0] == mb.children[0]);
                }
            }
            assert(mc.children[t2 as int][i2 as int] == Some(t1));
            assert(t1 < mc.tables.len() && t1 != 0);
            // the walk for this page is complete and still unmapped, so the
            // leaf entry is absent
            assert(spec_resolve(mc, virt_addr).is_none());
            assert(!entry_present(mc.tables[t1 as int][va_index(virt_addr, 0) as int]));
            assert(mc.tables[t1 as int] == self.tables@[t1 as int]@);
            assert(mc.tables[t1 as int].len() == 512);
        }
        let e = make_entry(phys_addr, writable, true, !executable);
        let pt = &mut self.tables[t1];
        pt.set(i1, e);
        proof {
            let m1 = self@;
            assert(m1.regions =~= mc.regions);
            assert(m1.children == mc.children);
            assert(m1.table_addrs == mc.table_addrs);
            assert(m1.tables[t1 as int] == mc.tables[t1 as int].update(i1 as int, e));
            assert forall|j: int, i: int|
                0 <= j < mc.tables.len() && 0 <= i < 512 && (j != t1 as int || i != i1 as int)
                implies m1.tables[j][i] == mc.tables[j][i] by {
                if j != t1 as int {
                    assert(m1.tables[j] == mc.tables[j]);
                }
            }
            assert forall|j: int| 0 <= j < m1.tables.len() implies (
            #[trigger] m1.tables[j]).len() == 512 by {
                if j != t1 as int {
                    assert(m1.tables[j] == mc.tables[j]);
                }
            }
            lemma_resolve_after_leaf_install(mc, m1, virt_addr, phys_addr, e);
            // the walk reads no leaf slot as a child, so the child
            // invariants carry over
            assert(children_wf(m1)) by {
                assert forall|j: int, i: int|
                    0 <= j < m1.children.len() && 0 <= i < 512 && (
                #[trigger] m1.children[j][i]).is_some() implies ({
                    let c = m1.children[j][i].unwrap() as int;
                    &&& 0 < c < m1.tables.len()
                    &&& entry_present(m1.tables[j][i])
                    &&& entry_addr(m1.tables[j][i]) == m1.table_addrs[c]
                }) by {
                    assert(mc.children[j][i].is_some());
                    if j == t1 as int && i == i1 as int {
                        assert(entry_present(mc.tables[j][i]));
                        assert(false);
                    } else {
                        assert(m1.tables[j][i] == mc.tables[j][i]);
                    }
                }
            }
            assert(tables_wf(m1));
            assert(root_kernel_half_clear(m1));
            assert(children_injective(m1));
            assert(no_root_child(m1));
            assert(regions_wf(m1)) by {
                assert forall|i: int| 0 <= i < m1.regions.len() implies region_wf(
                    #[trigger] m1.regions[i],
                ) by {
                    assert(m1.regions[i] == mc.regions[i]);
                }
            }
            assert(owned_disjoint(m1)) by {
                lemma_owned_disjoint_same(mc, m1);
            }
            assert(as_core_wf(m1));
            assert(blocks_outstanding(m1, buddy@)) by {
                lemma_blocks_outstanding_same(mc, m1, buddy@);
            }
            assert(m1.table_addrs == mc.table_addrs);
            assert forall|x: u64, xo: nat|
                xo <= MAX_ORDER && #[trigger] free_block_ok(b0, x, xo) implies free_block_ok(
                bc,
                x,
                xo,
            ) && (forall|j: int|
                m0.tables.len() <= j < m1.tables.len() ==> intervals_disjoint(
                    x,
                    block_size(xo),
                    #[trigger] table_block(m1, j),
                    block_size(0),
                )) by {
                assert forall|j: int|
                    m0.tables.len() <= j < m1.tables.len() implies intervals_disjoint(
                    x,
                    block_size(xo),
                    #[trigger] table_block(m1, j),
                    block_size(0),
                ) by {
                    assert(table_block(m1, j) == table_block(mc, j));
                }
            }
            // the whole step matches the one-page mapping spec
            assert(e == leaf_entry_bits(phys_addr, writable, executable));
            assert(m1 =~~= spec_map_page(m0, b0, virt_addr, phys_addr, writable, executable).1);
            assert(spec_map_page(m0, b0, virt_addr, phys_addr, writable, executable) == (
            true,
            m1,
            bc,
            ));
        }
        Ok(())
    }
}

/// `x` rounded down to its page.
pub open spec fn page_align_down(x: u64) -> u64 {
    (x - x % PAGE_SIZE) as u64
}

/// `x` rounded up to a whole number of pages.
pub open spec fn page_align_up(x: u64) -> u64 {
    page_align_down((x + PAGE_SIZE - 1) as u64)
}

/// The content of a freshly mapped region: zero-filled.
pub open spec fn zero_bytes(n: nat) -> Seq<u8> {
    Seq::new(n, |i: int| 0u8)
}

impl AddressSpace {
    /// Add a virtual region: `start` is aligned down and `len` up to page
    /// size; the zero page, any region crossing the userspace ceiling or
    /// reaching the hardware user half's topmost guard page, and any
    /// overlap with an existing region are rejected.  On success the minimal covering block is taken from the
    /// buddy allocator, zero-filled, and every page of the region is mapped
    /// with the requested permission bits; the backing block's address is
    /// returned.  Exhaustion of the buddy allocator also fails; the space
    /// then stays structurally sound with its regions untouched, and the
    /// caller is expected to release it.
    pub fn add_virt_region(
        &mut self,
        buddy: &mut BuddyAllocator,
        start: u64,
        len: u64,
        writable: bool,
        executable: bool,
    ) -> (r: Result<u64, ()>)
        requires
            as_wf(old(self)@),
            buddy_wf(old(buddy)@),
            blocks_outstanding(old(self)@, old(buddy)@),
            1 <= len <= SIZE_OF_MAX_ORDER,
        ensures
            buddy_wf(final(buddy)@),
            as_core_wf(final(self)@),
            blocks_outstanding(final(self)@, final(buddy)@),
            ({
                let stepped = spec_add_virt_region(
                    old(self)@,
                    old(buddy)@,
                    start,
                    len,
                    writable,
                    executable,
                );
                &&& final(self)@ == stepped.1
                &&& final(buddy)@ == stepped.2
                &&& (match r {
                    Ok(p) => stepped.0 == Some(p),
                    Err(()) => stepped.0.is_none(),
                })
            }),
            forall|x: u64, xo: nat|
                xo <= MAX_ORDER && #[trigger] free_block_ok(old(buddy)@, x, xo)
                    ==> free_block_ok(final(buddy)@, x, xo),
            forall|i: int|
                256 <= i < 512 ==> final(self)@.tables[0][i] == old(self)@.tables[0][i],
            !(region_check(old(self)@, page_align_down(start), page_align_up(len))
                && page_align_down(start) + page_align_up(len) <= USER_HALF_LIMIT - PAGE_SIZE)
                ==> r.is_err() && final(self)@ == old(self)@ && final(buddy)@ == old(buddy)@,
            r.is_err() ==> final(self)@.regions == old(self)@.regions,
            match r {
                Ok(pages) => {
                    let a_start = page_align_down(start);
                    let a_len = page_align_up(len);
                    &&& region_check(old(self)@, a_start, a_len)
                    &&& a_start + a_len <= USER_HALF_LIMIT - PAGE_SIZE
                    &&& as_wf(final(self)@)
                    &&& final(self)@.regions == old(self)@.regions.push(
                        RegionModel {
                            start: a_start,
                            len: a_len,
                            writable: writable,
                            executable: executable,
                            backing_pages: pages,
                            backing_order: log2_ceil_spec((a_len / PAGE_SIZE) as nat),
                            content: zero_bytes(a_len as nat),
                        },
                    )
                    &&& PHYS_MEM_OFFSET <= pages
                    &&& forall|va: u64|
                        (va < a_start || va >= a_start + a_len) ==> #[trigger] spec_resolve(
                            final(self)@,
                            va,
                        ) == spec_resolve(old(self)@, va)
                },
                Err(()) => true,
            },
    {
        let ghost m0 = self@;
        let ghost b0 = buddy@;
        let a_start = align_down(start, PAGE_SIZE);
        let a_len = align_up(len, PAGE_SIZE);
        proof {
            assert(a_start == page_align_down(start));
            assert(a_len == page_align_up(len));
            assert(a_len >= len);
            assert(a_len <= SIZE_OF_MAX_ORDER) by {
                if a_len > SIZE_OF_MAX_ORDER {
                    lemma_page_multiples_gap(SIZE_OF_MAX_ORDER, a_len);
                }
            }
        }
        if !self.check_region_no_overlap(a_start, a_len) {
            proof {
                assert(spec_add_virt_region(m0, b0, start, len, writable, executable) == (
                None::<u64>,
                m0,
                b0,
                ));
            }
            return Err(());
        }
        if a_start > USER_HALF_LIMIT - PAGE_SIZE - a_len {
            proof {
                assert(spec_add_virt_region(m0, b0, start, len, writable, executable) == (
                None::<u64>,
                m0,
                b0,
                ));
            }
            return Err(());
        }
        let num_pages = a_len / PAGE_SIZE;
        let num_order = log2_ceil(num_pages);
        proof {
            crate::buddy::lemma_log2_ceil_le_10(num_pages as nat);
        }
        let pages = match buddy.alloc_pages_order(num_order) {
            None => {
                proof {
                    assert(spec_add_virt_region(m0, b0, start, len, writable, executable) == (
                    None::<u64>,
                    m0,
                    b0,
                    ));
                }
                return Err(());
            },
            Some(p) => p,
        };
        let ghost b1 = buddy@;
        proof {
            crate::buddy::lemma_spec_alloc(b0, num_order as nat);
            crate::slab::lemma_buddy_block_page_aligned(b0, num_order as nat, pages, b1);
            assert(valid_block(b1, pages, num_order as nat));
            assert(a_len <= block_size(num_order as nat)) by {
                vstd::arithmetic::div_mod::lemma_fundamental_div_mod(
                    a_len as int,
                    PAGE_SIZE as int,
                );
                vstd::arithmetic::mul::lemma_mul_inequality(
                    num_pages as int,
                    pow2(num_order as nat) as int,
                    PAGE_SIZE as int,
                );
                vstd::arithmetic::mul::lemma_mul_is_commutative(
                    num_pages as int,
                    PAGE_SIZE as int,
                );
                vstd::arithmetic::mul::lemma_mul_is_commutative(
                    pow2(num_order as nat) as int,
                    PAGE_SIZE as int,
                );
            }
            assert(blocks_outstanding(m0, b1)) by {
                assert forall|i: int|
                    0 <= i < m0.regions.len() implies (#[trigger] m0.regions[i]).backing_order
                    <= MAX_ORDER by {
                    assert(region_wf(m0.regions[i]));
                }
                lemma_blocks_outstanding_transfer(m0, b0, b1, pages, num_order as nat);
            }
            assert forall|i: int|
                0 <= i < m0.regions.len() implies intervals_disjoint(
                (#[trigger] m0.regions[i]).backing_pages,
                block_size(m0.regions[i].backing_order),
                pages,
                block_size(num_order as nat),
            ) by {
                assert(region_wf(m0.regions[i]));
            }
        }
        // the backing memory starts zero-filled
        let mut content: Vec<u8> = Vec::new();
        let mut ci: u64 = 0;
        while ci < a_len
            invariant
                content@.len() == ci,
                ci <= a_len,
                a_len <= SIZE_OF_MAX_ORDER,
                forall|i: int| 0 <= i < ci ==> content@[i] == 0u8,
            decreases a_len - ci,
        {
            content.push(0);
            ci = ci + 1;
        }
        let phys_base = pages - PHYS_MEM_OFFSET;
        let mut offset: u64 = 0;
        while offset < a_len
            invariant
                as_core_wf(self@),
                buddy_wf(buddy@),
                blocks_outstanding(self@, buddy@),
                as_wf(m0),
                m0 == old(self)@,
                b0 == old(buddy)@,
                a_start == page_align_down(start),
                a_len == page_align_up(len),
                num_pages == a_len / PAGE_SIZE,
                num_order as nat == log2_ceil_spec(num_pages as nat),
                spec_alloc(b0, num_order as nat) == Some((pages, b1)),
                ({
                    let st = spec_map_pages(
                        m0,
                        b1,
                        a_start,
                        phys_base,
                        (offset / PAGE_SIZE) as int,
                        writable,
                        executable,
                    );
                    st.0 && st.1 == self@ && st.2 == buddy@
                }),
                forall|x: u64, xo: nat|
                    xo <= MAX_ORDER && #[trigger] free_block_ok(b1, x, xo) ==> free_block_ok(
                        buddy@,
                        x,
                        xo,
                    ),
                forall|x: u64, xo: nat|
                    xo <= MAX_ORDER && #[trigger] free_block_ok(b0, x, xo) ==> free_block_ok(
                        b1,
                        x,
                        xo,
                    ),
                forall|i: int| 256 <= i < 512 ==> self@.tables[0][i] == m0.tables[0][i],
                self@.regions == m0.regions,
                offset % PAGE_SIZE == 0,
                offset <= a_len,
                a_start % PAGE_SIZE == 0,
                a_len % PAGE_SIZE == 0,
                PAGE_SIZE <= a_len <= SIZE_OF_MAX_ORDER,
                a_start >= PAGE_SIZE,
                a_start + a_len <= USER_HALF_LIMIT - PAGE_SIZE,
                region_check(m0, a_start, a_len),
                pages % PAGE_SIZE == 0,
                PHYS_MEM_OFFSET <= pages,
                phys_base == pages - PHYS_MEM_OFFSET,
                pages + block_size(num_order as nat) <= PHYS_MEM_OFFSET + PHYS_SPAN_LIMIT,
                a_len <= block_size(num_order as nat),
                num_order <= MAX_ORDER,
                free_block_ok(buddy@, pages, num_order as nat),
                forall|j: int|
                    0 <= j < self@.table_addrs.len() ==> intervals_disjoint(
                        #[trigger] table_block(self@, j),
                        block_size(0),
                        pages,
                        block_size(num_order as nat),
                    ),
                forall|i: int|
                    0 <= i < self@.regions.len() ==> intervals_disjoint(
                        (#[trigger] self@.regions[i]).backing_pages,
                        block_size(self@.regions[i].backing_order),
                        pages,
                        block_size(num_order as nat),
                    ),
                forall|va: u64|
                    (va < a_start || va >= a_start + offset) ==> #[trigger] spec_resolve(
                        self@,
                        va,
                    ) == spec_resolve(m0, va),
                forall|va: u64|
                    a_start <= va < a_start + offset ==> #[trigger] spec_resolve(self@, va)
                        == Some((phys_base + (va - a_start)) as u64),
            decreases a_len - offset,
        {
            let ghost mp = self@;
            let ghost bp = buddy@;
            let page_va = a_start + offset;
            proof {
                // this page is still unmapped: it is outside what the loop
                // mapped, and no old region covers it
                assert(page_va % PAGE_SIZE == 0) by {
                    lemma_page_sum_aligned(a_start, offset);
                }
                assert(spec_resolve(mp, page_va) == spec_resolve(m0, page_va));
                assert(spec_resolve(m0, page_va).is_none()) by {
                    if spec_resolve(m0, page_va).is_some() {
                        let w = choose|w: int|
                            0 <= w < m0.regions.len() && region_covers(m0.regions[w], page_va);
                        assert(a_start + a_len <= m0.regions[w].start || a_start
                            >= m0.regions[w].start + m0.regions[w].len);
                    }
                }
                assert((phys_base + offset) % (PAGE_SIZE as int) == 0) by {
                    lemma_aligned_diff(pages, PHYS_MEM_OFFSET);
                    lemma_page_sum_aligned(phys_base, offset);
                }
                assert(phys_base + offset < PHYS_SPAN_LIMIT);
            }
            let ghost k = (offset / PAGE_SIZE) as int;
            proof {
                vstd::arithmetic::div_mod::lemma_fundamental_div_mod(
                    offset as int,
                    PAGE_SIZE as int,
                );
                vstd::arithmetic::mul::lemma_mul_is_commutative(k, PAGE_SIZE as int);
                assert(offset == k * PAGE_SIZE);
                vstd::arithmetic::div_mod::lemma_fundamental_div_mod_converse(
                    offset as int + PAGE_SIZE as int,
                    PAGE_SIZE as int,
                    k + 1,
                    0,
                );
            }
            match self.map_virt_addr(
                buddy,
                page_va,
                phys_base + offset,
                writable,
                executable,
            ) {
                Err(()) => {
                    proof {
                        assert(spec_map_pages(
                            m0,
                            b1,
                            a_start,
                            phys_base,
                            k + 1,
                            writable,
                            executable,
                        ) == (false, self@, buddy@)) by {
                            assert(spec_map_page(
                                mp,
                                bp,
                                page_va,
                                (phys_base + offset) as u64,
                                writable,
                                executable,
                            ) == (false, self@, buddy@));
                        }
                        lemma_map_pages_stuck(
                            m0,
                            b1,
                            a_start,
                            phys_base,
                            k + 1,
                            num_pages as int,
                            writable,
                            executable,
                        );
                        assert(spec_add_virt_region(m0, b0, start, len, writable, executable)
                            == (None::<u64>, self@, buddy@));
                    }
                    return Err(());
                },
                Ok(()) => {},
            }
            proof {
                let mq = self@;
                let bq = buddy@;
                assert(free_block_ok(bq, pages, num_order as nat));
                assert forall|j: int|
                    0 <= j < mq.table_addrs.len() implies intervals_disjoint(
                    #[trigger] table_block(mq, j),
                    block_size(0),
                    pages,
                    block_size(num_order as nat),
                ) by {
                    if j < mp.tables.len() {
                        assert(table_block(mq, j) == table_block(mp, j));
                    } else {
                        assert(intervals_disjoint(
                            pages,
                            block_size(num_order as nat),
                            table_block(mq, j),
                            block_size(0),
                        ));
                    }
                }
                assert forall|va: u64|
                    (va < a_start || va >= a_start + (offset + PAGE_SIZE))
                    implies #[trigger] spec_resolve(mq, va) == spec_resolve(m0, va) by {
                    assert(va < page_va || va >= page_va + PAGE_SIZE);
                    assert(spec_resolve(mq, va) == spec_resolve(mp, va));
                }
                assert forall|va: u64|
                    a_start <= va < a_start + (offset + PAGE_SIZE) implies #[trigger] spec_resolve(
                    mq,
                    va,
                ) == Some((phys_base + (va - a_start)) as u64) by {
                    if va < a_start + offset {
                        assert(va < page_va || va >= page_va + PAGE_SIZE);
                        assert(spec_resolve(mq, va) == spec_resolve(mp, va));
                    } else {
                        assert(page_va <= va < page_va + PAGE_SIZE);
                        assert(spec_resolve(mq, va) == Some(
                            ((phys_base + offset) + (va - page_va)) as u64,
                        ));
                    }
                }
                // one more page folded into the mapping walk
                assert(spec_map_pages(m0, b1, a_start, phys_base, k + 1, writable, executable)
                    == (true, mq, bq)) by {
                    assert(spec_map_page(
                        mp,
                        bp,
                        page_va,
                        (phys_base + offset) as u64,
                        writable,
                        executable,
                    ) == (true, mq, bq));
                }
                assert((offset + PAGE_SIZE) / (PAGE_SIZE as int) == k + 1);
            }
            offset = offset + PAGE_SIZE;
        }
        // record the region
        let region = VirtRegion {
            start: a_start,
            len: a_len,
            writable,
            executable,
            backing_pages: pages,
            backing_order: num_order,
            content,
        };
        let ghost ml = self@;
        let ghost bl = buddy@;
        self.virt_regions.push(region);
        proof {
            let m1 = self@;
            let newr = RegionModel {
                start: a_start,
                len: a_len,
                writable: writable,
                executable: executable,
                backing_pages: pages,
                backing_order: num_order as nat,
                content: zero_bytes(a_len as nat),
            };
            assert(m1.regions[m0.regions.len() as int].content =~= zero_bytes(a_len as nat));
            assert(m1.regions =~~= m0.regions.push(newr));
            // the whole call matches the add-region spec
            assert(spec_map_pages(
                m0,
                b1,
                a_start,
                phys_base,
                num_pages as int,
                writable,
                executable,
            ) == (true, ml, bl));
            assert(m1 =~~= spec_add_virt_region(m0, b0, start, len, writable, executable).1);
            assert(spec_add_virt_region(m0, b0, start, len, writable, executable) == (
            Some(pages),
            m1,
            bl,
            ));
            assert(m1.tables == ml.tables && m1.children == ml.children && m1.table_addrs
                == ml.table_addrs);
            assert forall|va: u64| #[trigger] spec_resolve(m1, va) == spec_resolve(ml, va) by {}
            lemma_add_region_wf(m0, ml, m1, newr, a_start, a_len, phys_base, pages, num_order as nat);
            assert(blocks_outstanding(m1, bl)) by {
                assert forall|j: int| 0 <= j < m1.table_addrs.len() implies free_block_ok(
                    bl,
                    #[trigger] table_block(m1, j),
                    0,
                ) by {
                    assert(table_block(m1, j) == table_block(ml, j));
                }
                assert forall|i: int| 0 <= i < m1.regions.len() implies free_block_ok(
                    bl,
                    (#[trigger] m1.regions[i]).backing_pages,
                    m1.regions[i].backing_order,
                ) by {
                    if i < m0.regions.len() {
                        assert(m1.regions[i] == ml.regions[i]);
                        assert(ml.regions[i] == m0.regions[i]);
                    } else {
                        assert(m1.regions[i] == newr);
                    }
                }
            }
        }
        Ok(pages)
    }
}

/// Two multiples of the page size cannot differ by less than a page.
proof fn lemma_page_multiples_gap(a: u64, b: u64)
    requires
        a % PAGE_SIZE == 0,
        b % PAGE_SIZE == 0,
        a < b,
    ensures
        a + PAGE_SIZE <= b,
{
    let p = PAGE_SIZE as int;
    vstd::arithmetic::div_mod::lemma_fundamental_div_mod(a as int, p);
    vstd::arithmetic::div_mod::lemma_fundamental_div_mod(b as int, p);
    assert(b - a == (b as int / p - a as int / p) * p) by (nonlinear_arith)
        requires
            a as int == p * (a as int / p),
            b as int == p * (b as int / p),
    ;
    assert(b as int / p - a as int / p >= 1) by (nonlinear_arith)
        requires
            (b as int / p - a as int / p) * p == b - a,
            b > a,
            p > 0,
    ;
    assert(b - a >= p) by (nonlinear_arith)
        requires
            (b as int / p - a as int / p) * p == b - a,
            b as int / p - a as int / p >= 1,
            p > 0,
    ;
}

/// The sum of two page-aligned values is page-aligned.
proof fn lemma_page_sum_aligned(a: u64, b: u64)
    requires
        a % PAGE_SIZE == 0,
        b % PAGE_SIZE == 0,
        a + b <= u64::MAX,
    ensures
        (a + b) % (PAGE_SIZE as int) == 0,
{
    let p = PAGE_SIZE as int;
    vstd::arithmetic::div_mod::lemma_fundamental_div_mod(a as int, p);
    vstd::arithmetic::div_mod::lemma_fundamental_div_mod(b as int, p);
    assert(a + b == (a as int / p + b as int / p) * p) by (nonlinear_arith)
        requires
            a as int == p * (a as int / p),
            b as int == p * (b as int / p),
    ;
    vstd::arithmetic::div_mod::lemma_mod_multiples_basic(a as int / p + b as int / p, p);
}

/// After the loop has mapped every page and the region is recorded, the
/// full invariant holds again.
proof fn lemma_add_region_wf(
    m0: AddressSpaceModel,
    ml: AddressSpaceModel,
    m1: AddressSpaceModel,
    newr: RegionModel,
    a_start: u64,
    a_len: u64,
    phys_base: u64,
    pages: u64,
    num_order: nat,
)
    requires
        as_wf(m0),
        as_core_wf(ml),
        ml.regions == m0.regions,
        m1.tables == ml.tables,
        m1.children == ml.children,
        m1.table_addrs == ml.table_addrs,
        m1.regions == m0.regions.push(newr),
        newr.start == a_start,
        newr.len == a_len,
        newr.backing_pages == pages,
        newr.backing_order == num_order,
        newr.content == zero_bytes(a_len as nat),
        forall|va: u64| #[trigger] spec_resolve(m1, va) == spec_resolve(ml, va),
        forall|va: u64|
            (va < a_start || va >= a_start + a_len) ==> #[trigger] spec_resolve(ml, va)
                == spec_resolve(m0, va),
        forall|va: u64|
            a_start <= va < a_start + a_len ==> #[trigger] spec_resolve(ml, va) == Some(
                (phys_base + (va - a_start)) as u64,
            ),
        region_check(m0, a_start, a_len),
        a_start % PAGE_SIZE == 0,
        a_len % PAGE_SIZE == 0,
        PAGE_SIZE <= a_start,
        PAGE_SIZE <= a_len,
        a_start + a_len <= USER_HALF_LIMIT,
        pages % PAGE_SIZE == 0,
        PHYS_MEM_OFFSET <= pages,
        phys_base == pages - PHYS_MEM_OFFSET,
        pages + block_size(num_order) <= PHYS_MEM_OFFSET + PHYS_SPAN_LIMIT,
        a_len <= block_size(num_order),
        num_order <= MAX_ORDER,
        num_order == log2_ceil_spec((a_len / PAGE_SIZE) as nat),
        forall|j: int|
            0 <= j < ml.table_addrs.len() ==> intervals_disjoint(
                #[trigger] table_block(ml, j),
                block_size(0),
                pages,
                block_size(num_order),
            ),
        forall|i: int|
            0 <= i < ml.regions.len() ==> intervals_disjoint(
                (#[trigger] ml.regions[i]).backing_pages,
                block_size(ml.regions[i].backing_order),
                pages,
                block_size(num_order),
            ),
    ensures
        as_wf(m1),
{
    let n = m0.regions.len() as int;
    assert(m1.regions[n] == newr);
    assert(region_wf(newr));
    assert(tables_wf(m1));
    assert(root_kernel_half_clear(m1));
    assert(children_wf(m1));
    assert(children_injective(m1));
    assert(no_root_child(m1));
    assert(regions_wf(m1)) by {
        assert forall|i: int| 0 <= i < m1.regions.len() implies region_wf(
            #[trigger] m1.regions[i],
        ) by {
            if i < n {
                assert(m1.regions[i] == m0.regions[i]);
            }
        }
        assert forall|i1: int, i2: int|
            0 <= i1 < m1.regions.len() && 0 <= i2 < m1.regions.len() && i1 != i2 implies ((
        #[trigger] m1.regions[i1]).start + m1.regions[i1].len <= (
        #[trigger] m1.regions[i2]).start || m1.regions[i2].start + m1.regions[i2].len
            <= m1.regions[i1].start) by {
            if i1 < n && i2 < n {
                assert(m1.regions[i1] == m0.regions[i1]);
                assert(m1.regions[i2] == m0.regions[i2]);
            } else if i1 == n {
                assert(m1.regions[i2] == m0.regions[i2]);
            } else {
                assert(m1.regions[i1] == m0.regions[i1]);
            }
        }
    }
    assert(owned_disjoint(m1)) by {
        assert forall|j1: int, j2: int|
            0 <= j1 < j2 < m1.table_addrs.len() implies intervals_disjoint(
            table_block(m1, j1),
            block_size(0),
            table_block(m1, j2),
            block_size(0),
        ) by {
            assert(table_block(m1, j1) == table_block(ml, j1));
            assert(table_block(m1, j2) == table_block(ml, j2));
        }
        assert forall|j: int, i2: int|
            0 <= j < m1.table_addrs.len() && 0 <= i2 < m1.regions.len()
            implies intervals_disjoint(
            #[trigger] table_block(m1, j),
            block_size(0),
            (#[trigger] m1.regions[i2]).backing_pages,
            block_size(m1.regions[i2].backing_order),
        ) by {
            assert(table_block(m1, j) == table_block(ml, j));
            if i2 < n {
                assert(m1.regions[i2] == ml.regions[i2]);
            } else {
                assert(m1.regions[i2] == newr);
            }
        }
        assert forall|i1: int, i2: int|
            0 <= i1 < m1.regions.len() && 0 <= i2 < m1.regions.len() && i1 != i2
            implies intervals_disjoint(
            (#[trigger] m1.regions[i1]).backing_pages,
            block_size(m1.regions[i1].backing_order),
            (#[trigger] m1.regions[i2]).backing_pages,
            block_size(m1.regions[i2].backing_order),
        ) by {
            if i1 < n && i2 < n {
                assert(m1.regions[i1] == ml.regions[i1]);
                assert(m1.regions[i2] == ml.regions[i2]);
            } else if i1 == n {
                assert(m1.regions[i2] == ml.regions[i2]);
            } else {
                assert(m1.regions[i1] == ml.regions[i1]);
            }
        }
    }
    assert(mapping_wf(m1)) by {
        assert forall|i: int|
            0 <= i < m1.regions.len() implies m1.regions[i].len as int / PAGE_SIZE as int
            * PAGE_SIZE == m1.regions[i].len by {
            vstd::arithmetic::div_mod::lemma_fundamental_div_mod(
                m1.regions[i].len as int,
                PAGE_SIZE as int,
            );
            vstd::arithmetic::mul::lemma_mul_is_commutative(
                m1.regions[i].len as int / PAGE_SIZE as int,
                PAGE_SIZE as int,
            );
        }
        assert forall|i: int, k: int|
            0 <= i < m1.regions.len() && 0 <= k < m1.regions[i].len / PAGE_SIZE
            implies #[trigger] spec_resolve(m1, (m1.regions[i].start + k * PAGE_SIZE) as u64)
            == Some(
            ((m1.regions[i].backing_pages - PHYS_MEM_OFFSET) + k * PAGE_SIZE) as u64,
        ) by {
            assert(0 <= k * PAGE_SIZE < m1.regions[i].len) by (nonlinear_arith)
                requires
                    0 <= k < m1.regions[i].len / PAGE_SIZE,
                    m1.regions[i].len % PAGE_SIZE == 0,
                    m1.regions[i].len >= PAGE_SIZE,
                    PAGE_SIZE > 0,
                    m1.regions[i].len as int / PAGE_SIZE as int * PAGE_SIZE
                        == m1.regions[i].len,
            ;
            if i < n {
                assert(m1.regions[i] == m0.regions[i]);
                let va = (m0.regions[i].start + k * PAGE_SIZE) as u64;
                assert(va < a_start || va >= a_start + a_len) by {
                    assert(a_start + a_len <= m0.regions[i].start || m0.regions[i].start
                        + m0.regions[i].len <= a_start);
                }
                assert(spec_resolve(m1, va) == spec_resolve(ml, va));
                assert(spec_resolve(ml, va) == spec_resolve(m0, va));
            } else {
                assert(m1.regions[i] == newr);
                let va = (a_start + k * PAGE_SIZE) as u64;
                assert(a_start <= va < a_start + a_len);
                assert(spec_resolve(ml, va) == Some((phys_base + (va - a_start)) as u64));
            }
        }
    }
    assert(unmapped_wf(m1)) by {
        assert forall|va: u64|
            va % PAGE_SIZE == 0 && (#[trigger] spec_resolve(m1, va)).is_some()
            implies exists|i: int|
                0 <= i < m1.regions.len() && region_covers(#[trigger] m1.regions[i], va) by {
            if a_start <= va < a_start + a_len {
                assert(m1.regions[n] == newr);
                assert(region_covers(m1.regions[n], va));
            } else {
                assert(spec_resolve(m1, va) == spec_resolve(m0, va));
                let w = choose|w: int|
                    0 <= w < m0.regions.len() && region_covers(m0.regions[w], va);
                assert(m1.regions[w] == m0.regions[w]);
                assert(region_covers(m1.regions[w], va));
            }
        }
    }
}

/// Allocating a block leaves every recorded block outstanding.
pub proof fn lemma_blocks_outstanding_transfer(
    m: AddressSpaceModel,
    b0: BuddyModel,
    b1: BuddyModel,
    block: u64,
    order: nat,
)
    requires
        blocks_outstanding(m, b0),
        buddy_wf(b0),
        order <= MAX_ORDER,
        spec_alloc(b0, order) == Some((block, b1)),
        forall|i: int|
            0 <= i < m.regions.len() ==> (#[trigger] m.regions[i]).backing_order <= MAX_ORDER,
    ensures
        blocks_outstanding(m, b1),
        forall|j: int|
            0 <= j < m.table_addrs.len() ==> intervals_disjoint(
                #[trigger] table_block(m, j),
                block_size(0),
                block,
                block_size(order),
            ),
        forall|i: int|
            0 <= i < m.regions.len() ==> intervals_disjoint(
                (#[trigger] m.regions[i]).backing_pages,
                block_size(m.regions[i].backing_order),
                block,
                block_size(order),
            ),
{
    crate::buddy::lemma_spec_alloc(b0, order);
    assert forall|j: int| 0 <= j < m.table_addrs.len() implies free_block_ok(
        b1,
        #[trigger] table_block(m, j),
        0,
    ) && intervals_disjoint(table_block(m, j), block_size(0), block, block_size(order)) by {
        assert(free_block_ok(b0, table_block(m, j), 0));
    }
    assert forall|i: int| 0 <= i < m.regions.len() implies free_block_ok(
        b1,
        (#[trigger] m.regions[i]).backing_pages,
        m.regions[i].backing_order,
    ) && intervals_disjoint(
        m.regions[i].backing_pages,
        block_size(m.regions[i].backing_order),
        block,
        block_size(order),
    ) by {
        assert(free_block_ok(b0, m.regions[i].backing_pages, m.regions[i].backing_order));
    }
}


/// The model after the most recent region's leading bytes are replaced by
/// an image window: file bytes first, the zero fill untouched beyond them.
pub open spec fn spec_load_written(
    m1: AddressSpaceModel,
    s: Seq<u8>,
    foff: int,
    filesz: int,
) -> AddressSpaceModel {
    let n = m1.regions.len() - 1;
    let reg = m1.regions[n];
    AddressSpaceModel {
        regions: m1.regions.update(
            n,
            RegionModel { content: loaded_bytes(s, foff, filesz, reg.len as nat), ..reg },
        ),
        ..m1
    }
}

/// Processing the program header with index `i`: an unreadable header
/// fails; a non-loadable segment changes nothing; a loadable one must pass
/// the bounds and size checks, gets its region, and has its file bytes
/// written to the region's start.
pub open spec fn spec_load_segment(
    m: AddressSpaceModel,
    b: BuddyModel,
    s: Seq<u8>,
    i: int,
) -> (bool, AddressSpaceModel, BuddyModel) {
    let off = program_header_offset(s, i);
    if !(i < le_u16(s, 56) && off + crate::elf_structure::ELF_PROGRAM_HEADER_SIZE <= s.len()) {
        (false, m, b)
    } else if le_u32(s, off) != crate::elf_structure::ELF_PROGRAM_HEADER_TYPE_LOAD {
        (true, m, b)
    } else {
        let vaddr = le_u64(s, off + 16);
        let foff = le_u64(s, off + 8);
        let filesz = le_u64(s, off + 32);
        let memsz = le_u64(s, off + 40);
        let writable = le_u32(s, off + 4) & 0x2 != 0;
        let executable = le_u32(s, off + 4) & 0x1 != 0;
        if !(foff + filesz <= s.len() && filesz <= memsz && 1 <= memsz
            && memsz <= SIZE_OF_MAX_ORDER) {
            (false, m, b)
        } else {
            let stepped = spec_add_virt_region(m, b, vaddr, memsz, writable, executable);
            if stepped.0.is_none() {
                (false, stepped.1, stepped.2)
            } else {
                (true, spec_load_written(stepped.1, s, foff as int, filesz as int), stepped.2)
            }
        }
    }
}

/// Processing the first `n` program headers in order; a failed segment
/// stops the walk, leaving the segments before it mapped (no rollback).
pub open spec fn spec_map_elf(
    m: AddressSpaceModel,
    b: BuddyModel,
    s: Seq<u8>,
    n: int,
) -> (bool, AddressSpaceModel, BuddyModel)
    decreases n,
{
    if n <= 0 {
        (true, m, b)
    } else {
        let prev = spec_map_elf(m, b, s, n - 1);
        if !prev.0 {
            prev
        } else {
            spec_load_segment(prev.1, prev.2, s, n - 1)
        }
    }
}

/// Once a segment fails, the walk stays stuck at the failed state.
pub proof fn lemma_map_elf_stuck(
    m: AddressSpaceModel,
    b: BuddyModel,
    s: Seq<u8>,
    k: int,
    n: int,
)
    requires
        0 <= k <= n,
        !spec_map_elf(m, b, s, k).0,
    ensures
        spec_map_elf(m, b, s, n) == spec_map_elf(m, b, s, k),
    decreases n - k,
{
    if k < n {
        lemma_map_elf_stuck(m, b, s, k, n - 1);
    }
}

/// The bytes a loaded segment's backing memory ends up holding: the
/// segment's file bytes, then zeros to the end of the page-aligned region.
pub open spec fn loaded_bytes(buf: Seq<u8>, off: int, filesz: int, n: nat) -> Seq<u8> {
    Seq::new(
        n,
        |j: int|
            if j < filesz {
                buf[off + j]
            } else {
                0u8
            },
    )
}

/// The region's bytes come from the image: some window of the buffer,
/// then zeros.
pub open spec fn region_is_loaded_from(reg: RegionModel, buf: Seq<u8>) -> bool {
    exists|off: int, filesz: int|
        0 <= off && 0 <= filesz <= reg.len && off + filesz <= buf.len() && reg.content
            == loaded_bytes(buf, off, filesz, reg.len as nat)
}

impl AddressSpace {
    /// Overwrite the leading bytes of the most recent region's backing
    /// memory with the image bytes at `src_off`.
    fn write_region_prefix(&mut self, parser: &ElfParser, src_off: u64, count: u64)
        requires
            as_wf(old(self)@),
            old(self)@.regions.len() >= 1,
            src_off + count <= parser.buf_spec().len(),
            count <= old(self)@.regions[old(self)@.regions.len() - 1].len,
        ensures
            as_wf(final(self)@),
            ({
                let n = old(self)@.regions.len() - 1;
                let old_r = old(self)@.regions[n];
                &&& final(self)@.tables == old(self)@.tables
                &&& final(self)@.children == old(self)@.children
                &&& final(self)@.table_addrs == old(self)@.table_addrs
                &&& final(self)@.regions.len() == old(self)@.regions.len()
                &&& forall|i: int| 0 <= i < n ==> final(self)@.regions[i] == old(self)@.regions[i]
                &&& final(self)@.regions[n] == RegionModel {
                    content: Seq::new(
                        old_r.content.len(),
                        |j: int|
                            if j < count {
                                parser.buf_spec()[src_off + j]
                            } else {
                                old_r.content[j]
                            },
                    ),
                    ..old_r
                }
            }),
            forall|va: u64| #[trigger]
                spec_resolve(final(self)@, va) == spec_resolve(old(self)@, va),
            forall|b: BuddyModel| #[trigger]
                blocks_outstanding(old(self)@, b) ==> blocks_outstanding(final(self)@, b),
    {
        let ghost m0 = self@;
        let n = self.virt_regions.len() - 1;
        let buf = parser.get_buf();
        let buf_len = buf.len();
        proof {
            assert(m0.regions[n as int] == self.virt_regions@[n as int]@);
            assert(region_wf(m0.regions[n as int]));
        }
        proof {
            crate::buddy::lemma_block_size_max(m0.regions[n as int].backing_order);
        }
        let mut j: u64 = 0;
        while j < count
            invariant
                as_wf(m0),
                m0 == old(self)@,
                n as int == m0.regions.len() - 1,
                self.virt_regions@.len() == m0.regions.len(),
                buf@ == parser.buf_spec(),
                buf_len == buf@.len(),
                src_off + count <= parser.buf_spec().len(),
                count <= m0.regions[n as int].len,
                m0.regions[n as int].content.len() == m0.regions[n as int].len,
                m0.regions[n as int].len <= SIZE_OF_MAX_ORDER,
                j <= count,
                self@.tables == m0.tables,
                self@.children == m0.children,
                self@.table_addrs == m0.table_addrs,
                forall|i: int| 0 <= i < n ==> self@.regions[i] == m0.regions[i],
                self@.regions[n as int].start == m0.regions[n as int].start,
                self@.regions[n as int].len == m0.regions[n as int].len,
                self@.regions[n as int].writable == m0.regions[n as int].writable,
                self@.regions[n as int].executable == m0.regions[n as int].executable,
                self@.regions[n as int].backing_pages == m0.regions[n as int].backing_pages,
                self@.regions[n as int].backing_order == m0.regions[n as int].backing_order,
                self@.regions[n as int].content.len() == m0.regions[n as int].content.len(),
                forall|i: int|
                    0 <= i < j ==> self@.regions[n as int].content[i] == parser.buf_spec()[
                        src_off + i],
                forall|i: int|
                    j <= i < m0.regions[n as int].content.len()
                        ==> self@.regions[n as int].content[i] == m0.regions[n as int].content[i],
            decreases count - j,
        {
            let byte = buf[(src_off + j) as usize];
            proof {
                assert(self@.regions[n as int] == self.virt_regions@[n as int]@);
                assert(self@.regions[n as int].content.len()
                    == m0.regions[n as int].content.len());
            }
            let region = &mut self.virt_regions[n];
            let slot = &mut region.content[j as usize];
            *slot = byte;
            j = j + 1;
        }
        proof {
            let m1 = self@;
            let old_r = m0.regions[n as int];
            assert(m1.regions[n as int] =~~= RegionModel {
                content: Seq::new(
                    old_r.content.len(),
                    |i: int|
                        if i < count {
                            parser.buf_spec()[src_off + i]
                        } else {
                            old_r.content[i]
                        },
                ),
                ..old_r
            });
            assert forall|va: u64| #[trigger] spec_resolve(m1, va) == spec_resolve(m0, va) by {}
            assert(as_wf(m1)) by {
                lemma_wf_content_only(m0, m1);
            }
            assert forall|b: BuddyModel| #[trigger] blocks_outstanding(m0, b)
                implies blocks_outstanding(m1, b) by {
                assert forall|jx: int| 0 <= jx < m1.table_addrs.len() implies free_block_ok(
                    b,
                    #[trigger] table_block(m1, jx),
                    0,
                ) by {
                    assert(table_block(m1, jx) == table_block(m0, jx));
                }
                assert forall|i: int| 0 <= i < m1.regions.len() implies free_block_ok(
                    b,
                    (#[trigger] m1.regions[i]).backing_pages,
                    m1.regions[i].backing_order,
                ) by {
                    if i < n {
                        assert(m1.regions[i] == m0.regions[i]);
                    }
                }
            }
        }
    }

    /// Map every loadable segment of the image: validate its file
    /// offset/size against the buffer and its in-memory size, create a
    /// zero-filled backing region, and copy exactly the on-disk bytes to
    /// the region's start — the remainder stays zero.
    #[verifier::rlimit(100)]
    pub fn map_elf_segments(&mut self, buddy: &mut BuddyAllocator, parser: &ElfParser) -> (r:
        Result<(), ()>)
        requires
            as_wf(old(self)@),
            buddy_wf(old(buddy)@),
            blocks_outstanding(old(self)@, old(buddy)@),
            parser.wf(),
        ensures
            buddy_wf(final(buddy)@),
            as_core_wf(final(self)@),
            blocks_outstanding(final(self)@, final(buddy)@),
            ({
                let stepped = spec_map_elf(
                    old(self)@,
                    old(buddy)@,
                    parser.buf_spec(),
                    le_u16(parser.buf_spec(), 56) as int,
                );
                &&& final(self)@ == stepped.1
                &&& final(buddy)@ == stepped.2
                &&& r.is_ok() == stepped.0
            }),
            forall|x: u64, xo: nat|
                xo <= MAX_ORDER && #[trigger] free_block_ok(old(buddy)@, x, xo)
                    ==> free_block_ok(final(buddy)@, x, xo),
            forall|i: int|
                256 <= i < 512 ==> final(self)@.tables[0][i] == old(self)@.tables[0][i],
            r.is_ok() ==> as_wf(final(self)@),
            r.is_ok() ==> old(self)@.regions.len() <= final(self)@.regions.len(),
            r.is_ok() ==> forall|i: int|
                0 <= i < old(self)@.regions.len() ==> final(self)@.regions[i] == old(
                    self,
                )@.regions[i],
            r.is_ok() ==> forall|i: int|
                old(self)@.regions.len() <= i < final(self)@.regions.len()
                    ==> region_is_loaded_from(#[trigger] final(self)@.regions[i], parser.buf_spec()),
    {
        let ghost m_start = self@;
        let ghost b_start = buddy@;
        let header_phnum = parser.get_header().e_phnum;
        let mut i: usize = 0;
        let ghost base_len = self@.regions.len();
        while i < header_phnum as usize
            invariant
                parser.wf(),
                as_wf(self@),
                buddy_wf(buddy@),
                blocks_outstanding(self@, buddy@),
                m_start == old(self)@,
                b_start == old(buddy)@,
                header_phnum == le_u16(parser.buf_spec(), 56),
                ({
                    let st = spec_map_elf(m_start, b_start, parser.buf_spec(), i as int);
                    st.0 && st.1 == self@ && st.2 == buddy@
                }),
                forall|x: u64, xo: nat|
                    xo <= MAX_ORDER && #[trigger] free_block_ok(b_start, x, xo)
                        ==> free_block_ok(buddy@, x, xo),
                forall|i: int| 256 <= i < 512 ==> self@.tables[0][i] == m_start.tables[0][i],
                base_len == m_start.regions.len(),
                base_len <= self@.regions.len(),
                forall|k: int| 0 <= k < base_len ==> self@.regions[k] == m_start.regions[k],
                forall|k: int|
                    base_len <= k < self@.regions.len() ==> region_is_loaded_from(
                        #[trigger] self@.regions[k],
                        parser.buf_spec(),
                    ),
            decreases header_phnum as int - i,
        {
            let ghost s = parser.buf_spec();
            let ph = match parser.get_program_header(i) {
                Err(()) => {
                    proof {
                        assert(spec_load_segment(self@, buddy@, s, i as int) == (
                        false,
                        self@,
                        buddy@,
                        ));
                        assert(spec_map_elf(m_start, b_start, s, i as int + 1) == (
                        false,
                        self@,
                        buddy@,
                        ));
                        lemma_map_elf_stuck(m_start, b_start, s, i as int + 1, header_phnum as int);
                    }
                    return Err(());
                },
                Ok(p) => p,
            };
            if ph.p_type == crate::elf_structure::ELF_PROGRAM_HEADER_TYPE_LOAD {
                let mem_size = ph.p_memsz;
                let file_size = ph.p_filesz;
                let vaddr = ph.p_vaddr;
                let offset = ph.p_offset;
                let writable = (ph.p_flags & 0x2) != 0;
                let executable = (ph.p_flags & 0x1) != 0;
                proof {
                    assert(offset == le_u64(s, program_header_offset(s, i as int) + 8));
                }
                let checks_ok = match add_within_bounds(
                    offset,
                    file_size,
                    parser.get_buf().len() as u64,
                ) {
                    Some(_) => file_size <= mem_size && 1 <= mem_size && mem_size
                        <= SIZE_OF_MAX_ORDER,
                    None => false,
                };
                if !checks_ok {
                    proof {
                        assert(spec_load_segment(self@, buddy@, s, i as int) == (
                        false,
                        self@,
                        buddy@,
                        ));
                        assert(spec_map_elf(m_start, b_start, s, i as int + 1) == (
                        false,
                        self@,
                        buddy@,
                        ));
                        lemma_map_elf_stuck(m_start, b_start, s, i as int + 1, header_phnum as int);
                    }
                    return Err(());
                }
                let ghost m_before = self@;
                let ghost b_before = buddy@;
                match self.add_virt_region(buddy, vaddr, mem_size, writable, executable) {
                    Err(()) => {
                        proof {
                            assert(spec_add_virt_region(
                                m_before,
                                b_before,
                                vaddr,
                                mem_size,
                                writable,
                                executable,
                            ).0.is_none());
                            assert(spec_load_segment(m_before, b_before, s, i as int) == (
                            false,
                            self@,
                            buddy@,
                            ));
                            assert(spec_map_elf(m_start, b_start, s, i as int + 1) == (
                            false,
                            self@,
                            buddy@,
                            ));
                            lemma_map_elf_stuck(
                                m_start,
                                b_start,
                                s,
                                i as int + 1,
                                header_phnum as int,
                            );
                        }
                        return Err(());
                    },
                    Ok(_) => {},
                }
                proof {
                    let nr = self@.regions.len() - 1;
                    assert(self@.regions[nr] == m_before.regions.push(
                        self@.regions[nr],
                    )[nr]);
                    assert(self@.regions[nr].len >= mem_size);
                    assert(self@.regions[nr].content == zero_bytes(
                        self@.regions[nr].len as nat,
                    ));
                }
                proof {
                    let nr0 = self@.regions.len() - 1;
                    assert(self@.regions[nr0].len >= mem_size) by {
                        assert(self@.regions[nr0].len == page_align_up(mem_size));
                    }
                }
                self.write_region_prefix(parser, offset, file_size);
                proof {
                    let nr = self@.regions.len() - 1;
                    let reg = self@.regions[nr];
                    assert(reg.len >= mem_size >= file_size);
                    assert(reg.content =~= loaded_bytes(
                        parser.buf_spec(),
                        offset as int,
                        file_size as int,
                        reg.len as nat,
                    ));
                    assert forall|k: int|
                        base_len <= k < self@.regions.len() implies region_is_loaded_from(
                        #[trigger] self@.regions[k],
                        parser.buf_spec(),
                    ) by {
                        if k < nr {
                            assert(self@.regions[k] == m_before.regions[k]);
                            assert(region_is_loaded_from(
                                m_before.regions[k],
                                parser.buf_spec(),
                            ));
                        } else {
                            let off0 = offset as int;
                            let fs0 = file_size as int;
                            assert(0 <= off0 && 0 <= fs0 <= self@.regions[k].len && off0 + fs0
                                <= parser.buf_spec().len() && self@.regions[k].content
                                == loaded_bytes(
                                parser.buf_spec(),
                                off0,
                                fs0,
                                self@.regions[k].len as nat,
                            ));
                            assert(region_is_loaded_from(self@.regions[k], parser.buf_spec()));
                        }
                    }
                    // this iteration is exactly one segment-processing step
                    let ghost m_add = spec_add_virt_region(
                        m_before,
                        b_before,
                        vaddr,
                        mem_size,
                        writable,
                        executable,
                    ).1;
                    assert(self@ =~~= spec_load_written(
                        m_add,
                        s,
                        offset as int,
                        file_size as int,
                    ));
                    assert(spec_load_segment(m_before, b_before, s, i as int) == (
                    true,
                    self@,
                    buddy@,
                    ));
                    assert(spec_map_elf(m_start, b_start, s, i as int + 1) == (
                    true,
                    self@,
                    buddy@,
                    ));
                }
            } else {
                proof {
                    assert(spec_load_segment(self@, buddy@, s, i as int) == (
                    true,
                    self@,
                    buddy@,
                    ));
                    assert(spec_map_elf(m_start, b_start, s, i as int + 1) == (
                    true,
                    self@,
                    buddy@,
                    ));
                }
            }
            i = i + 1;
        }
        Ok(())
    }
}

/// Changing only region contents (not their placement or backing) keeps
/// the whole invariant: no resolution or interval depends on the bytes.
proof fn lemma_wf_content_only(m0: AddressSpaceModel, m1: AddressSpaceModel)
    requires
        as_wf(m0),
        m1.tables == m0.tables,
        m1.children == m0.children,
        m1.table_addrs == m0.table_addrs,
        m1.regions.len() == m0.regions.len(),
        forall|i: int|
            0 <= i < m0.regions.len() ==> ({
                let r0 = #[trigger] m0.regions[i];
                let r1 = #[trigger] m1.regions[i];
                r1.start == r0.start && r1.len == r0.len && r1.writable == r0.writable
                    && r1.executable == r0.executable && r1.backing_pages == r0.backing_pages
                    && r1.backing_order == r0.backing_order && r1.content.len()
                    == r0.content.len()
            }),
    ensures
        as_wf(m1),
{
    assert forall|va: u64| #[trigger] spec_resolve(m1, va) == spec_resolve(m0, va) by {}
    assert(tables_wf(m1));
    assert(root_kernel_half_clear(m1));
    assert(children_wf(m1));
    assert(children_injective(m1));
    assert(no_root_child(m1));
    assert(regions_wf(m1)) by {
        assert forall|i: int| 0 <= i < m1.regions.len() implies region_wf(
            #[trigger] m1.regions[i],
        ) by {
            assert(region_wf(m0.regions[i]));
        }
        assert forall|i1: int, i2: int|
            0 <= i1 < m1.regions.len() && 0 <= i2 < m1.regions.len() && i1 != i2 implies ((
        #[trigger] m1.regions[i1]).start + m1.regions[i1].len <= (
        #[trigger] m1.regions[i2]).start || m1.regions[i2].start + m1.regions[i2].len
            <= m1.regions[i1].start) by {
            assert(m0.regions[i1].start + m0.regions[i1].len <= m0.regions[i2].start
                || m0.regions[i2].start + m0.regions[i2].len <= m0.regions[i1].start);
        }
    }
    assert(mapping_wf(m1)) by {
        assert forall|i: int, k: int|
            0 <= i < m1.regions.len() && 0 <= k < m1.regions[i].len / PAGE_SIZE
            implies #[trigger] spec_resolve(m1, (m1.regions[i].start + k * PAGE_SIZE) as u64)
            == Some(
            ((m1.regions[i].backing_pages - PHYS_MEM_OFFSET) + k * PAGE_SIZE) as u64,
        ) by {
            assert(spec_resolve(m0, (m0.regions[i].start + k * PAGE_SIZE) as u64) == Some(
                ((m0.regions[i].backing_pages - PHYS_MEM_OFFSET) + k * PAGE_SIZE) as u64,
            ));
        }
    }
    assert(unmapped_wf(m1)) by {
        assert forall|va: u64|
            va % PAGE_SIZE == 0 && (#[trigger] spec_resolve(m1, va)).is_some()
            implies exists|i: int|
                0 <= i < m1.regions.len() && region_covers(#[trigger] m1.regions[i], va) by {
            assert(spec_resolve(m0, va).is_some());
            let w = choose|w: int| 0 <= w < m0.regions.len() && region_covers(m0.regions[w], va);
            assert(region_covers(m1.regions[w], va));
        }
    }
    assert(owned_disjoint(m1)) by {
        assert forall|j1: int, j2: int|
            0 <= j1 < j2 < m1.table_addrs.len() implies intervals_disjoint(
            table_block(m1, j1),
            block_size(0),
            table_block(m1, j2),
            block_size(0),
        ) by {
            assert(table_block(m1, j1) == table_block(m0, j1));
            assert(table_block(m1, j2) == table_block(m0, j2));
        }
        assert forall|j: int, i2: int|
            0 <= j < m1.table_addrs.len() && 0 <= i2 < m1.regions.len()
            implies intervals_disjoint(
            #[trigger] table_block(m1, j),
            block_size(0),
            (#[trigger] m1.regions[i2]).backing_pages,
            block_size(m1.regions[i2].backing_order),
        ) by {
            assert(table_block(m1, j) == table_block(m0, j));
            assert(intervals_disjoint(
                table_block(m0, j),
                block_size(0),
                m0.regions[i2].backing_pages,
                block_size(m0.regions[i2].backing_order),
            ));
        }
        assert forall|i1: int, i2: int|
            0 <= i1 < m1.regions.len() && 0 <= i2 < m1.regions.len() && i1 != i2
            implies intervals_disjoint(
            (#[trigger] m1.regions[i1]).backing_pages,
            block_size(m1.regions[i1].backing_order),
            (#[trigger] m1.regions[i2]).backing_pages,
            block_size(m1.regions[i2].backing_order),
        ) by {
            assert(intervals_disjoint(
                m0.regions[i1].backing_pages,
                block_size(m0.regions[i1].backing_order),
                m0.regions[i2].backing_pages,
                block_size(m0.regions[i2].backing_order),
            ));
        }
    }
}

/// Block-preservation across two growth steps composes.
proof fn lemma_fbo_tables_compose(
    m0: AddressSpaceModel,
    ma: AddressSpaceModel,
    mb: AddressSpaceModel,
    b0: BuddyModel,
    ba: BuddyModel,
    bb: BuddyModel,
)
    requires
        m0.tables.len() <= ma.tables.len() <= mb.tables.len(),
        ma.table_addrs.len() == ma.tables.len(),
        mb.table_addrs.len() == mb.tables.len(),
        forall|j: int| 0 <= j < ma.table_addrs.len() ==> mb.table_addrs[j] == ma.table_addrs[j],
        forall|x: u64, xo: nat|
            xo <= MAX_ORDER && #[trigger] free_block_ok(b0, x, xo) ==> free_block_ok(ba, x, xo)
                && (forall|j: int|
                m0.tables.len() <= j < ma.tables.len() ==> intervals_disjoint(
                    x,
                    block_size(xo),
                    #[trigger] table_block(ma, j),
                    block_size(0),
                )),
        forall|x: u64, xo: nat|
            xo <= MAX_ORDER && #[trigger] free_block_ok(ba, x, xo) ==> free_block_ok(bb, x, xo)
                && (forall|j: int|
                ma.tables.len() <= j < mb.tables.len() ==> intervals_disjoint(
                    x,
                    block_size(xo),
                    #[trigger] table_block(mb, j),
                    block_size(0),
                )),
    ensures
        forall|x: u64, xo: nat|
            xo <= MAX_ORDER && #[trigger] free_block_ok(b0, x, xo) ==> free_block_ok(bb, x, xo)
                && (forall|j: int|
                m0.tables.len() <= j < mb.tables.len() ==> intervals_disjoint(
                    x,
                    block_size(xo),
                    #[trigger] table_block(mb, j),
                    block_size(0),
                )),
{
    assert forall|x: u64, xo: nat|
        xo <= MAX_ORDER && #[trigger] free_block_ok(b0, x, xo) implies free_block_ok(bb, x, xo)
        && (forall|j: int|
        m0.tables.len() <= j < mb.tables.len() ==> intervals_disjoint(
            x,
            block_size(xo),
            #[trigger] table_block(mb, j),
            block_size(0),
        )) by {
        assert(free_block_ok(ba, x, xo));
        assert forall|j: int| m0.tables.len() <= j < mb.tables.len() implies intervals_disjoint(
            x,
            block_size(xo),
            #[trigger] table_block(mb, j),
            block_size(0),
        ) by {
            if j < ma.tables.len() {
                assert(table_block(mb, j) == table_block(ma, j));
                assert(intervals_disjoint(
                    x,
                    block_size(xo),
                    table_block(ma, j),
                    block_size(0),
                ));
            }
        }
    }
}

/// Owned-block disjointness depends only on the address book and regions.
proof fn lemma_owned_disjoint_same(m0: AddressSpaceModel, m1: AddressSpaceModel)
    requires
        owned_disjoint(m0),
        m1.table_addrs == m0.table_addrs,
        m1.regions == m0.regions,
    ensures
        owned_disjoint(m1),
{
    assert forall|j1: int, j2: int|
        0 <= j1 < j2 < m1.table_addrs.len() implies intervals_disjoint(
        table_block(m1, j1),
        block_size(0),
        table_block(m1, j2),
        block_size(0),
    ) by {
        assert(table_block(m1, j1) == table_block(m0, j1));
        assert(table_block(m1, j2) == table_block(m0, j2));
    }
    assert forall|j: int, i2: int|
        0 <= j < m1.table_addrs.len() && 0 <= i2 < m1.regions.len() implies intervals_disjoint(
        #[trigger] table_block(m1, j),
        block_size(0),
        (#[trigger] m1.regions[i2]).backing_pages,
        block_size(m1.regions[i2].backing_order),
    ) by {
        assert(table_block(m1, j) == table_block(m0, j));
        assert(m1.regions[i2] == m0.regions[i2]);
    }
    assert forall|i1: int, i2: int|
        0 <= i1 < m1.regions.len() && 0 <= i2 < m1.regions.len() && i1 != i2
        implies intervals_disjoint(
        (#[trigger] m1.regions[i1]).backing_pages,
        block_size(m1.regions[i1].backing_order),
        (#[trigger] m1.regions[i2]).backing_pages,
        block_size(m1.regions[i2].backing_order),
    ) by {
        assert(m1.regions[i1] == m0.regions[i1]);
        assert(m1.regions[i2] == m0.regions[i2]);
    }
}

/// Outstanding-block bookkeeping depends only on the address book and
/// regions.
proof fn lemma_blocks_outstanding_same(m0: AddressSpaceModel, m1: AddressSpaceModel, b: BuddyModel)
    requires
        blocks_outstanding(m0, b),
        m1.table_addrs == m0.table_addrs,
        m1.regions == m0.regions,
    ensures
        blocks_outstanding(m1, b),
{
    assert forall|j: int| 0 <= j < m1.table_addrs.len() implies free_block_ok(
        b,
        #[trigger] table_block(m1, j),
        0,
    ) by {
        assert(table_block(m1, j) == table_block(m0, j));
    }
    assert forall|i: int| 0 <= i < m1.regions.len() implies free_block_ok(
        b,
        (#[trigger] m1.regions[i]).backing_pages,
        m1.regions[i].backing_order,
    ) by {
        assert(m1.regions[i] == m0.regions[i]);
    }
}

// ---- laws ----

/// Resolution of a mapped address: anywhere inside a region, the walk
/// returns the region's physical base plus the address's offset from the
/// region's start.
pub proof fn lemma_resolve_mapped(m: AddressSpaceModel, i: int, va: u64)
    requires
        as_wf(m),
        0 <= i < m.regions.len(),
        region_covers(m.regions[i], va),
    ensures
        spec_resolve(m, va) == Some(
            ((m.regions[i].backing_pages - PHYS_MEM_OFFSET) + (va - m.regions[i].start)) as u64,
        ),
{
    let r = m.regions[i];
    assert(region_wf(r));
    let p = PAGE_SIZE as int;
    let d = va - r.start;
    vstd::arithmetic::div_mod::lemma_fundamental_div_mod(d, p);
    let k = d / p;
    let off = d % p;
    vstd::arithmetic::div_mod::lemma_div_pos_is_pos(d, p);
    assert(k < r.len as int / p) by {
        vstd::arithmetic::div_mod::lemma_fundamental_div_mod(r.len as int, p);
        vstd::arithmetic::mul::lemma_mul_is_commutative(r.len as int / p, p);
        vstd::arithmetic::div_mod::lemma_multiply_divide_lt(d, p, r.len as int / p);
        vstd::arithmetic::mul::lemma_mul_is_commutative(p, r.len as int / p);
    }
    assert(spec_resolve(m, (r.start + k * p) as u64) == Some(
        ((r.backing_pages - PHYS_MEM_OFFSET) + k * p) as u64,
    ));
    let page = (r.start + k * p) as u64;
    assert(page % PAGE_SIZE == 0) by {
        vstd::arithmetic::div_mod::lemma_mod_multiples_basic(k, p);
        lemma_page_sum_aligned(r.start, (k * p) as u64);
    }
    assert(page + off <= u64::MAX && va == page + off);
    lemma_va_in_page(page, off as u64);
    assert(page < USER_HALF_LIMIT && va < USER_HALF_LIMIT);
    assert(va_offset(page) == 0) by {
        let pg = page;
        assert((pg % 4096 == 0) ==> (pg & 0xfff == 0)) by (bit_vector);
    }
    match m.children[0][va_index(page, 3) as int] {
        None => {},
        Some(t3) => {
            match m.children[t3 as int][va_index(page, 2) as int] {
                None => {},
                Some(t2) => {
                    match m.children[t2 as int][va_index(page, 1) as int] {
                        None => {},
                        Some(t1) => {
                            let e = m.tables[t1 as int][va_index(page, 0) as int];
                            assert(entry_present(e));
                            assert(entry_addr(e) + va_offset(page) == (r.backing_pages
                                - PHYS_MEM_OFFSET) + k * p);
                            assert(spec_resolve(m, va) == Some(
                                (entry_addr(e) + off) as u64,
                            ));
                        },
                    }
                },
            }
        },
    }
}

/// Resolution of an unmapped address: when no region covers it, the walk
/// finds nothing.
pub proof fn lemma_resolve_unmapped(m: AddressSpaceModel, va: u64)
    requires
        as_wf(m),
        forall|i: int| 0 <= i < m.regions.len() ==> !region_covers(#[trigger] m.regions[i], va),
    ensures
        spec_resolve(m, va).is_none(),
{
    if spec_resolve(m, va).is_some() {
        assert(va < USER_HALF_LIMIT);
        let p = PAGE_SIZE as int;
        let page = (va - (va as int) % p) as u64;
        assert(page % PAGE_SIZE == 0) by {
            vstd::arithmetic::div_mod::lemma_fundamental_div_mod(va as int, p);
            vstd::arithmetic::mul::lemma_mul_is_commutative(va as int / p, p);
            vstd::arithmetic::div_mod::lemma_mod_multiples_basic(va as int / p, p);
        }
        let off = ((va as int) % p) as u64;
        lemma_va_in_page(page, off);
        assert(spec_resolve(m, page).is_some()) by {
            match m.children[0][va_index(va, 3) as int] {
                None => {},
                Some(t3) => {
                    match m.children[t3 as int][va_index(va, 2) as int] {
                        None => {},
                        Some(t2) => {
                            match m.children[t2 as int][va_index(va, 1) as int] {
                                None => {},
                                Some(t1) => {},
                            }
                        },
                    }
                },
            }
        }
        let w = choose|w: int| 0 <= w < m.regions.len() && region_covers(m.regions[w], page);
        assert(region_wf(m.regions[w]));
        assert(page + PAGE_SIZE <= m.regions[w].start + m.regions[w].len) by {
            lemma_page_sum_aligned(m.regions[w].start, m.regions[w].len);
            lemma_page_multiples_gap(
                page,
                (m.regions[w].start + m.regions[w].len) as u64,
            );
        }
        assert(region_covers(m.regions[w], va));
        assert(false);
    }
}

/// The buddy state after releasing the first `j` of a space's table pages.
pub open spec fn spec_release_tables(b0: BuddyModel, m: AddressSpaceModel, j: int) -> BuddyModel
    decreases j,
{
    if j <= 0 {
        b0
    } else {
        spec_free(spec_release_tables(b0, m, j - 1), table_block(m, j - 1), 0)
    }
}

/// ... and then the first `i` of its region backings.
pub open spec fn spec_release_regions(b: BuddyModel, m: AddressSpaceModel, i: int) -> BuddyModel
    decreases i,
{
    if i <= 0 {
        b
    } else {
        spec_free(
            spec_release_regions(b, m, i - 1),
            m.regions[i - 1].backing_pages,
            m.regions[i - 1].backing_order,
        )
    }
}

/// The buddy state after a space has released everything it owns: every
/// table page freed as one page, then every backing block at its recorded
/// order, in recording order.
pub open spec fn spec_release(b0: BuddyModel, m: AddressSpaceModel) -> BuddyModel {
    spec_release_regions(
        spec_release_tables(b0, m, m.table_addrs.len() as int),
        m,
        m.regions.len() as int,
    )
}

impl AddressSpace {
    /// Release every recorded page-table page and every region's backing
    /// block back to the buddy allocator: each block exactly once, tables
    /// first, at its recorded order.  This must happen strictly after the
    /// space is no longer active: the caller guarantees it is not switched
    /// into during or after destruction.
    pub fn release(self, buddy: &mut BuddyAllocator)
        requires
            as_core_wf(self@),
            buddy_wf(old(buddy)@),
            blocks_outstanding(self@, old(buddy)@),
        ensures
            buddy_wf(final(buddy)@),
            final(buddy)@ == spec_release(old(buddy)@, self@),
    {
        let ghost m = self@;
        let ghost b0 = buddy@;
        let AddressSpace { tables, table_addrs, children, virt_regions } = self;
        let mut j: usize = 0;
        while j < table_addrs.len()
            invariant
                as_core_wf(m),
                buddy@ == spec_release_tables(b0, m, j as int),
                table_addrs@ == m.table_addrs,
                virt_regions@.len() == m.regions.len(),
                forall|i: int| 0 <= i < m.regions.len() ==> virt_regions@[i]@ == m.regions[i],
                j <= m.table_addrs.len(),
                buddy_wf(buddy@),
                forall|i: int|
                    j <= i < m.table_addrs.len() ==> free_block_ok(
                        buddy@,
                        #[trigger] table_block(m, i),
                        0,
                    ),
                forall|i: int|
                    0 <= i < m.regions.len() ==> free_block_ok(
                        buddy@,
                        (#[trigger] m.regions[i]).backing_pages,
                        m.regions[i].backing_order,
                    ),
            decreases m.table_addrs.len() - j,
        {
            let ghost bpre = buddy@;
            let addr = table_addrs[j];
            proof {
                assert(m.table_addrs[j as int] % PAGE_SIZE == 0 && m.table_addrs[j as int]
                    < PHYS_SPAN_LIMIT);
                assert(free_block_ok(buddy@, table_block(m, j as int), 0));
                assert(addr + PHYS_MEM_OFFSET == table_block(m, j as int));
            }
            buddy.free_pages_order(addr + PHYS_MEM_OFFSET, 0);
            proof {
                crate::buddy::lemma_spec_free(bpre, table_block(m, j as int), 0);
                assert forall|i: int| j + 1 <= i < m.table_addrs.len() implies free_block_ok(
                    buddy@,
                    #[trigger] table_block(m, i),
                    0,
                ) by {
                    assert(intervals_disjoint(
                        table_block(m, j as int),
                        block_size(0),
                        table_block(m, i),
                        block_size(0),
                    ));
                }
                assert forall|i: int| 0 <= i < m.regions.len() implies free_block_ok(
                    buddy@,
                    (#[trigger] m.regions[i]).backing_pages,
                    m.regions[i].backing_order,
                ) by {
                    assert(intervals_disjoint(
                        table_block(m, j as int),
                        block_size(0),
                        m.regions[i].backing_pages,
                        block_size(m.regions[i].backing_order),
                    ));
                }
            }
            j = j + 1;
        }
        let ghost bt = spec_release_tables(b0, m, m.table_addrs.len() as int);
        let mut i: usize = 0;
        let mut regions = virt_regions;
        while i < regions.len()
            invariant
                as_core_wf(m),
                buddy@ == spec_release_regions(bt, m, i as int),
                regions@.len() == m.regions.len(),
                forall|k: int| 0 <= k < m.regions.len() ==> regions@[k]@ == m.regions[k],
                i <= m.regions.len(),
                buddy_wf(buddy@),
                forall|k: int|
                    i <= k < m.regions.len() ==> free_block_ok(
                        buddy@,
                        (#[trigger] m.regions[k]).backing_pages,
                        m.regions[k].backing_order,
                    ),
            decreases m.regions.len() - i,
        {
            let ghost bpre = buddy@;
            let region = &regions[i];
            proof {
                assert(regions@[i as int]@ == m.regions[i as int]);
                assert(region_wf(m.regions[i as int]));
            }
            let backing = region.backing_pages;
            let order = region.backing_order;
            buddy.free_pages_order(backing, order);
            proof {
                crate::buddy::lemma_spec_free(
                    bpre,
                    m.regions[i as int].backing_pages,
                    m.regions[i as int].backing_order,
                );
                assert forall|k: int| i + 1 <= k < m.regions.len() implies free_block_ok(
                    buddy@,
                    (#[trigger] m.regions[k]).backing_pages,
                    m.regions[k].backing_order,
                ) by {
                    assert(intervals_disjoint(
                        m.regions[k].backing_pages,
                        block_size(m.regions[k].backing_order),
                        m.regions[i as int].backing_pages,
                        block_size(m.regions[i as int].backing_order),
                    ));
                }
            }
            i = i + 1;
        }
    }
}

/// A row of 512 empty child slots.
fn none_row() -> (r: Vec<Option<usize>>)
    ensures
        r@.len() == 512,
        forall|i: int| 0 <= i < 512 ==> r@[i].is_none(),
{
    let mut row: Vec<Option<usize>> = Vec::new();
    let mut i: usize = 0;
    while i < 512
        invariant
            row@.len() == i,
            i <= 512,
            forall|j: int| 0 <= j < i ==> row@[j].is_none(),
        decreases 512 - i,
    {
        row.push(None);
        i = i + 1;
    }
    row
}

/// The difference of two page-aligned addresses is page-aligned.
proof fn lemma_aligned_diff(a: u64, b: u64)
    requires
        a % PAGE_SIZE == 0,
        b % PAGE_SIZE == 0,
        b <= a,
    ensures
        (a - b) % (PAGE_SIZE as int) == 0,
{
    let p = PAGE_SIZE as int;
    vstd::arithmetic::div_mod::lemma_fundamental_div_mod(a as int, p);
    vstd::arithmetic::div_mod::lemma_fundamental_div_mod(b as int, p);
    assert(a - b == (a as int / p - b as int / p) * p) by (nonlinear_arith)
        requires
            a as int == p * (a as int / p),
            b as int == p * (b as int / p),
    ;
    vstd::arithmetic::div_mod::lemma_mod_multiples_basic(a as int / p - b as int / p, p);
}

/// Attaching one fresh, empty table under a previously empty slot of a
/// shallow parent changes no resolution: walks that used the slot found
/// nothing before and find an empty table now.
proof fn lemma_resolve_preserved_attach(
    m0: AddressSpaceModel,
    m1: AddressSpaceModel,
    t: int,
    slot: int,
    kk: usize,
)
    requires
        as_core_wf(m0),
        0 <= t < m0.tables.len(),
        0 <= slot < 512,
        t == 0 ==> slot < 256,
        table_shallow(m0, t),
        m0.children[t][slot].is_none(),
        kk == m0.tables.len(),
        m1.children.len() == kk + 1,
        m1.tables.len() == kk + 1,
        forall|j: int|
            0 <= j < kk && j != t ==> m1.children[j] == m0.children[j] && m1.tables[j]
                == m0.tables[j],
        forall|i: int|
            0 <= i < 512 && i != slot ==> m1.children[t][i] == m0.children[t][i]
                && m1.tables[t][i] == m0.tables[t][i],
        m1.children[t][slot] == Some(kk),
        m1.children[t].len() == 512,
        m1.tables[t].len() == 512,
        forall|i: int| 0 <= i < 512 ==> (#[trigger] m1.children[kk as int][i]).is_none(),
        forall|i: int| 0 <= i < 512 ==> !entry_present(#[trigger] m1.tables[kk as int][i]),
    ensures
        forall|va: u64| #[trigger] spec_resolve(m1, va) == spec_resolve(m0, va),
{
    assert forall|va: u64| #[trigger] spec_resolve(m1, va) == spec_resolve(m0, va) by {
        if va < USER_HALF_LIMIT {
            lemma_va_user_half(va);
            lemma_va_index_bounds(va, 3);
            lemma_va_index_bounds(va, 2);
            lemma_va_index_bounds(va, 1);
            lemma_va_index_bounds(va, 0);
            let i4 = va_index(va, 3) as int;
            let i3 = va_index(va, 2) as int;
            let i2 = va_index(va, 1) as int;
            let i1 = va_index(va, 0) as int;
            if t == 0 && slot == i4 {
                assert(spec_resolve(m0, va).is_none());
                assert(m1.children[0][i4] == Some(kk));
                assert(m1.children[kk as int][i3].is_none());
                assert(spec_resolve(m1, va).is_none());
            } else {
                assert(m1.children[0][i4] == m0.children[0][i4]);
                match m0.children[0][i4] {
                    None => {},
                    Some(t3) => {
                        let t3i = t3 as int;
                        assert(t3i != 0 && 0 < t3i < kk);
                        if t3i == t && i3 == slot {
                            assert(spec_resolve(m0, va).is_none());
                            assert(m1.children[t3i][i3] == Some(kk));
                            assert(m1.children[kk as int][i2].is_none());
                            assert(spec_resolve(m1, va).is_none());
                        } else {
                            assert(m1.children[t3i][i3] == m0.children[t3i][i3]);
                            match m0.children[t3i][i3] {
                                None => {},
                                Some(t2) => {
                                    let t2i = t2 as int;
                                    assert(t2i != 0 && 0 < t2i < kk);
                                    if t2i == t && i2 == slot {
                                        assert(spec_resolve(m0, va).is_none());
                                        assert(m1.children[t2i][i2] == Some(kk));
                                        assert(!entry_present(m1.tables[kk as int][i1]));
                                        assert(spec_resolve(m1, va).is_none());
                                    } else {
                                        assert(m1.children[t2i][i2] == m0.children[t2i][i2]);
                                        match m0.children[t2i][i2] {
                                            None => {},
                                            Some(t1) => {
                                                let t1i = t1 as int;
                                                assert(t1i != 0 && 0 < t1i < kk);
                                                // the parent being filled is never a
                                                // walk's leaf table
                                                assert(t1i != t) by {
                                                    if t1i == t {
                                                        if t == 0 {
                                                        } else if exists|w: int|
                                                            0 <= w < 512 && m0.children[0][w]
                                                                == Some(t as usize) {
                                                            let w = choose|w: int|
                                                                0 <= w < 512 && m0.children[0][w]
                                                                    == Some(t as usize);
                                                            assert(m0.children[t2i][i2] == Some(
                                                                t as usize,
                                                            ));
                                                            assert(t2i == 0);
                                                        } else {
                                                            let (w4, w3) = choose|w4: int, w3: int|
                                                                #![trigger m0.children[m0.children[0][w4].unwrap() as int][w3]]
                                                                0 <= w4 < 512 && 0 <= w3 < 512
                                                                    && m0.children[0][w4].is_some()
                                                                    && m0.children[m0.children[0][w4].unwrap() as int][w3]
                                                                    == Some(t as usize);
                                                            let s3 = m0.children[0][w4].unwrap()
                                                                as int;
                                                            assert(m0.children[s3][w3] == Some(
                                                                t as usize,
                                                            ));
                                                            assert(m0.children[t2i][i2] == Some(
                                                                t as usize,
                                                            ));
                                                            assert(s3 == t2i && w3 == i2);
                                                            assert(m0.children[0][w4] == Some(
                                                                t2 as usize,
                                                            ));
                                                            assert(m0.children[t3i][i3] == Some(
                                                                t2 as usize,
                                                            ));
                                                            assert(t3i == 0);
                                                        }
                                                    }
                                                }
                                                assert(m1.tables[t1i][i1] == m0.tables[t1i][i1]);
                                            },
                                        }
                                    }
                                },
                            }
                        }
                    },
                }
            }
        }
    }
}

/// Installing a leaf entry for one page maps exactly that page and leaves
/// every other address's resolution unchanged.
proof fn lemma_resolve_after_leaf_install(
    m0: AddressSpaceModel,
    m1: AddressSpaceModel,
    page: u64,
    pa: u64,
    e: u64,
)
    requires
        as_core_wf(m0),
        page % PAGE_SIZE == 0,
        page < USER_HALF_LIMIT,
        ({
            let i4 = va_index(page, 3) as int;
            let i3 = va_index(page, 2) as int;
            let i2 = va_index(page, 1) as int;
            let i1 = va_index(page, 0) as int;
            &&& m0.children[0][i4].is_some()
            &&& m0.children[m0.children[0][i4].unwrap() as int][i3].is_some()
            &&& ({
                let t3 = m0.children[0][i4].unwrap() as int;
                let t2 = m0.children[t3][i3].unwrap() as int;
                &&& m0.children[t2][i2].is_some()
                &&& ({
                    let t1 = m0.children[t2][i2].unwrap() as int;
                    &&& m1.tables.len() == m0.tables.len()
                    &&& m1.children == m0.children
                    &&& m1.table_addrs == m0.table_addrs
                    &&& forall|j: int, i: int|
                        0 <= j < m0.tables.len() && 0 <= i < 512 && (j != t1 || i != i1)
                            ==> m1.tables[j][i] == m0.tables[j][i]
                    &&& forall|j: int|
                        0 <= j < m1.tables.len() ==> (#[trigger] m1.tables[j]).len() == 512
                    &&& m1.tables[t1][i1] == e
                })
            })
        }),
        entry_present(e),
        entry_addr(e) == pa,
    ensures
        forall|va: u64|
            (va < page || va >= page + PAGE_SIZE) ==> #[trigger] spec_resolve(m1, va)
                == spec_resolve(m0, va),
        forall|va: u64|
            page <= va < page + PAGE_SIZE ==> #[trigger] spec_resolve(m1, va) == Some(
                (pa + (va - page)) as u64,
            ),
{
    let i4 = va_index(page, 3) as int;
    let i3 = va_index(page, 2) as int;
    let i2 = va_index(page, 1) as int;
    let i1 = va_index(page, 0) as int;
    let t3 = m0.children[0][i4].unwrap() as int;
    let t2 = m0.children[t3][i3].unwrap() as int;
    let t1 = m0.children[t2][i2].unwrap() as int;
    lemma_va_index_bounds(page, 3);
    lemma_va_index_bounds(page, 2);
    lemma_va_index_bounds(page, 1);
    lemma_va_index_bounds(page, 0);
    assert(m0.children[0][i4].is_some() && m0.children[t3][i3].is_some() && m0.children[t2][i2].is_some());
    assert(0 < t3 < m0.tables.len() && 0 < t2 < m0.tables.len() && 0 < t1 < m0.tables.len());
    assert forall|va: u64| page <= va < page + PAGE_SIZE implies #[trigger] spec_resolve(m1, va)
        == Some((pa + (va - page)) as u64) by {
        lemma_va_in_page(page, (va - page) as u64);
        assert(va < USER_HALF_LIMIT);
        assert(va_offset(va) == va - page);
        assert(spec_resolve(m1, va) == Some((entry_addr(e) + va_offset(va)) as u64));
    }
    assert forall|va: u64| (va < page || va >= page + PAGE_SIZE) implies #[trigger] spec_resolve(
        m1,
        va,
    ) == spec_resolve(m0, va) by {
        if va < USER_HALF_LIMIT {
            lemma_va_user_half(va);
            lemma_va_index_bounds(va, 3);
            lemma_va_index_bounds(va, 2);
            lemma_va_index_bounds(va, 1);
            lemma_va_index_bounds(va, 0);
            let j4 = va_index(va, 3) as int;
            let j3 = va_index(va, 2) as int;
            let j2 = va_index(va, 1) as int;
            let j1 = va_index(va, 0) as int;
            match m0.children[0][j4] {
                None => {},
                Some(s3) => {
                    let s3i = s3 as int;
                    assert(s3i != 0 && 0 < s3i < m0.tables.len());
                    match m0.children[s3i][j3] {
                        None => {},
                        Some(s2) => {
                            let s2i = s2 as int;
                            assert(s2i != 0 && 0 < s2i < m0.tables.len());
                            match m0.children[s2i][j2] {
                                None => {},
                                Some(s1) => {
                                    let s1i = s1 as int;
                                    assert(s1i != 0 && 0 < s1i < m0.tables.len());
                                    if s1i == t1 && j1 == i1 {
                                        // same leaf cell: the walks share every
                                        // index, so `va` lies in the page
                                        assert(m0.children[s2i][j2].is_some());
                                        assert(m0.children[t2][i2].is_some());
                                        assert(m0.children[s2i][j2].unwrap() == m0.children[t2][i2].unwrap());
                                        assert(s2i == t2 && j2 == i2) by {
                                            if s2i != t2 || j2 != i2 {
                                                assert(m0.children[s2i][j2].unwrap() != m0.children[t2][i2].unwrap());
                                            }
                                        }
                                        assert(m0.children[s3i][j3].is_some());
                                        assert(m0.children[t3][i3].is_some());
                                        assert(m0.children[s3i][j3].unwrap() == m0.children[t3][i3].unwrap());
                                        assert(s3i == t3 && j3 == i3) by {
                                            if s3i != t3 || j3 != i3 {
                                                assert(m0.children[s3i][j3].unwrap() != m0.children[t3][i3].unwrap());
                                            }
                                        }
                                        assert(m0.children[0][j4].is_some());
                                        assert(m0.children[0][i4].is_some());
                                        assert(m0.children[0][j4].unwrap() == m0.children[0][i4].unwrap());
                                        assert(j4 == i4) by {
                                            if j4 != i4 {
                                                assert(m0.children[0][j4].unwrap() != m0.children[0][i4].unwrap());
                                            }
                                        }
                                        assert(va_index(va, 3) == va_index(page, 3)
                                            && va_index(va, 2) == va_index(page, 2) && va_index(
                                            va,
                                            1,
                                        ) == va_index(page, 1) && va_index(va, 0) == va_index(
                                            page,
                                            0,
                                        ));
                                        lemma_same_indices_same_page(va, page);
                                        assert(false);
                                    } else {
                                        assert(m1.tables[s1i][j1] == m0.tables[s1i][j1]);
                                    }
                                },
                            }
                        },
                    }
                },
            }
        }
    }
}

/// Two low-half addresses with the same four indices lie in the same page.
proof fn lemma_same_indices_same_page(va: u64, page: u64)
    requires
        va < 0x800000000000,
        page < 0x800000000000,
        page % 4096 == 0,
        va_index(va, 3) == va_index(page, 3),
        va_index(va, 2) == va_index(page, 2),
        va_index(va, 1) == va_index(page, 1),
        va_index(va, 0) == va_index(page, 0),
    ensures
        page <= va < page + 4096,
{
    assert((va < 0x800000000000 && page < 0x800000000000 && page % 4096 == 0 && ((va >> 39)
        & 0x1ff) == ((page >> 39) & 0x1ff) && ((va >> 30) & 0x1ff) == ((page >> 30) & 0x1ff) && ((
    va >> 21) & 0x1ff) == ((page >> 21) & 0x1ff) && ((va >> 12) & 0x1ff) == ((page >> 12)
        & 0x1ff)) ==> (page <= va && va < page + 4096)) by (bit_vector);
}

/// Rewriting only the root's kernel-half entries changes no resolution:
/// the user-half walk reads the root's low slots and other tables only.
proof fn lemma_resolve_same_after_root_kernel_write(m0: AddressSpaceModel, m1: AddressSpaceModel)
    requires
        as_wf(m0),
        m1.children == m0.children,
        m1.regions == m0.regions,
        m1.table_addrs == m0.table_addrs,
        m1.tables.len() == m0.tables.len(),
        forall|p: int| 0 <= p < 256 ==> m1.tables[0][p] == m0.tables[0][p],
        forall|j: int| 1 <= j < m0.tables.len() ==> m1.tables[j] == m0.tables[j],
    ensures
        forall|va: u64| #[trigger] spec_resolve(m1, va) == spec_resolve(m0, va),
{
    assert forall|va: u64| #[trigger] spec_resolve(m1, va) == spec_resolve(m0, va) by {
        if va < USER_HALF_LIMIT {
            lemma_va_user_half(va);
            lemma_va_index_bounds(va, 3);
            lemma_va_index_bounds(va, 2);
            lemma_va_index_bounds(va, 1);
            lemma_va_index_bounds(va, 0);
            match m0.children[0][va_index(va, 3) as int] {
                None => {},
                Some(t3) => {
                    assert(t3 != 0);
                    match m0.children[t3 as int][va_index(va, 2) as int] {
                        None => {},
                        Some(t2) => {
                            assert(t2 != 0);
                            match m0.children[t2 as int][va_index(va, 1) as int] {
                                None => {},
                                Some(t1) => {
                                    assert(t1 != 0);
                                    assert(m1.tables[t1 as int] == m0.tables[t1 as int]);
                                },
                            }
                        },
                    }
                },
            }
        }
    }
}

} // verus!
