//! Fixed layout constants of the kernel's address-space design.
//!
//! Addresses and lengths are carried as `u64` throughout: the kernel targets
//! x86-64, where the native word has exactly this width.

use vstd::prelude::*;

verus! {

/// Base address where physical memory is mapped (direct mapping).
pub const PHYS_MEM_OFFSET: u64 = 0xffff800000000000;

/// Upper limit of the userspace address space.
pub const USERSPACE_LIMIT: u64 = 0xffff800000000000;

/// Base address where the kernel is loaded.
pub const KERNEL_OFFSET: u64 = 0xffffffff80000000;

pub const PAGE_SIZE: u64 = 4096;

} // verus!
