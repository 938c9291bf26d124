//! Resource-management core of a bare-metal x86-64 kernel, modeled as
//! verified state machines: a binary buddy page-frame allocator, a slab
//! allocator layered on it, per-task virtual address spaces built from
//! 4-level page tables, and a cooperative round-robin task scheduler.

pub mod address_space;
pub(crate) mod bitmap;
pub mod boot;
pub mod buddy;
pub mod consts;
pub mod doubly_list_head;
pub mod elf_parser;
pub mod elf_structure;
pub mod gdt;
pub mod helper;
pub mod isr;
pub mod page_table;
pub mod sched;
pub mod singly_list_head;
pub mod slab;
pub mod syscall;
pub mod task;
