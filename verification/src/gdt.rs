//! Descriptor-table records: the task-state segment this core refreshes on
//! every switch, and the fixed segment selectors the descriptor tables
//! supply.

use vstd::prelude::*;

verus! {

pub const KERNEL_CODE_SELECTOR: u16 = 0x08;

pub const KERNEL_DATA_SELECTOR: u16 = 0x10;

pub const USER_DATA_SELECTOR: u16 = 0x18 | 0x03;

pub const USER_CODE_SELECTOR: u16 = 0x20 | 0x03;

/// The task-state segment: the scheduler overwrites `rsp0` on every switch
/// so privilege transitions land on the running task's kernel stack.
pub struct Tss {
    pub rsp0: u64,
    pub rsp1: u64,
    pub rsp2: u64,
    pub ist1: u64,
    pub ist2: u64,
    pub ist3: u64,
    pub ist4: u64,
    pub ist5: u64,
    pub ist6: u64,
    pub ist7: u64,
    pub io_map_base: u16,
}

impl Tss {
    pub fn new_zeroed() -> (r: Tss)
        ensures
            r.rsp0 == 0,
            r.io_map_base == 0,
    {
        Tss {
            rsp0: 0,
            rsp1: 0,
            rsp2: 0,
            ist1: 0,
            ist2: 0,
            ist3: 0,
            ist4: 0,
            ist5: 0,
            ist6: 0,
            ist7: 0,
            io_map_base: 0,
        }
    }
}

} // verus!
