//! The fixed-layout trap frame shared with the trap-return instruction.
//!
//! The hardware pops instruction pointer, code selector, flags, stack
//! pointer and stack selector, in that order; a task's first dispatch
//! synthesizes exactly this record on its kernel stack.

use vstd::prelude::*;

verus! {

#[derive(Clone, Copy, PartialEq, Eq, Structural)]
pub struct InterruptStackFrame {
    pub ip: u64,
    pub cs: u64,
    pub flags: u64,
    pub sp: u64,
    pub ss: u64,
}

/// Bytes the five-field trap frame occupies on a kernel stack.
pub const INTERRUPT_FRAME_SIZE: u64 = 40;

} // verus!
