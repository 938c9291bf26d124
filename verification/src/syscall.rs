//! The fast-syscall mechanism's configuration and handler decision.
//!
//! The trampoline itself is privilege-transition glue outside this core;
//! its whole contract toward the scheduler is one shared kernel-stack
//! pointer, refreshed on every switch (see the scheduler's `CpuState`).
//! This module computes the model-specific register values the setup
//! writes, and the handler's decision.

use vstd::prelude::*;

verus! {

/// Values written to the fast-syscall machine registers at setup: the
/// syscall/return segment-selector bases and the flag mask that disables
/// interrupts and clears the direction flag on entry.
pub struct SyscallMsrSettings {
    pub efer_syscall_enable_bit: u64,
    pub star: u64,
    pub fmask: u64,
}

/// Compute the fast-syscall setup values: kernel selectors at 0x8/0x10 for
/// entry, the user pair reached from 0x10 for return, and a flag mask
/// clearing interrupts and direction.
pub fn init() -> (r: SyscallMsrSettings)
    ensures
        r.efer_syscall_enable_bit == 1,
        r.star == (0x8u64 << 32) | (0x10u64 << 48),
        r.fmask == 0x300,
{
    SyscallMsrSettings {
        efer_syscall_enable_bit: 1,
        star: (0x8u64 << 32) | (0x10u64 << 48),
        fmask: 0x300,
    }
}

/// The register-carried arguments of one syscall.
pub struct SyscallArgs {
    pub num: u64,
    pub arg1: u64,
    pub arg2: u64,
    pub arg3: u64,
    pub arg4: u64,
    pub arg5: u64,
    pub arg6: u64,
}

/// The handler's decision: every syscall currently returns zero; what it
/// reports is output-device work outside this core.
pub fn syscall_handler(args: &SyscallArgs) -> (r: u64)
    ensures
        r == 0,
{
    0
}

} // verus!
