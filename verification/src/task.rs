//! Task management.
//!
//! A task owns exactly one address space and one kernel stack.  A new
//! task's kernel stack holds one synthesized trap frame, so its first
//! dispatch can resume directly in user mode at its entry point; after a
//! cooperative switch-out the stack instead persists the saved kernel
//! stack pointer.

use vstd::prelude::*;

use crate::address_space::{
    AddressSpace, AddressSpaceModel, as_wf, blocks_outstanding, fresh_space, with_kernel_half,
    spec_map_elf, spec_add_virt_region,
};
use crate::buddy::{BuddyAllocator, buddy_wf, free_block_ok, spec_alloc, MAX_ORDER};
use crate::consts::PHYS_MEM_OFFSET;
use crate::elf_parser::{ElfParser, le_u16, le_u64};
use crate::gdt::{USER_CODE_SELECTOR, USER_DATA_SELECTOR};
use crate::isr::{InterruptStackFrame, INTERRUPT_FRAME_SIZE};
use crate::page_table::PageDirectory;

verus! {

pub const USER_STACK_SIZE: u64 = 4 * 4096;

pub const USER_STACK_VADDR: u64 = 0x00007ffffff00000;

pub const KERNEL_STACK_SIZE: u64 = 2 * 4096;

#[derive(Clone, Copy, PartialEq, Eq, Structural)]
pub enum TaskState {
    New,
    Ready,
    Terminated,
}

/// Abstract state of a kernel stack: its base, the persisted stack
/// pointer, and the trap frame at its top, when one is synthesized.
#[verifier::ext_equal]
pub ghost struct KernelStackModel {
    pub ptr: u64,
    pub krsp: u64,
    pub frame: Option<InterruptStackFrame>,
}

/// A task's kernel stack: two pages worth of buddy-backed memory whose
/// model tracks the synthesized trap frame and the persisted stack pointer.
pub struct KernelStack {
    pub ptr: u64,
    pub krsp: u64,
    pub(crate) frame: Option<InterruptStackFrame>,
}

impl View for KernelStack {
    type V = KernelStackModel;

    closed spec fn view(&self) -> KernelStackModel {
        KernelStackModel { ptr: self.ptr, krsp: self.krsp, frame: self.frame }
    }
}

impl KernelStack {
    /// Allocate the stack's pages; the stack pointer starts at the top.
    pub fn new(buddy: &mut BuddyAllocator) -> (r: Result<KernelStack, ()>)
        requires
            buddy_wf(old(buddy)@),
        ensures
            buddy_wf(final(buddy)@),
            forall|x: u64, xo: nat|
                xo <= MAX_ORDER && #[trigger] free_block_ok(old(buddy)@, x, xo)
                    ==> free_block_ok(final(buddy)@, x, xo),
            match r {
                Ok(ks) => {
                    &&& spec_alloc(old(buddy)@, 1) == Some((ks@.ptr, final(buddy)@))
                    &&& ks@.krsp == ks@.ptr + KERNEL_STACK_SIZE
                    &&& ks@.frame.is_none()
                    &&& free_block_ok(final(buddy)@, ks@.ptr, 1)
                    &&& ks@.ptr + KERNEL_STACK_SIZE <= u64::MAX
                },
                Err(()) => spec_alloc(old(buddy)@, 1).is_none() && final(buddy)@ == old(buddy)@,
            },
    {
        let ghost b0 = buddy@;
        let ptr = match buddy.alloc_pages_order(1) {
            None => {
                return Err(());
            },
            Some(p) => p,
        };
        proof {
            crate::buddy::lemma_spec_alloc(b0, 1);
            vstd::arithmetic::power2::lemma2_to64();
        }
        Ok(KernelStack { ptr, krsp: ptr + KERNEL_STACK_SIZE, frame: None })
    }

    /// The address one past the stack's highest byte.
    pub fn top(&self) -> (r: u64)
        requires
            self@.ptr + KERNEL_STACK_SIZE <= u64::MAX,
        ensures
            r == self@.ptr + KERNEL_STACK_SIZE,
    {
        self.ptr + KERNEL_STACK_SIZE
    }

    /// The persisted kernel stack pointer.
    pub fn saved_rsp(&self) -> (r: u64)
        ensures
            r == self@.krsp,
    {
        self.krsp
    }

    /// The trap frame at the persisted stack pointer.
    pub fn peek(&self) -> (r: InterruptStackFrame)
        requires
            self@.frame.is_some(),
        ensures
            r == self@.frame.unwrap(),
    {
        self.frame.unwrap()
    }

    /// Push a synthesized trap frame.
    pub fn push(&mut self, frame: InterruptStackFrame)
        requires
            old(self)@.krsp >= INTERRUPT_FRAME_SIZE,
            old(self)@.frame.is_none(),
        ensures
            final(self)@.ptr == old(self)@.ptr,
            final(self)@.krsp == old(self)@.krsp - INTERRUPT_FRAME_SIZE,
            final(self)@.frame == Some(frame),
    {
        self.krsp = self.krsp - INTERRUPT_FRAME_SIZE;
        self.frame = Some(frame);
    }

    /// Pop the synthesized trap frame, as the trap return consumes it.
    pub fn pop(&mut self) -> (r: InterruptStackFrame)
        requires
            old(self)@.frame.is_some(),
            old(self)@.krsp + INTERRUPT_FRAME_SIZE <= u64::MAX,
        ensures
            r == old(self)@.frame.unwrap(),
            final(self)@.ptr == old(self)@.ptr,
            final(self)@.krsp == old(self)@.krsp + INTERRUPT_FRAME_SIZE,
            final(self)@.frame.is_none(),
    {
        let frame = self.frame.unwrap();
        self.krsp = self.krsp + INTERRUPT_FRAME_SIZE;
        self.frame = None;
        frame
    }
}

/// Abstract state of a task.
#[verifier::ext_equal]
pub ghost struct TaskModel {
    pub state: TaskState,
    pub addr_space: AddressSpaceModel,
    pub kernel_stack: KernelStackModel,
}

/// Represents a task in the OS.
pub struct Task {
    pub state: TaskState,
    pub addr_space: AddressSpace,
    pub kernel_stack: KernelStack,
}

impl View for Task {
    type V = TaskModel;

    open spec fn view(&self) -> TaskModel {
        TaskModel {
            state: self.state,
            addr_space: self.addr_space@,
            kernel_stack: self.kernel_stack@,
        }
    }
}

/// The trap frame a fresh task is born with: its image's entry point, the
/// user-mode selector pair, interrupts enabled, and the stack pointer at
/// the top of the fixed user stack.
pub open spec fn initial_frame(entry: u64) -> InterruptStackFrame {
    InterruptStackFrame {
        ip: entry,
        cs: USER_CODE_SELECTOR as u64,
        flags: 0x202,
        sp: (USER_STACK_VADDR + USER_STACK_SIZE) as u64,
        ss: USER_DATA_SELECTOR as u64,
    }
}

impl Task {
    /// Build a task from a parsed executable image: a fresh address space
    /// with the kernel's shared pages, the image's load segments, a
    /// fixed-size user stack at its fixed address, and a kernel stack
    /// holding the synthesized first-dispatch frame.  The task starts in
    /// the `New` state.
    #[verifier::rlimit(100)]
    pub fn create_task_from_elf(
        parser: &ElfParser,
        buddy: &mut BuddyAllocator,
        kernel_table: &PageDirectory,
    ) -> (r: Result<Task, ()>)
        requires
            buddy_wf(old(buddy)@),
            parser.wf(),
            kernel_table@.len() == 512,
        ensures
            buddy_wf(final(buddy)@),
            forall|x: u64, xo: nat|
                xo <= MAX_ORDER && #[trigger] free_block_ok(old(buddy)@, x, xo)
                    ==> free_block_ok(final(buddy)@, x, xo),
            // the exact chain of steps: a fresh space, the shared kernel
            // half, the image's load segments, the user stack, the kernel
            // stack with its synthesized frame; Err exactly when a step
            // fails, leaving the allocations of the completed steps made
            ({
                let s = parser.buf_spec();
                match spec_alloc(old(buddy)@, 0) {
                    None => r.is_err() && final(buddy)@ == old(buddy)@,
                    Some((root_block, b1)) => {
                        let m2 = with_kernel_half(
                            fresh_space((root_block - PHYS_MEM_OFFSET) as u64),
                            kernel_table@,
                        );
                        let elf = spec_map_elf(m2, b1, s, le_u16(s, 56) as int);
                        if !elf.0 {
                            r.is_err() && final(buddy)@ == elf.2
                        } else {
                            let stack = spec_add_virt_region(
                                elf.1,
                                elf.2,
                                USER_STACK_VADDR,
                                USER_STACK_SIZE,
                                true,
                                false,
                            );
                            if stack.0.is_none() {
                                r.is_err() && final(buddy)@ == stack.2
                            } else {
                                match spec_alloc(stack.2, 1) {
                                    None => r.is_err() && final(buddy)@ == stack.2,
                                    Some((ks_ptr, b4)) => match r {
                                        Err(()) => false,
                                        Ok(t) => {
                                            &&& final(buddy)@ == b4
                                            &&& t@.addr_space == stack.1
                                            &&& t@.kernel_stack == KernelStackModel {
                                                ptr: ks_ptr,
                                                krsp: (ks_ptr + KERNEL_STACK_SIZE
                                                    - INTERRUPT_FRAME_SIZE) as u64,
                                                frame: Some(initial_frame(le_u64(s, 24))),
                                            }
                                        },
                                    },
                                }
                            }
                        }
                    },
                }
            }),
            match r {
                Ok(t) => {
                    &&& t@.state == TaskState::New
                    &&& t@.kernel_stack.frame == Some(
                        initial_frame(le_u64(parser.buf_spec(), 24)),
                    )
                    &&& t@.kernel_stack.krsp == t@.kernel_stack.ptr + KERNEL_STACK_SIZE
                        - INTERRUPT_FRAME_SIZE
                    &&& as_wf(t@.addr_space)
                    &&& blocks_outstanding(t@.addr_space, final(buddy)@)
                    // the kernel half is shared: the root's upper entries
                    // are the kernel table's
                    &&& forall|i: int|
                        256 <= i < 512 ==> t@.addr_space.tables[0][i] == kernel_table@[i]
                    &&& exists|i: int|
                        0 <= i < t@.addr_space.regions.len() && (#[trigger] t@.addr_space.regions[i]).start
                            == USER_STACK_VADDR && t@.addr_space.regions[i].len
                            == USER_STACK_SIZE && t@.addr_space.regions[i].writable
                            && !t@.addr_space.regions[i].executable
                },
                Err(()) => true,
            },
    {
        let ghost b0 = buddy@;
        let mut addr_space = match AddressSpace::new(buddy) {
            Err(()) => {
                return Err(());
            },
            Ok(s) => s,
        };
        proof {
            crate::buddy::lemma_spec_alloc(b0, 0);
        }
        addr_space.map_kernel_pages(kernel_table);
        let ghost m2 = addr_space@;
        let ghost b1 = buddy@;
        match addr_space.map_elf_segments(buddy, parser) {
            Err(()) => {
                return Err(());
            },
            Ok(()) => {},
        }
        let ghost m3 = addr_space@;
        let ghost b3 = buddy@;
        let stack_region = match addr_space.add_virt_region(
            buddy,
            USER_STACK_VADDR,
            USER_STACK_SIZE,
            true,
            false,
        ) {
            Err(()) => {
                return Err(());
            },
            Ok(p) => p,
        };
        proof {
            let m = addr_space@;
            let n = m.regions.len() - 1;
            assert(m.regions[n].start == USER_STACK_VADDR && m.regions[n].len
                == USER_STACK_SIZE && m.regions[n].writable && !m.regions[n].executable);
        }
        let ghost m_as = addr_space@;
        let ghost b_ks = buddy@;
        let mut kernel_stack = match KernelStack::new(buddy) {
            Err(()) => {
                return Err(());
            },
            Ok(ks) => ks,
        };
        proof {
            assert forall|i: int|
                0 <= i < m_as.regions.len() implies (#[trigger] m_as.regions[i]).backing_order
                <= crate::buddy::MAX_ORDER by {
                assert(crate::address_space::region_wf(m_as.regions[i]));
            }
            crate::address_space::lemma_blocks_outstanding_transfer(
                m_as,
                b_ks,
                buddy@,
                kernel_stack@.ptr,
                1,
            );
        }
        let entry = parser.get_header().e_entry;
        kernel_stack.push(
            InterruptStackFrame {
                ip: entry,
                cs: USER_CODE_SELECTOR as u64,
                flags: 0x202,
                sp: USER_STACK_VADDR + USER_STACK_SIZE,
                ss: USER_DATA_SELECTOR as u64,
            },
        );
        proof {
            // the kernel half was copied once and never touched again
            assert forall|i: int| 256 <= i < 512 implies addr_space@.tables[0][i]
                == kernel_table@[i] by {
                assert(m3.tables[0][i] == m2.tables[0][i]);
                assert(m_as.tables[0][i] == m3.tables[0][i]);
            }
            // pending blocks of other owners stay pending across every step
            crate::buddy::lemma_spec_alloc(b_ks, 1);
            assert forall|x: u64, xo: nat|
                xo <= MAX_ORDER && #[trigger] free_block_ok(b0, x, xo) implies free_block_ok(
                buddy@,
                x,
                xo,
            ) by {
                assert(free_block_ok(b1, x, xo));
                assert(free_block_ok(b3, x, xo));
                assert(free_block_ok(b_ks, x, xo));
            }
        }
        Ok(Task { state: TaskState::New, addr_space, kernel_stack })
    }
}

} // verus!
