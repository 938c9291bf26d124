use kernel_core::address_space::AddressSpace;
use kernel_core::buddy::BuddyAllocator;
use kernel_core::consts::PHYS_MEM_OFFSET;
use kernel_core::elf_parser::ElfParser;
use kernel_core::gdt::{USER_CODE_SELECTOR, USER_DATA_SELECTOR};
use kernel_core::isr::InterruptStackFrame;
use kernel_core::page_table::PageDirectory;
use kernel_core::sched::{CpuState, Resume, Scheduler};
use kernel_core::task::{
    KernelStack, Task, TaskState, KERNEL_STACK_SIZE, USER_STACK_SIZE, USER_STACK_VADDR,
};

const MIB: u64 = 0x100000;

fn fresh_buddy() -> BuddyAllocator {
    BuddyAllocator::init(PHYS_MEM_OFFSET, 128 * MIB)
}

fn fresh_cpu() -> CpuState {
    CpuState { tss_rsp0: 0, syscall_kernel_stack: 0, page_table_root: 0 }
}

/// A task whose first-dispatch frame records `tag` as its entry point.
fn task_with_tag(buddy: &mut BuddyAllocator, tag: u64) -> Task {
    let addr_space = AddressSpace::new(buddy).unwrap();
    let mut kernel_stack = KernelStack::new(buddy).unwrap();
    kernel_stack.push(InterruptStackFrame {
        ip: tag,
        cs: USER_CODE_SELECTOR as u64,
        flags: 0x202,
        sp: USER_STACK_VADDR + USER_STACK_SIZE,
        ss: USER_DATA_SELECTOR as u64,
    });
    Task { state: TaskState::New, addr_space, kernel_stack }
}

fn entry_of(resume: &Resume) -> u64 {
    match resume {
        Resume::EnterUser(frame) => frame.ip,
        Resume::ResumeKernel(_) => panic!("expected a first dispatch"),
    }
}

#[test]
fn round_robin_visits_tasks_in_order() {
    let mut buddy = fresh_buddy();
    let mut sched = Scheduler::new();
    let mut cpu = fresh_cpu();
    sched.add_new_task(task_with_tag(&mut buddy, 0xa));
    sched.add_new_task(task_with_tag(&mut buddy, 0xb));
    assert_eq!(sched.ready_count(), 2);
    assert!(!sched.has_current());

    // first dispatch: A enters user mode
    let r = sched.begin_scheduler(&mut cpu);
    assert_eq!(entry_of(&r), 0xa);
    assert!(sched.has_current());
    assert_eq!(sched.ready_count(), 1);

    // yield: B runs, A waits; then they alternate forever
    let r = sched.yield_task(&mut cpu).unwrap();
    assert_eq!(entry_of(&r), 0xb);
    assert_eq!(sched.ready_count(), 1);

    // both have run once: later dispatches resume saved kernel state,
    // alternating A, B, A, B with exactly one task current each time
    for _ in 0..3 {
        let r = sched.yield_task(&mut cpu).unwrap();
        assert!(matches!(r, Resume::ResumeKernel(_)));
        assert!(sched.has_current());
        assert_eq!(sched.ready_count(), 1);
    }
}

#[test]
fn yield_with_empty_queue_continues_current() {
    let mut buddy = fresh_buddy();
    let mut sched = Scheduler::new();
    let mut cpu = fresh_cpu();
    sched.add_new_task(task_with_tag(&mut buddy, 0xa));
    let _ = sched.begin_scheduler(&mut cpu);
    assert!(sched.yield_task(&mut cpu).is_none());
    assert!(sched.has_current());
    assert_eq!(sched.ready_count(), 0);
}

#[test]
fn switch_publishes_kernel_stack_and_address_space() {
    let mut buddy = fresh_buddy();
    let mut sched = Scheduler::new();
    let mut cpu = fresh_cpu();
    let task = task_with_tag(&mut buddy, 0x1000);
    let stack_ptr = task.kernel_stack.ptr;
    let root = task.addr_space.p4_table() - PHYS_MEM_OFFSET;
    let _ = sched.switch_task(task, &mut cpu);
    assert_eq!(cpu.tss_rsp0, stack_ptr + KERNEL_STACK_SIZE);
    assert_eq!(cpu.syscall_kernel_stack, stack_ptr + KERNEL_STACK_SIZE);
    assert_eq!(cpu.page_table_root, root);
}

fn push_u16(v: &mut Vec<u8>, x: u16) {
    v.extend_from_slice(&x.to_le_bytes());
}

fn push_u32(v: &mut Vec<u8>, x: u32) {
    v.extend_from_slice(&x.to_le_bytes());
}

fn push_u64(v: &mut Vec<u8>, x: u64) {
    v.extend_from_slice(&x.to_le_bytes());
}

/// A minimal one-segment executable image.
fn one_segment_image(entry: u64) -> Vec<u8> {
    let mut v: Vec<u8> = Vec::new();
    v.extend_from_slice(&[0x7f, 0x45, 0x4c, 0x46, 2, 1, 1, 0]);
    v.extend_from_slice(&[0u8; 8]);
    push_u16(&mut v, 2);
    push_u16(&mut v, 0x3e);
    push_u32(&mut v, 1);
    push_u64(&mut v, entry);
    push_u64(&mut v, 64);
    push_u64(&mut v, 0);
    push_u32(&mut v, 0);
    push_u16(&mut v, 64);
    push_u16(&mut v, 56);
    push_u16(&mut v, 1);
    push_u16(&mut v, 64);
    push_u16(&mut v, 0);
    push_u16(&mut v, 0);
    push_u32(&mut v, 1); // load segment
    push_u32(&mut v, 0x5);
    push_u64(&mut v, 120);
    push_u64(&mut v, entry);
    push_u64(&mut v, 0);
    push_u64(&mut v, 4);
    push_u64(&mut v, 4);
    push_u64(&mut v, 0x1000);
    v.extend_from_slice(&[0x90, 0x90, 0x90, 0xf4]);
    v
}

#[test]
fn first_dispatch_enters_user_mode_at_the_entry_point() {
    let image = one_segment_image(0x400000);
    let parser = ElfParser::parse(&image).unwrap();
    let mut buddy = fresh_buddy();
    let kernel_table = PageDirectory::new_zeroed();
    let task = Task::create_task_from_elf(&parser, &mut buddy, &kernel_table).unwrap();
    assert!(task.state == TaskState::New);

    let mut sched = Scheduler::new();
    let mut cpu = fresh_cpu();
    sched.add_new_task(task);
    let r = sched.begin_scheduler(&mut cpu);
    match r {
        Resume::EnterUser(frame) => {
            assert_eq!(frame.ip, 0x400000);
            assert_eq!(frame.cs, USER_CODE_SELECTOR as u64);
            assert_eq!(frame.cs & 3, 3, "first dispatch must land in user mode");
            assert_eq!(frame.sp, USER_STACK_VADDR + USER_STACK_SIZE);
            assert_eq!(frame.ss, USER_DATA_SELECTOR as u64);
            assert_eq!(frame.flags, 0x202);
        },
        Resume::ResumeKernel(_) => panic!("a new task must enter user mode"),
    }
}
