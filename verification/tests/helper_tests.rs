use kernel_core::boot::{largest_usable_region, MemRegion};
use kernel_core::consts::PHYS_MEM_OFFSET;
use kernel_core::elf_parser::{easy_assert, ElfParser};
use kernel_core::helper::{add_within_bounds, align_down, align_up, log2_ceil, log2_floor, p2v, v2p};
use kernel_core::syscall::{init, syscall_handler, SyscallArgs};

#[test]
fn alignment_arithmetic() {
    assert_eq!(align_down(0x1234, 0x1000), 0x1000);
    assert_eq!(align_down(0x1000, 0x1000), 0x1000);
    assert_eq!(align_up(0x1234, 0x1000), 0x2000);
    assert_eq!(align_up(0x1000, 0x1000), 0x1000);
    assert_eq!(align_up(1, 0x1000), 0x1000);
}

#[test]
fn logarithms() {
    assert_eq!(log2_floor(1), 0);
    assert_eq!(log2_floor(2), 1);
    assert_eq!(log2_floor(3), 1);
    assert_eq!(log2_floor(1024), 10);
    assert_eq!(log2_ceil(1), 0);
    assert_eq!(log2_ceil(2), 1);
    assert_eq!(log2_ceil(3), 2);
    assert_eq!(log2_ceil(1024), 10);
    assert_eq!(log2_ceil(1025), 11);
}

#[test]
fn direct_mapping_round_trip() {
    assert_eq!(p2v(0x1000), PHYS_MEM_OFFSET + 0x1000);
    assert_eq!(v2p(PHYS_MEM_OFFSET + 0x1000), 0x1000);
    assert_eq!(v2p(p2v(0x42000)), 0x42000);
}

#[test]
fn bounded_addition() {
    assert_eq!(add_within_bounds(3, 4, 10), Some(7));
    assert_eq!(add_within_bounds(3, 4, 7), Some(7));
    assert_eq!(add_within_bounds(3, 5, 7), None);
    assert_eq!(add_within_bounds(u64::MAX, 1, u64::MAX), None);
}

#[test]
fn picks_the_largest_usable_region() {
    let regions = vec![
        MemRegion { start: 0x1000, end: 0x2000, usable: true },
        MemRegion { start: 0x10000, end: 0x90000, usable: false },
        MemRegion { start: 0x100000, end: 0x500000, usable: true },
        MemRegion { start: 0x600000, end: 0x700000, usable: true },
    ];
    let best = largest_usable_region(&regions).unwrap();
    assert_eq!(best.start, 0x100000);
    assert_eq!(best.end, 0x500000);

    let none = vec![MemRegion { start: 0, end: 0x1000, usable: false }];
    assert!(largest_usable_region(&none).is_none());
    let empty: Vec<MemRegion> = vec![];
    assert!(largest_usable_region(&empty).is_none());
}

#[test]
fn parser_rejects_malformed_images() {
    // too short
    let short: Vec<u8> = vec![0x7f, 0x45, 0x4c, 0x46];
    assert!(ElfParser::parse(&short).is_err());
    // wrong magic
    let mut bad = vec![0u8; 64];
    bad[0] = 0x7e;
    assert!(ElfParser::parse(&bad).is_err());
    // right magic, 32-bit class
    let mut thirty_two = vec![0u8; 64];
    thirty_two[0] = 0x7f;
    thirty_two[1] = 0x45;
    thirty_two[2] = 0x4c;
    thirty_two[3] = 0x46;
    thirty_two[4] = 1;
    thirty_two[5] = 1;
    thirty_two[6] = 1;
    assert!(ElfParser::parse(&thirty_two).is_err());
}

#[test]
fn parser_reads_header_fields() {
    let mut image = vec![0u8; 64];
    image[0] = 0x7f;
    image[1] = 0x45;
    image[2] = 0x4c;
    image[3] = 0x46;
    image[4] = 2;
    image[5] = 1;
    image[6] = 1;
    image[16] = 2; // executable
    image[18] = 0x3e; // x86-64
    image[24] = 0x78; // entry 0x5678
    image[25] = 0x56;
    let parser = ElfParser::parse(&image).unwrap();
    let header = parser.get_header();
    assert_eq!(header.e_entry, 0x5678);
    assert_eq!(header.e_type, 2);
    assert_eq!(header.e_machine, 0x3e);
    assert_eq!(header.e_phnum, 0);
    // no program headers to fetch
    assert!(parser.get_program_header(0).is_err());
    assert!(parser.get_section_header(0).is_err());
}

#[test]
fn easy_assert_maps_conditions() {
    assert!(easy_assert(true).is_ok());
    assert!(easy_assert(false).is_err());
}

#[test]
fn syscall_setup_values() {
    let settings = init();
    assert_eq!(settings.efer_syscall_enable_bit, 1);
    assert_eq!(settings.star, (0x8u64 << 32) | (0x10u64 << 48));
    assert_eq!(settings.fmask, 0x300);
    let args = SyscallArgs { num: 1, arg1: 2, arg2: 3, arg3: 4, arg4: 5, arg5: 6, arg6: 7 };
    assert_eq!(syscall_handler(&args), 0);
}
