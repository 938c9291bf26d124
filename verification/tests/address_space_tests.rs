use kernel_core::address_space::AddressSpace;
use kernel_core::buddy::BuddyAllocator;
use kernel_core::consts::{PHYS_MEM_OFFSET, USERSPACE_LIMIT};
use kernel_core::elf_parser::ElfParser;
use kernel_core::page_table::PageDirectory;

const MIB: u64 = 0x100000;

fn fresh_buddy() -> BuddyAllocator {
    BuddyAllocator::init(PHYS_MEM_OFFSET, 64 * MIB)
}

#[test]
fn rejects_the_zero_page() {
    let mut buddy = fresh_buddy();
    let mut space = AddressSpace::new(&mut buddy).unwrap();
    assert!(space.add_virt_region(&mut buddy, 0, 4096, true, false).is_err());
    // an address inside the zero page aligns down to it
    assert!(space.add_virt_region(&mut buddy, 100, 100, true, false).is_err());
}

#[test]
fn rejects_regions_beyond_the_userspace_ceiling() {
    let mut buddy = fresh_buddy();
    let mut space = AddressSpace::new(&mut buddy).unwrap();
    assert!(
        space.add_virt_region(&mut buddy, USERSPACE_LIMIT - 4096, 8192, true, false).is_err()
    );
    assert!(space.add_virt_region(&mut buddy, u64::MAX - 8191, 4096, true, false).is_err());
}

#[test]
fn rejects_overlap_accepts_adjacent() {
    let mut buddy = fresh_buddy();
    let mut space = AddressSpace::new(&mut buddy).unwrap();
    space.add_virt_region(&mut buddy, 0x400000, 8192, true, false).unwrap();
    // any intersection with the existing region is refused
    assert!(space.add_virt_region(&mut buddy, 0x400000, 4096, true, false).is_err());
    assert!(space.add_virt_region(&mut buddy, 0x401000, 4096, true, false).is_err());
    assert!(space.add_virt_region(&mut buddy, 0x3ff000, 8192, true, false).is_err());
    // half-open ranges: regions touching end-to-start are fine
    space.add_virt_region(&mut buddy, 0x402000, 4096, true, false).unwrap();
    space.add_virt_region(&mut buddy, 0x3ff000, 4096, true, false).unwrap();
}

#[test]
fn resolves_mapped_addresses_to_backing_offsets() {
    let mut buddy = fresh_buddy();
    let mut space = AddressSpace::new(&mut buddy).unwrap();
    let backing = space.add_virt_region(&mut buddy, 0x400000, 3 * 4096, true, false).unwrap();
    let phys_base = backing - PHYS_MEM_OFFSET;
    assert_eq!(space.resolve_virt_addr(0x400000), Some(phys_base));
    assert_eq!(space.resolve_virt_addr(0x401000), Some(phys_base + 4096));
    assert_eq!(space.resolve_virt_addr(0x402fff), Some(phys_base + 3 * 4096 - 1));
    assert_eq!(space.resolve_virt_addr(0x400123), Some(phys_base + 0x123));
}

#[test]
fn unmapped_addresses_stay_unmapped() {
    let mut buddy = fresh_buddy();
    let mut space = AddressSpace::new(&mut buddy).unwrap();
    assert_eq!(space.resolve_virt_addr(0x400000), None);
    space.add_virt_region(&mut buddy, 0x400000, 4096, true, false).unwrap();
    assert_eq!(space.resolve_virt_addr(0x3fffff), None);
    assert_eq!(space.resolve_virt_addr(0x401000), None);
    assert_eq!(space.resolve_virt_addr(0x800000), None);
}

#[test]
fn kernel_pages_are_shared_entries() {
    let mut buddy = fresh_buddy();
    let mut space = AddressSpace::new(&mut buddy).unwrap();
    let mut kernel_table = PageDirectory::new_zeroed();
    kernel_table.set(256, 0x1234);
    kernel_table.set(511, 0x5678);
    space.map_kernel_pages(&kernel_table);
    // sharing entries changes no user-half resolution
    assert_eq!(space.resolve_virt_addr(0x400000), None);
    space.add_virt_region(&mut buddy, 0x400000, 4096, true, false).unwrap();
    assert!(space.resolve_virt_addr(0x400000).is_some());
}

#[test]
fn release_returns_every_block() {
    let mut buddy = fresh_buddy();
    let first = {
        let mut space = AddressSpace::new(&mut buddy).unwrap();
        space.add_virt_region(&mut buddy, 0x400000, 16 * 4096, true, false).unwrap();
        let first = buddy.alloc_pages_order(0).unwrap();
        buddy.free_pages_order(first, 0);
        space.release(&mut buddy);
        first
    };
    // after the space released everything, a fresh space reuses the
    // same pages, starting with the first ever handed out
    let mut space2 = AddressSpace::new(&mut buddy).unwrap();
    let again = space2.add_virt_region(&mut buddy, 0x400000, 4096, true, false);
    assert!(again.is_ok());
    let _ = first;
}

fn push_u16(v: &mut Vec<u8>, x: u16) {
    v.extend_from_slice(&x.to_le_bytes());
}

fn push_u32(v: &mut Vec<u8>, x: u32) {
    v.extend_from_slice(&x.to_le_bytes());
}

fn push_u64(v: &mut Vec<u8>, x: u64) {
    v.extend_from_slice(&x.to_le_bytes());
}

fn push_program_header(
    v: &mut Vec<u8>,
    p_type: u32,
    flags: u32,
    offset: u64,
    vaddr: u64,
    filesz: u64,
    memsz: u64,
) {
    push_u32(v, p_type);
    push_u32(v, flags);
    push_u64(v, offset);
    push_u64(v, vaddr);
    push_u64(v, 0);
    push_u64(v, filesz);
    push_u64(v, memsz);
    push_u64(v, 0x1000);
}

/// A minimal 64-bit little-endian executable image with two load segments.
fn two_segment_image(entry: u64) -> Vec<u8> {
    let mut v: Vec<u8> = Vec::new();
    v.extend_from_slice(&[0x7f, 0x45, 0x4c, 0x46, 2, 1, 1, 0]);
    v.extend_from_slice(&[0u8; 8]);
    push_u16(&mut v, 2); // executable
    push_u16(&mut v, 0x3e); // x86-64
    push_u32(&mut v, 1);
    push_u64(&mut v, entry);
    push_u64(&mut v, 64); // program headers right after this header
    push_u64(&mut v, 0);
    push_u32(&mut v, 0);
    push_u16(&mut v, 64);
    push_u16(&mut v, 56);
    push_u16(&mut v, 2);
    push_u16(&mut v, 64);
    push_u16(&mut v, 0);
    push_u16(&mut v, 0);
    assert_eq!(v.len(), 64);
    push_program_header(&mut v, 1, 0x5, 176, 0x400000, 8, 16);
    push_program_header(&mut v, 1, 0x6, 184, 0x500000, 4, 0x2000);
    assert_eq!(v.len(), 176);
    v.extend_from_slice(&[1, 2, 3, 4, 5, 6, 7, 8]);
    v.extend_from_slice(&[9, 10, 11, 12]);
    v
}

#[test]
fn loading_copies_file_bytes_and_zeroes_the_rest() {
    let image = two_segment_image(0x400000);
    let parser = ElfParser::parse(&image).unwrap();
    let mut buddy = fresh_buddy();
    let mut space = AddressSpace::new(&mut buddy).unwrap();
    space.map_elf_segments(&mut buddy, &parser).unwrap();
    assert_eq!(space.region_count(), 2);
    let first = space.region_at(0);
    assert_eq!(first.start, 0x400000);
    assert_eq!(first.len, 4096);
    assert!(!first.writable);
    assert!(first.executable);
    for j in 0..8usize {
        assert_eq!(first.content_byte(j), (j + 1) as u8);
    }
    for j in 8..4096usize {
        assert_eq!(first.content_byte(j), 0);
    }
    let second = space.region_at(1);
    assert_eq!(second.start, 0x500000);
    assert_eq!(second.len, 0x2000);
    assert!(second.writable);
    assert!(!second.executable);
    for j in 0..4usize {
        assert_eq!(second.content_byte(j), (j + 9) as u8);
    }
    for j in 4..0x2000usize {
        assert_eq!(second.content_byte(j), 0);
    }
    // both segments are mapped
    assert!(space.resolve_virt_addr(0x400000).is_some());
    assert!(space.resolve_virt_addr(0x500000).is_some());
    assert!(space.resolve_virt_addr(0x501000).is_some());
}

#[test]
fn loading_rejects_file_size_beyond_memory_size() {
    let mut image = two_segment_image(0x400000);
    // corrupt the first segment: file size 32 exceeds memory size 16
    image[96] = 32;
    // pad the image so the in-bounds check still passes
    image.extend_from_slice(&[0u8; 64]);
    let parser = ElfParser::parse(&image).unwrap();
    let mut buddy = fresh_buddy();
    let mut space = AddressSpace::new(&mut buddy).unwrap();
    assert!(space.map_elf_segments(&mut buddy, &parser).is_err());
}

#[test]
fn loading_rejects_out_of_bounds_segments() {
    let mut image = two_segment_image(0x400000);
    // corrupt the first segment's file offset to point past the buffer
    image[72] = 0xff;
    image[73] = 0xff;
    let parser = ElfParser::parse(&image).unwrap();
    let mut buddy = fresh_buddy();
    let mut space = AddressSpace::new(&mut buddy).unwrap();
    assert!(space.map_elf_segments(&mut buddy, &parser).is_err());
}
