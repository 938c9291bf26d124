//! Executable-image records: the fixed-layout header, program header and
//! section header, with the identification and type codes this core accepts.

use vstd::prelude::*;

verus! {

pub const ELF_TYPE_EXECUTABLE: u16 = 2;

pub const ELF_MACHINE_X86_64: u16 = 0x3e;

pub const ELF_PROGRAM_HEADER_TYPE_LOAD: u32 = 1;

pub const ELF_HEADER_SIZE: u64 = 64;

pub const ELF_PROGRAM_HEADER_SIZE: u64 = 56;

pub const ELF_SECTION_HEADER_SIZE: u64 = 64;

/// The image header: identification bytes and the table geometry.
pub struct ElfHeader {
    pub e_ident: Vec<u8>,    // Magic number and other info
    pub e_type: u16,         // Object file type
    pub e_machine: u16,      // Architecture
    pub e_version: u32,      // Object file version
    pub e_entry: u64,        // Entry point virtual address
    pub e_phoff: u64,        // Program header table file offset
    pub e_shoff: u64,        // Section header table file offset
    pub e_flags: u32,        // Processor-specific flags
    pub e_ehsize: u16,       // Header size in bytes
    pub e_phentsize: u16,    // Program header table entry size
    pub e_phnum: u16,        // Program header table entry count
    pub e_shentsize: u16,    // Section header table entry size
    pub e_shnum: u16,        // Section header table entry count
    pub e_shstrndx: u16,     // Section header string table index
}

/// One loadable-segment record.
pub struct ElfProgramHeader {
    pub p_type: u32,    // Segment type
    pub p_flags: u32,   // Segment flags
    pub p_offset: u64,  // Segment file offset
    pub p_vaddr: u64,   // Segment virtual address
    pub p_paddr: u64,   // Segment physical address
    pub p_filesz: u64,  // Segment size in file
    pub p_memsz: u64,   // Segment size in memory
    pub p_align: u64,   // Segment alignment
}

/// One section record.
pub struct ElfSectionHeader {
    pub sh_name: u32,       // Section name (string table index)
    pub sh_type: u32,       // Section type
    pub sh_flags: u64,      // Section flags
    pub sh_addr: u64,       // Section virtual address at execution
    pub sh_offset: u64,     // Section file offset
    pub sh_size: u64,       // Section size in bytes
    pub sh_link: u32,       // Link to another section
    pub sh_info: u32,       // Additional section information
    pub sh_addralign: u64,  // Section alignment
    pub sh_entsize: u64,    // Entry size if section holds a table
}

} // verus!
