//! Validation and field extraction for executable images, straight from the
//! raw bytes.

use vstd::prelude::*;

use crate::elf_structure::{
    ElfHeader, ElfProgramHeader, ElfSectionHeader, ELF_HEADER_SIZE, ELF_PROGRAM_HEADER_SIZE,
    ELF_SECTION_HEADER_SIZE, ELF_TYPE_EXECUTABLE, ELF_MACHINE_X86_64,
};
use crate::helper::add_within_bounds;

verus! {

pub open spec fn le_u16(s: Seq<u8>, off: int) -> u16 {
    (s[off] + 256 * s[off + 1]) as u16
}

pub open spec fn le_u32(s: Seq<u8>, off: int) -> u32 {
    (s[off] + 256 * (s[off + 1] + 256 * (s[off + 2] + 256 * s[off + 3]))) as u32
}

pub open spec fn le_u64(s: Seq<u8>, off: int) -> u64 {
    (le_u32(s, off) + 0x100000000 * le_u32(s, off + 4)) as u64
}

fn read_u16(buf: &Vec<u8>, off: usize) -> (r: u16)
    requires
        off + 2 <= buf@.len(),
    ensures
        r == le_u16(buf@, off as int),
{
    let n = buf.len();
    proof {
        assert(off + 2 <= n);
    }
    (buf[off] as u16) + 256 * (buf[off + 1] as u16)
}

fn read_u32(buf: &Vec<u8>, off: usize) -> (r: u32)
    requires
        off + 4 <= buf@.len(),
    ensures
        r == le_u32(buf@, off as int),
{
    let n = buf.len();
    proof {
        assert(off + 4 <= n);
    }
    (buf[off] as u32) + 256 * ((buf[off + 1] as u32) + 256 * ((buf[off + 2] as u32) + 256 * (
    buf[off + 3] as u32)))
}

fn read_u64(buf: &Vec<u8>, off: usize) -> (r: u64)
    requires
        off + 8 <= buf@.len(),
    ensures
        r == le_u64(buf@, off as int),
{
    let n = buf.len();
    proof {
        assert(off + 8 <= n);
    }
    (read_u32(buf, off) as u64) + 0x100000000 * (read_u32(buf, off + 4) as u64)
}

/// The identification and type checks this core insists on: the magic
/// number, a 64-bit little-endian version-1 image, an executable, x86-64.
pub open spec fn image_accepted(s: Seq<u8>) -> bool {
    &&& s.len() >= ELF_HEADER_SIZE
    &&& s[0] == 0x7f
    &&& s[1] == 0x45
    &&& s[2] == 0x4c
    &&& s[3] == 0x46
    &&& s[4] == 2
    &&& s[5] == 1
    &&& s[6] == 1
    &&& le_u16(s, 16) == ELF_TYPE_EXECUTABLE
    &&& le_u16(s, 18) == ELF_MACHINE_X86_64
}

/// The header record is exactly the decoded fields of the first 64 bytes.
pub open spec fn header_matches(h: ElfHeader, s: Seq<u8>) -> bool {
    &&& h.e_ident@.len() == 16
    &&& forall|i: int| 0 <= i < 16 ==> h.e_ident@[i] == s[i]
    &&& h.e_type == le_u16(s, 16)
    &&& h.e_machine == le_u16(s, 18)
    &&& h.e_version == le_u32(s, 20)
    &&& h.e_entry == le_u64(s, 24)
    &&& h.e_phoff == le_u64(s, 32)
    &&& h.e_shoff == le_u64(s, 40)
    &&& h.e_flags == le_u32(s, 48)
    &&& h.e_ehsize == le_u16(s, 52)
    &&& h.e_phentsize == le_u16(s, 54)
    &&& h.e_phnum == le_u16(s, 56)
    &&& h.e_shentsize == le_u16(s, 58)
    &&& h.e_shnum == le_u16(s, 60)
    &&& h.e_shstrndx == le_u16(s, 62)
}

/// The program-header record decoded at byte offset `off`.
pub open spec fn program_header_matches(p: ElfProgramHeader, s: Seq<u8>, off: int) -> bool {
    &&& p.p_type == le_u32(s, off)
    &&& p.p_flags == le_u32(s, off + 4)
    &&& p.p_offset == le_u64(s, off + 8)
    &&& p.p_vaddr == le_u64(s, off + 16)
    &&& p.p_paddr == le_u64(s, off + 24)
    &&& p.p_filesz == le_u64(s, off + 32)
    &&& p.p_memsz == le_u64(s, off + 40)
    &&& p.p_align == le_u64(s, off + 48)
}

/// The section-header record decoded at byte offset `off`.
pub open spec fn section_header_matches(p: ElfSectionHeader, s: Seq<u8>, off: int) -> bool {
    &&& p.sh_name == le_u32(s, off)
    &&& p.sh_type == le_u32(s, off + 4)
    &&& p.sh_flags == le_u64(s, off + 8)
    &&& p.sh_addr == le_u64(s, off + 16)
    &&& p.sh_offset == le_u64(s, off + 24)
    &&& p.sh_size == le_u64(s, off + 32)
    &&& p.sh_link == le_u32(s, off + 40)
    &&& p.sh_info == le_u32(s, off + 44)
    &&& p.sh_addralign == le_u64(s, off + 48)
    &&& p.sh_entsize == le_u64(s, off + 56)
}

/// Byte offset of the program header with the given index, as the table
/// geometry prescribes it.
pub open spec fn program_header_offset(s: Seq<u8>, index: int) -> int {
    le_u64(s, 32) + index * le_u16(s, 54)
}

/// Byte offset of the section header with the given index.
pub open spec fn section_header_offset(s: Seq<u8>, index: int) -> int {
    le_u64(s, 40) + index * le_u16(s, 58)
}

/// A validated view over an executable image's bytes.
pub struct ElfParser<'a> {
    buf: &'a Vec<u8>,
    header: ElfHeader,
}

impl<'a> ElfParser<'a> {
    pub closed spec fn wf(&self) -> bool {
        &&& image_accepted(self.buf@)
        &&& header_matches(self.header, self.buf@)
    }

    pub closed spec fn buf_spec(&self) -> Seq<u8> {
        self.buf@
    }

    /// Validate an image: it must carry the magic number and describe a
    /// 64-bit little-endian version-1 x86-64 executable.  Returns the
    /// parser exactly when the checks pass.
    pub fn parse(buf: &'a Vec<u8>) -> (r: Result<ElfParser<'a>, ()>)
        ensures
            match r {
                Ok(p) => image_accepted(buf@) && p.wf() && p.buf_spec() == buf@,
                Err(()) => !image_accepted(buf@),
            },
    {
        if buf.len() < 64 {
            return Err(());
        }
        if !(buf[0] == 0x7f && buf[1] == 0x45 && buf[2] == 0x4c && buf[3] == 0x46) {
            return Err(());
        }
        if buf[4] != 2 {
            return Err(());
        }
        if buf[5] != 1 {
            return Err(());
        }
        if buf[6] != 1 {
            return Err(());
        }
        let mut e_ident: Vec<u8> = Vec::new();
        let mut i: usize = 0;
        while i < 16
            invariant
                e_ident@.len() == i,
                i <= 16,
                buf@.len() >= 64,
                forall|j: int| 0 <= j < i ==> e_ident@[j] == buf@[j],
            decreases 16 - i,
        {
            e_ident.push(buf[i]);
            i = i + 1;
        }
        let header = ElfHeader {
            e_ident,
            e_type: read_u16(buf, 16),
            e_machine: read_u16(buf, 18),
            e_version: read_u32(buf, 20),
            e_entry: read_u64(buf, 24),
            e_phoff: read_u64(buf, 32),
            e_shoff: read_u64(buf, 40),
            e_flags: read_u32(buf, 48),
            e_ehsize: read_u16(buf, 52),
            e_phentsize: read_u16(buf, 54),
            e_phnum: read_u16(buf, 56),
            e_shentsize: read_u16(buf, 58),
            e_shnum: read_u16(buf, 60),
            e_shstrndx: read_u16(buf, 62),
        };
        if header.e_type != ELF_TYPE_EXECUTABLE {
            return Err(());
        }
        if header.e_machine != ELF_MACHINE_X86_64 {
            return Err(());
        }
        Ok(ElfParser { buf, header })
    }

    /// The raw image bytes.
    pub fn get_buf(&self) -> (r: &'a Vec<u8>)
        ensures
            r@ == self.buf_spec(),
    {
        self.buf
    }

    /// The decoded image header.
    pub fn get_header(&self) -> (r: &ElfHeader)
        requires
            self.wf(),
        ensures
            header_matches(*r, self.buf_spec()),
    {
        &self.header
    }

    /// Decode the program header with the given index, when its record lies
    /// wholly inside the image.
    pub fn get_program_header(&self, index: usize) -> (r: Result<ElfProgramHeader, ()>)
        requires
            self.wf(),
        ensures
            match r {
                Ok(p) => index < le_u16(self.buf_spec(), 56) && program_header_offset(
                    self.buf_spec(),
                    index as int,
                ) + ELF_PROGRAM_HEADER_SIZE <= self.buf_spec().len() && program_header_matches(
                    p,
                    self.buf_spec(),
                    program_header_offset(self.buf_spec(), index as int),
                ),
                Err(()) => index >= le_u16(self.buf_spec(), 56) || program_header_offset(
                    self.buf_spec(),
                    index as int,
                ) + ELF_PROGRAM_HEADER_SIZE > self.buf_spec().len(),
            },
    {
        let n = self.buf.len();
        proof {
            assert(self.buf_spec().len() == n);
        }
        if index >= self.header.e_phnum as usize {
            return Err(());
        }
        proof {
            assert((index as u64) * (self.header.e_phentsize as u64) <= 0xFFFF_FFFF_FFFF)
                by (nonlinear_arith)
                requires
                    index < 0x10000,
                    self.header.e_phentsize <= 0xFFFF,
            ;
        }
        let stride = (index as u64) * (self.header.e_phentsize as u64);
        if self.header.e_phoff > u64::MAX - stride {
            proof {
                assert(program_header_offset(self.buf_spec(), index as int) > u64::MAX as int);
            }
            return Err(());
        }
        let ph_offset = self.header.e_phoff + stride;
        match add_within_bounds(ph_offset, 56, self.buf.len() as u64) {
            Some(_) => {},
            None => {
                return Err(());
            },
        };
        let off = ph_offset as usize;
        Ok(
            ElfProgramHeader {
                p_type: read_u32(self.buf, off),
                p_flags: read_u32(self.buf, off + 4),
                p_offset: read_u64(self.buf, off + 8),
                p_vaddr: read_u64(self.buf, off + 16),
                p_paddr: read_u64(self.buf, off + 24),
                p_filesz: read_u64(self.buf, off + 32),
                p_memsz: read_u64(self.buf, off + 40),
                p_align: read_u64(self.buf, off + 48),
            },
        )
    }

    /// Decode the section header with the given index, when its record lies
    /// wholly inside the image.
    pub fn get_section_header(&self, index: usize) -> (r: Result<ElfSectionHeader, ()>)
        requires
            self.wf(),
        ensures
            match r {
                Ok(p) => index < le_u16(self.buf_spec(), 60) && section_header_offset(
                    self.buf_spec(),
                    index as int,
                ) + ELF_SECTION_HEADER_SIZE <= self.buf_spec().len() && section_header_matches(
                    p,
                    self.buf_spec(),
                    section_header_offset(self.buf_spec(), index as int),
                ),
                Err(()) => index >= le_u16(self.buf_spec(), 60) || section_header_offset(
                    self.buf_spec(),
                    index as int,
                ) + ELF_SECTION_HEADER_SIZE > self.buf_spec().len(),
            },
    {
        let n = self.buf.len();
        proof {
            assert(self.buf_spec().len() == n);
        }
        if index >= self.header.e_shnum as usize {
            return Err(());
        }
        proof {
            assert((index as u64) * (self.header.e_shentsize as u64) <= 0xFFFF_FFFF_FFFF)
                by (nonlinear_arith)
                requires
                    index < 0x10000,
                    self.header.e_shentsize <= 0xFFFF,
            ;
        }
        let stride = (index as u64) * (self.header.e_shentsize as u64);
        if self.header.e_shoff > u64::MAX - stride {
            proof {
                assert(section_header_offset(self.buf_spec(), index as int) > u64::MAX as int);
            }
            return Err(());
        }
        let sh_offset = self.header.e_shoff + stride;
        match add_within_bounds(sh_offset, 64, self.buf.len() as u64) {
            Some(_) => {},
            None => {
                return Err(());
            },
        };
        let off = sh_offset as usize;
        Ok(
            ElfSectionHeader {
                sh_name: read_u32(self.buf, off),
                sh_type: read_u32(self.buf, off + 4),
                sh_flags: read_u64(self.buf, off + 8),
                sh_addr: read_u64(self.buf, off + 16),
                sh_offset: read_u64(self.buf, off + 24),
                sh_size: read_u64(self.buf, off + 32),
                sh_link: read_u32(self.buf, off + 40),
                sh_info: read_u32(self.buf, off + 44),
                sh_addralign: read_u64(self.buf, off + 48),
                sh_entsize: read_u64(self.buf, off + 56),
            },
        )
    }
}

/// Turn a condition into a recoverable result.
pub fn easy_assert(cond: bool) -> (r: Result<(), ()>)
    ensures
        r.is_ok() <==> cond,
{
    if cond {
        Ok(())
    } else {
        Err(())
    }
}

} // verus!
