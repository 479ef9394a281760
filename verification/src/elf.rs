//! The slice of the 64-bit ELF executable format this kernel consumes: the
//! file header's entry point and program-header table location, and each
//! program header's type, addresses, sizes, alignment and permission flags.
//! Only `LOAD`-type segments are ever acted on.

use vstd::prelude::*;

verus! {

/// Segment type tag of a loadable segment.
pub const PROG_SEG_TYPE_LOAD: u32 = 1;

/// Permission bits of a program header's `flags` word.
pub const PROG_SEG_EXEC: u32 = 1;
pub const PROG_SEG_WRITE: u32 = 2;
pub const PROG_SEG_READ: u32 = 4;

/// The size of one on-disk program-header record.
pub const PROG_HEADER_SIZE: u64 = 56;

/// What can be wrong with an ELF image or with building an address space
/// from it.
#[derive(Clone, Copy, Debug, PartialEq, Eq, Structural)]
pub enum ELFError {
    /// The image is too short for the structures its header announces.
    MalformedImage,
    /// The header's program-entry size is not the expected record size.
    BadEntrySize,
    /// A segment would map virtual addresses below the first page.
    MappedZeroPage,
    /// A segment would map over the kernel's own code.
    MappedKernelText,
    /// A segment's on-disk and in-memory sizes differ.
    InequalSizes,
    /// A segment demands alignment beyond one page.
    ExcessiveAlignment,
    /// Physical pages for a segment or stack could not be allocated.
    FailedAlloc,
    /// A segment or stack could not be mapped.
    FailedMap,
}

/// The fields of the ELF file header that are consumed.
#[derive(Clone, Copy, Debug, PartialEq, Eq, Structural)]
pub struct ELFHeader64 {
    pub entry: u64,
    pub program_header_pos: u64,
    pub program_entry_size: u16,
    pub num_program_entries: u16,
}

/// One program header (segment descriptor).
#[derive(Clone, Copy, Debug, PartialEq, Eq, Structural)]
pub struct ProgramHeaderSegment64 {
    pub seg_type: u32,
    pub flags: u32,
    pub file_offset: u64,
    pub vmem_addr: u64,
    pub phys_addr: u64,
    pub size_in_file: u64,
    pub size_in_memory: u64,
    pub alignment: u64,
}

/// A parsed executable image: the consumed header fields and every program
/// header, in file order.
#[derive(Debug)]
pub struct ELFProgram {
    pub header: ELFHeader64,
    pub segments: Vec<ProgramHeaderSegment64>,
}

/// The little-endian 16-bit value at `off`.
pub open spec fn u16_at(s: Seq<u8>, off: int) -> u16 {
    (s[off] + s[off + 1] * 0x100) as u16
}

/// The little-endian 32-bit value at `off`.
pub open spec fn u32_at(s: Seq<u8>, off: int) -> u32 {
    (s[off] + s[off + 1] * 0x100 + s[off + 2] * 0x10000 + s[off + 3] * 0x1000000) as u32
}

/// The little-endian 64-bit value at `off`.
pub open spec fn u64_at(s: Seq<u8>, off: int) -> u64 {
    (s[off] + s[off + 1] * 0x100 + s[off + 2] * 0x10000 + s[off + 3] * 0x1000000
        + s[off + 4] * 0x100000000 + s[off + 5] * 0x10000000000
        + s[off + 6] * 0x1000000000000 + s[off + 7] * 0x100000000000000) as u64
}

/// The program header a well-formed image holds at record index `i` of the
/// table at `pos`.
pub open spec fn segment_at(s: Seq<u8>, pos: int, i: int) -> ProgramHeaderSegment64 {
    let off = pos + i * 56;
    ProgramHeaderSegment64 {
        seg_type: u32_at(s, off),
        flags: u32_at(s, off + 4),
        file_offset: u64_at(s, off + 8),
        vmem_addr: u64_at(s, off + 16),
        phys_addr: u64_at(s, off + 24),
        size_in_file: u64_at(s, off + 32),
        size_in_memory: u64_at(s, off + 40),
        alignment: u64_at(s, off + 48),
    }
}

fn read_u16(bytes: &Vec<u8>, off: usize) -> (r: u16)
    requires
        off + 2 <= bytes@.len(),
    ensures
        r == u16_at(bytes@, off as int),
{
    let _len = bytes.len();
    (bytes[off] as u16) + (bytes[off + 1] as u16) * 0x100
}

fn read_u32(bytes: &Vec<u8>, off: usize) -> (r: u32)
    requires
        off + 4 <= bytes@.len(),
    ensures
        r == u32_at(bytes@, off as int),
{
    let _len = bytes.len();
    (bytes[off] as u32) + (bytes[off + 1] as u32) * 0x100
        + (bytes[off + 2] as u32) * 0x10000 + (bytes[off + 3] as u32) * 0x1000000
}

fn read_u64(bytes: &Vec<u8>, off: usize) -> (r: u64)
    requires
        off + 8 <= bytes@.len(),
    ensures
        r == u64_at(bytes@, off as int),
{
    let _len = bytes.len();
    (bytes[off] as u64) + (bytes[off + 1] as u64) * 0x100
        + (bytes[off + 2] as u64) * 0x10000 + (bytes[off + 3] as u64) * 0x1000000
        + (bytes[off + 4] as u64) * 0x100000000 + (bytes[off + 5] as u64) * 0x10000000000
        + (bytes[off + 6] as u64) * 0x1000000000000
        + (bytes[off + 7] as u64) * 0x100000000000000
}

/// An image long enough for the header fields that are consumed and for the
/// program-header table those fields announce.
pub open spec fn image_wf(s: Seq<u8>) -> bool {
    &&& s.len() >= 64
    &&& u64_at(s, 32) + (u16_at(s, 56) as int) * 56 <= s.len()
}

impl ELFProgram {
    /// Parse the consumed fields of a 64-bit ELF image: the entry point,
    /// the program-header table description, and every program header.
    /// Rejected exactly when the image is too short for them.
    pub fn new64(bytes: &Vec<u8>) -> (r: Result<ELFProgram, ELFError>)
        ensures
            match r {
                Ok(p) => {
                    &&& image_wf(bytes@)
                    &&& p.header.entry == u64_at(bytes@, 24)
                    &&& p.header.program_header_pos == u64_at(bytes@, 32)
                    &&& p.header.program_entry_size == u16_at(bytes@, 54)
                    &&& p.header.num_program_entries == u16_at(bytes@, 56)
                    &&& p.segments@.len() == u16_at(bytes@, 56)
                    &&& forall|i: int| 0 <= i < p.segments@.len() ==>
                        #[trigger] p.segments@[i]
                            == segment_at(bytes@, u64_at(bytes@, 32) as int, i)
                },
                Err(e) => {
                    &&& e == ELFError::MalformedImage
                    &&& !image_wf(bytes@)
                },
            },
    {
        if bytes.len() < 64 {
            return Err(ELFError::MalformedImage);
        }
        let entry = read_u64(bytes, 24);
        let phoff = read_u64(bytes, 32);
        let entsize = read_u16(bytes, 54);
        let num = read_u16(bytes, 56);
        let table_bytes: u64 = (num as u64) * 56;
        if phoff > u64::MAX - table_bytes {
            proof {
                assert(!image_wf(bytes@));
            }
            return Err(ELFError::MalformedImage);
        }
        if phoff + table_bytes > bytes.len() as u64 {
            return Err(ELFError::MalformedImage);
        }
        let blen = bytes.len();
        let mut segments: Vec<ProgramHeaderSegment64> = Vec::new();
        let mut i: usize = 0;
        let nseg = num as usize;
        while i < nseg
            invariant
                image_wf(bytes@),
                nseg == u16_at(bytes@, 56),
                nseg <= 65535,
                phoff == u64_at(bytes@, 32),
                phoff + nseg * 56 <= bytes@.len(),
                bytes@.len() <= usize::MAX,
                i <= nseg,
                segments@.len() == i,
                forall|k: int| 0 <= k < i ==>
                    #[trigger] segments@[k] == segment_at(bytes@, phoff as int, k),
            decreases nseg - i,
        {
            let off = (phoff as usize) + i * 56;
            let seg = ProgramHeaderSegment64 {
                seg_type: read_u32(bytes, off),
                flags: read_u32(bytes, off + 4),
                file_offset: read_u64(bytes, off + 8),
                vmem_addr: read_u64(bytes, off + 16),
                phys_addr: read_u64(bytes, off + 24),
                size_in_file: read_u64(bytes, off + 32),
                size_in_memory: read_u64(bytes, off + 40),
                alignment: read_u64(bytes, off + 48),
            };
            segments.push(seg);
            i = i + 1;
        }
        Ok(ELFProgram {
            header: ELFHeader64 {
                entry,
                program_header_pos: phoff,
                program_entry_size: entsize,
                num_program_entries: num,
            },
            segments,
        })
    }
}

} // verus!
