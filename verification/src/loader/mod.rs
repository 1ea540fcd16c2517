//! Binary loading: ABO, the native format, and ELF. Loading an image is
//! worked out in full from its bytes first (`load`), as a plan; the pages
//! are then mapped in the order the plan gives.
pub mod abo;
pub mod elf;
pub mod segments;

use vstd::prelude::*;
use vstd::bytes::{
    spec_u16_from_le_bytes, spec_u32_from_le_bytes, spec_u64_from_le_bytes, u16_from_le_bytes,
    u32_from_le_bytes, u64_from_le_bytes,
};
use vstd::slice::slice_subrange;
use crate::loader::segments::stack_layout;

verus! {

/// The little-endian `u16` at `off` in `d`.
pub open spec fn le16(d: Seq<u8>, off: int) -> u16 {
    spec_u16_from_le_bytes(d.subrange(off, off + 2))
}

/// The little-endian `u32` at `off` in `d`.
pub open spec fn le32(d: Seq<u8>, off: int) -> u32 {
    spec_u32_from_le_bytes(d.subrange(off, off + 4))
}

/// The little-endian `u64` at `off` in `d`.
pub open spec fn le64(d: Seq<u8>, off: int) -> u64 {
    spec_u64_from_le_bytes(d.subrange(off, off + 8))
}

pub(crate) fn read_u16(data: &[u8], off: usize) -> (r: u16)
    requires
        off + 2 <= data.len(),
    ensures
        r == le16(data@, off as int),
{
    u16_from_le_bytes(slice_subrange(data, off, off + 2))
}

pub(crate) fn read_u32(data: &[u8], off: usize) -> (r: u32)
    requires
        off + 4 <= data.len(),
    ensures
        r == le32(data@, off as int),
{
    u32_from_le_bytes(slice_subrange(data, off, off + 4))
}

pub(crate) fn read_u64(data: &[u8], off: usize) -> (r: u64)
    requires
        off + 8 <= data.len(),
    ensures
        r == le64(data@, off as int),
{
    u64_from_le_bytes(slice_subrange(data, off, off + 8))
}

/// `a + b`, or `u64::MAX` when that does not fit.
pub open spec fn sat_add(a: u64, b: u64) -> u64 {
    if a + b > u64::MAX {
        u64::MAX
    } else {
        (a + b) as u64
    }
}

pub const USER_CODE_BASE: u64 = 0x0040_0000;

pub const USER_STACK_BASE: u64 = 0x0000_7FFF_F000_0000;

pub const USER_STACK_SIZE: u64 = 0x2_0000;

pub const USER_STACK_TOP: u64 = 0x0000_7FFF_F002_0000;

#[derive(Debug, Clone, Copy, PartialEq, Eq, Structural)]
pub struct LoadedBinary {
    pub entry: u64,
    pub stack_top: u64,
    pub brk: u64,
}

#[derive(Debug, Clone, Copy, PartialEq, Eq, Structural)]
pub enum LoadError {
    TooSmall,
    BadMagic,
    UnsupportedFormat,
    UnsupportedArch,
    UnsupportedVersion,
    BadSegmentTable,
    SegmentOutOfFile,
    VaddrInKernelSpace,
    SegmentOverflow,
    OutOfFrames,
    MappingFailed,
    StackMappingFailed,
    MissingCapability,
    InvalidEntryPoint,
    ProcessNotFound,
}

/// How to load an image, worked out from its bytes: the segments to map, in
/// this order, and then either the error to report (after mapping them) or
/// the entry point and the end of the loaded data.
pub struct LoadPlan {
    pub segments: Vec<SegmentSpec>,
    pub outcome: Result<(u64, u64), LoadError>,
}

/// A segment to map: `mem_size` bytes at `vaddr`, the first `file_size` of
/// them taken from the image at `file_off`, with page flags `flags`.
#[derive(Debug, Clone, Copy, PartialEq, Eq, Structural)]
pub struct SegmentSpec {
    pub vaddr: u64,
    pub mem_size: u64,
    pub file_off: u64,
    pub file_size: u64,
    pub flags: u64,
}

/// How to load the image `d`, chosen by its first four bytes.
pub open spec fn plan(d: Seq<u8>) -> (Seq<SegmentSpec>, Result<(u64, u64), LoadError>) {
    if d.len() < 4 {
        (Seq::empty(), Err(LoadError::TooSmall))
    } else if d.subrange(0, 4) == abo::abo_magic() {
        abo::plan(d)
    } else if d.subrange(0, 4) == elf::elf_magic() {
        elf::plan(d)
    } else {
        (Seq::empty(), Err(LoadError::UnsupportedFormat))
    }
}

/// Works out how to load the image `data`, ABO or ELF.
pub fn load(data: &[u8]) -> (r: LoadPlan)
    requires
        data@.len() <= isize::MAX,
    ensures
        (r.segments@, r.outcome) == plan(data@),
{
    if data.len() < 4 {
        return LoadPlan { segments: Vec::new(), outcome: Err(LoadError::TooSmall) };
    }
    let is_abo = data[0] == 65u8 && data[1] == 66u8 && data[2] == 79u8 && data[3] == 0u8;
    let is_elf = data[0] == 0x7fu8 && data[1] == 69u8 && data[2] == 76u8 && data[3] == 70u8;
    proof {
        let h = data@.subrange(0, 4);
        assert(h[0] == data@[0] && h[1] == data@[1] && h[2] == data@[2] && h[3] == data@[3]);
        if is_abo {
            assert(h =~= abo::abo_magic());
        } else {
            assert(h != abo::abo_magic()) by {
                if h == abo::abo_magic() {
                    assert(h[0] == 65u8 && h[1] == 66u8 && h[2] == 79u8 && h[3] == 0u8);
                }
            }
        }
        if is_elf {
            assert(h =~= elf::elf_magic());
        } else {
            assert(h != elf::elf_magic()) by {
                if h == elf::elf_magic() {
                    assert(h[0] == 0x7fu8 && h[1] == 69u8 && h[2] == 76u8 && h[3] == 70u8);
                }
            }
        }
    }
    if is_abo {
        abo::load(data)
    } else if is_elf {
        elf::load(data)
    } else {
        LoadPlan { segments: Vec::new(), outcome: Err(LoadError::UnsupportedFormat) }
    }
}

/// `brk` rounded up to a page boundary.
pub open spec fn page_round_up(brk: u64) -> u64 {
    (((brk + 4095) / 4096) * 4096) as u64
}

/// The loaded binary, its end of data rounded up to a page boundary.
pub fn loaded(entry: u64, stack_top: u64, brk: u64) -> (r: LoadedBinary)
    requires
        brk <= u64::MAX - 0xFFF,
    ensures
        r == (LoadedBinary { entry, stack_top, brk: page_round_up(brk) }),
        r.brk % 4096 == 0,
        brk <= r.brk < brk + 4096,
{
    let b = brk + 0xFFF;
    let aligned = b & !0xFFF;
    proof {
        assert(b & !0xFFFu64 == b - b % 4096) by (bit_vector);
    }
    LoadedBinary { entry, stack_top, brk: aligned }
}

/// Whatever the image, loading maps nothing outside user space or at
/// address 0 and reads nothing past the end of the image; a successful
/// load enters at a non-null address below the stack area, and every
/// mapped segment ends at or below the reported end of data.
pub proof fn lemma_load_safe(d: Seq<u8>)
    requires
        d.len() <= isize::MAX,
    ensures
        forall|k: int|
            0 <= k < plan(d).0.len() ==> {
                let seg = #[trigger] plan(d).0[k];
                &&& segments::placed(seg)
                &&& seg.file_off + seg.file_size <= d.len()
            },
        plan(d).1 matches Ok((entry, brk)) ==> {
            &&& 0 < entry < USER_STACK_BASE
            &&& forall|k: int|
                0 <= k < plan(d).0.len() ==> (#[trigger] plan(d).0[k]).vaddr + plan(d).0[k].mem_size
                    <= brk
        },
{
    abo::lemma_plan_safe(d);
    elf::lemma_plan_safe(d);
}

/// Where a loaded binary's stack starts: 16 bytes below the end of the user
/// stack area.
pub open spec fn user_stack_top() -> u64 {
    0x0000_7FFF_F001_FFF0
}

/// The outcome of a load once its plan has been carried out: the plan's
/// error, if any; otherwise, if the user stack area could be mapped, the
/// binary entered at the plan's entry point on the top of that stack, its
/// end of data rounded up to a page; a stack that could not be mapped fails
/// the load.
pub open spec fn load_result(outcome: Result<(u64, u64), LoadError>, stack_mapped: bool) -> Result<
    LoadedBinary,
    LoadError,
> {
    match outcome {
        Err(e) => Err(e),
        Ok((entry, brk)) => if stack_mapped {
            Ok(LoadedBinary { entry, stack_top: user_stack_top(), brk: page_round_up(brk) })
        } else {
            Err(LoadError::StackMappingFailed)
        },
    }
}

proof fn lemma_round_up(brk: u64)
    requires
        brk <= u64::MAX - 0xFFF,
    ensures
        page_round_up(brk) % 4096 == 0,
        brk <= page_round_up(brk) < brk + 4096,
{
    let q = (brk + 4095) / 4096;
    assert(q * 4096 <= brk + 4095 < q * 4096 + 4096) by (nonlinear_arith)
        requires
            q == (brk + 4095) / 4096,
    ;
    assert((q * 4096) % 4096 == 0) by (nonlinear_arith);
}

/// The loaded binary, given the plan's outcome and whether the user stack
/// area (`stack_layout(USER_STACK_BASE, USER_STACK_SIZE)` pages with
/// `STACK_PAGE_FLAGS`) was mapped.
pub fn finish_load(outcome: Result<(u64, u64), LoadError>, stack_mapped: bool) -> (r: Result<
    LoadedBinary,
    LoadError,
>)
    requires
        stack_mapped ==> (outcome matches Ok((_, brk)) ==> brk <= u64::MAX - 0xFFF),
    ensures
        r == load_result(outcome, stack_mapped),
        r matches Ok(b) ==> {
            &&& b.stack_top == 0x0000_7FFF_F001_FFF0
            &&& b.brk % 4096 == 0
            &&& outcome matches Ok((entry, brk)) && b.entry == entry && brk <= b.brk < brk + 4096
        },
{
    match outcome {
        Err(e) => Err(e),
        Ok((entry, brk)) => {
            if !stack_mapped {
                return Err(LoadError::StackMappingFailed);
            }
            let (_pages, top) = stack_layout(USER_STACK_BASE, USER_STACK_SIZE);
            assert(((0x0000_7FFF_F001_FFF0u64) & !0xFu64) == 0x0000_7FFF_F001_FFF0u64) by (bit_vector);
            assert(top == user_stack_top());
            proof {
                lemma_round_up(brk);
            }
            Ok(loaded(entry, top, brk))
        },
    }
}

/// A load that succeeds enters at a non-null address below the stack area,
/// on the top of the user stack, and its page-rounded end of data lies at or
/// above the end of every segment it mapped.
pub proof fn lemma_load_result(d: Seq<u8>, stack_mapped: bool)
    requires
        d.len() <= isize::MAX,
        stack_mapped ==> (plan(d).1 matches Ok((_, brk)) ==> brk <= u64::MAX - 0xFFF),
    ensures
        load_result(plan(d).1, stack_mapped) matches Ok(b) ==> {
            &&& 0 < b.entry < USER_STACK_BASE
            &&& b.stack_top == user_stack_top()
            &&& b.brk % 4096 == 0
            &&& forall|k: int|
                0 <= k < plan(d).0.len() ==> (#[trigger] plan(d).0[k]).vaddr + plan(d).0[k].mem_size
                    <= b.brk
        },
{
    lemma_load_safe(d);
    if let Ok((_, brk)) = plan(d).1 {
        if stack_mapped {
            lemma_round_up(brk);
        }
    }
}

} // verus!
