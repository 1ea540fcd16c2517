//! ELF64 little-endian x86-64 executables, static (`ET_EXEC`) or
//! position-independent (`ET_DYN`, loaded at `USER_CODE_BASE`), for
//! compatibility.
use vstd::prelude::*;
use crate::loader::{
    le16, le32, le64, read_u16, read_u32, read_u64, sat_add, LoadError, LoadPlan, SegmentSpec,
    USER_CODE_BASE, USER_STACK_BASE,
};
use crate::loader::segments::{check_segment, page_flags, placed, segment_check, segment_flags};

verus! {

pub const ELFCLASS64: u8 = 2;

pub const ELFDATA2LSB: u8 = 1;

pub const ET_EXEC: u16 = 2;

pub const ET_DYN: u16 = 3;

pub const EM_X86_64: u16 = 62;

pub const PT_LOAD: u32 = 1;

pub const PF_X: u32 = 1;

pub const PF_W: u32 = 2;

/// Bytes of the file header.
pub const EHDR_SIZE: usize = 64;

/// Bytes of a program header.
pub const PHDR_SIZE: usize = 56;

pub open spec fn elf_magic() -> Seq<u8> {
    seq![0x7fu8, 69u8, 76u8, 70u8]
}

/// Whether `d` starts with the header of an x86-64 little-endian ELF64
/// executable or shared object.
pub open spec fn header_check(d: Seq<u8>) -> Result<(), LoadError> {
    if d.len() < EHDR_SIZE {
        Err(LoadError::TooSmall)
    } else if d.subrange(0, 4) != elf_magic() {
        Err(LoadError::BadMagic)
    } else if d[4] != ELFCLASS64 {
        Err(LoadError::UnsupportedArch)
    } else if d[5] != ELFDATA2LSB {
        Err(LoadError::UnsupportedFormat)
    } else if le16(d, 16) != ET_EXEC && le16(d, 16) != ET_DYN {
        Err(LoadError::UnsupportedFormat)
    } else if le16(d, 18) != EM_X86_64 {
        Err(LoadError::UnsupportedArch)
    } else {
        Ok(())
    }
}

/// The header fields the loader reads.
#[derive(Clone, Copy)]
pub struct ElfHeader {
    pub e_type: u16,
    pub e_machine: u16,
    pub e_entry: u64,
    pub e_phoff: u64,
    pub e_phentsize: u16,
    pub e_phnum: u16,
}

fn parse_header(data: &[u8]) -> (r: Result<ElfHeader, LoadError>)
    ensures
        match r {
            Ok(h) => {
                &&& header_check(data@) is Ok
                &&& h.e_type == le16(data@, 16)
                &&& h.e_machine == le16(data@, 18)
                &&& h.e_entry == le64(data@, 24)
                &&& h.e_phoff == le64(data@, 32)
                &&& h.e_phentsize == le16(data@, 54)
                &&& h.e_phnum == le16(data@, 56)
            },
            Err(e) => header_check(data@) == Err::<(), LoadError>(e),
        },
{
    if data.len() < EHDR_SIZE {
        return Err(LoadError::TooSmall);
    }
    if data[0] != 0x7fu8 || data[1] != 69u8 || data[2] != 76u8 || data[3] != 70u8 {
        assert(data@.subrange(0, 4) != elf_magic()) by {
            if data@.subrange(0, 4) == elf_magic() {
                assert(data@.subrange(0, 4)[0] == data@[0]);
                assert(data@.subrange(0, 4)[1] == data@[1]);
                assert(data@.subrange(0, 4)[2] == data@[2]);
                assert(data@.subrange(0, 4)[3] == data@[3]);
            }
        }
        return Err(LoadError::BadMagic);
    }
    assert(data@.subrange(0, 4) =~= elf_magic());
    if data[4] != ELFCLASS64 {
        return Err(LoadError::UnsupportedArch);
    }
    if data[5] != ELFDATA2LSB {
        return Err(LoadError::UnsupportedFormat);
    }
    let e_type = read_u16(data, 16);
    let e_machine = read_u16(data, 18);
    if e_type != ET_EXEC && e_type != ET_DYN {
        return Err(LoadError::UnsupportedFormat);
    }
    if e_machine != EM_X86_64 {
        return Err(LoadError::UnsupportedArch);
    }
    Ok(
        ElfHeader {
            e_type,
            e_machine,
            e_entry: read_u64(data, 24),
            e_phoff: read_u64(data, 32),
            e_phentsize: read_u16(data, 54),
            e_phnum: read_u16(data, 56),
        },
    )
}

/// The program header fields the loader reads.
#[derive(Clone, Copy)]
pub struct ProgramHeader {
    pub p_type: u32,
    pub p_flags: u32,
    pub p_offset: u64,
    pub p_vaddr: u64,
    pub p_filesz: u64,
    pub p_memsz: u64,
}

/// The program header at `off` in `d`.
pub open spec fn phdr_at(d: Seq<u8>, off: int) -> ProgramHeader {
    ProgramHeader {
        p_type: le32(d, off),
        p_flags: le32(d, off + 4),
        p_offset: le64(d, off + 8),
        p_vaddr: le64(d, off + 16),
        p_filesz: le64(d, off + 32),
        p_memsz: le64(d, off + 40),
    }
}

fn read_phdr(data: &[u8], offset: u64) -> (r: Result<ProgramHeader, LoadError>)
    ensures
        match r {
            Ok(p) => offset + PHDR_SIZE <= data@.len() && p == phdr_at(data@, offset as int),
            Err(e) => offset + PHDR_SIZE > data@.len() && e == LoadError::BadSegmentTable,
        },
{
    let len = data.len();
    let end = match offset.checked_add(56) {
        Some(e) => e,
        None => {
            assert(data@.len() == len);
            return Err(LoadError::BadSegmentTable);
        },
    };
    if end > len as u64 {
        return Err(LoadError::BadSegmentTable);
    }
    let off = offset as usize;
    Ok(
        ProgramHeader {
            p_type: read_u32(data, off),
            p_flags: read_u32(data, off + 4),
            p_offset: read_u64(data, off + 8),
            p_vaddr: read_u64(data, off + 16),
            p_filesz: read_u64(data, off + 32),
            p_memsz: read_u64(data, off + 40),
        },
    )
}

/// Where a position-independent image of type `e_type` is placed.
pub open spec fn load_bias(e_type: u16) -> u64 {
    if e_type == ET_DYN {
        USER_CODE_BASE
    } else {
        0
    }
}

/// The state of a walk over the program headers: the segments to map so
/// far, the highest segment end, and the error that stopped the walk.
#[verifier::ext_equal]
pub struct Scan {
    pub segments: Seq<SegmentSpec>,
    pub brk: u64,
    pub error: Option<LoadError>,
}

/// What is wrong with a loadable program header placed at `vaddr`, if
/// anything: its data must lie in the file and its memory in user space.
pub open spec fn phdr_error(d: Seq<u8>, p: ProgramHeader, vaddr: u64) -> Option<LoadError> {
    if p.p_offset + p.p_filesz > u64::MAX {
        Some(LoadError::SegmentOverflow)
    } else if p.p_offset + p.p_filesz > d.len() {
        Some(LoadError::SegmentOutOfFile)
    } else {
        match segment_check(vaddr, p.p_memsz) {
            Err(e) => Some(e),
            Ok(_) => None,
        }
    }
}

/// The walk over the first `n` program headers of a table at `phoff`,
/// `phentsize` bytes apart, loaded with `bias`. Headers that are not
/// loadable, or take no memory, are passed over.
pub open spec fn scan(d: Seq<u8>, phoff: int, phentsize: int, bias: u64, n: nat) -> Scan
    decreases n,
{
    if n == 0 {
        Scan { segments: Seq::empty(), brk: 0, error: None }
    } else {
        let prev = scan(d, phoff, phentsize, bias, (n - 1) as nat);
        let off = phoff + (n - 1) * phentsize;
        if prev.error is Some {
            prev
        } else if off + PHDR_SIZE > d.len() {
            Scan { error: Some(LoadError::BadSegmentTable), ..prev }
        } else {
            let p = phdr_at(d, off);
            if p.p_type != PT_LOAD || p.p_memsz == 0 {
                prev
            } else {
                let vaddr = p.p_vaddr.wrapping_add(bias);
                match phdr_error(d, p, vaddr) {
                    Some(e) => Scan { error: Some(e), ..prev },
                    None => Scan {
                        segments: prev.segments.push(
                            SegmentSpec {
                                vaddr,
                                mem_size: p.p_memsz,
                                file_off: p.p_offset,
                                file_size: p.p_filesz,
                                flags: segment_flags(p.p_flags & PF_W != 0, p.p_flags & PF_X != 0),
                            },
                        ),
                        brk: if sat_add(vaddr, p.p_memsz) > prev.brk {
                            sat_add(vaddr, p.p_memsz)
                        } else {
                            prev.brk
                        },
                        error: None,
                    },
                }
            }
        }
    }
}

proof fn lemma_scan_stops(d: Seq<u8>, phoff: int, phentsize: int, bias: u64, n: nat, m: nat)
    requires
        n <= m,
        scan(d, phoff, phentsize, bias, n).error is Some,
    ensures
        scan(d, phoff, phentsize, bias, m) == scan(d, phoff, phentsize, bias, n),
    decreases m - n,
{
    if n < m {
        lemma_scan_stops(d, phoff, phentsize, bias, n, (m - 1) as nat);
    }
}

/// The verdict on an entry point: neither 0 nor in the stack area.
pub open spec fn entry_check(entry: u64) -> Result<(), LoadError> {
    if entry == 0 || entry >= USER_STACK_BASE {
        Err(LoadError::InvalidEntryPoint)
    } else {
        Ok(())
    }
}

fn validate_entry(entry: u64, brk: u64) -> (r: Result<(), LoadError>)
    ensures
        r == entry_check(entry),
{
    if entry == 0 || entry >= USER_STACK_BASE {
        return Err(LoadError::InvalidEntryPoint);
    }
    Ok(())
}

/// The plan once every program header has been walked.
pub open spec fn scan_outcome(s: Scan, entry: u64) -> (Seq<SegmentSpec>, Result<(u64, u64), LoadError>) {
    match s.error {
        Some(e) => (s.segments, Err(e)),
        None => if s.brk == 0 {
            (s.segments, Err(LoadError::BadSegmentTable))
        } else {
            match entry_check(entry) {
                Err(e) => (s.segments, Err(e)),
                Ok(_) => (s.segments, Ok((entry, s.brk))),
            }
        },
    }
}

/// How to load the ELF image `d`.
pub open spec fn plan(d: Seq<u8>) -> (Seq<SegmentSpec>, Result<(u64, u64), LoadError>) {
    match header_check(d) {
        Err(e) => (Seq::empty(), Err(e)),
        Ok(_) => if le16(d, 54) < PHDR_SIZE {
            (Seq::empty(), Err(LoadError::BadSegmentTable))
        } else {
            let bias = load_bias(le16(d, 16));
            scan_outcome(
                scan(d, le64(d, 32) as int, le16(d, 54) as int, bias, le16(d, 56) as nat),
                le64(d, 24).wrapping_add(bias),
            )
        },
    }
}

/// Works out how to load the ELF image `data`.
pub fn load(data: &[u8]) -> (r: LoadPlan)
    requires
        data@.len() <= isize::MAX,
    ensures
        (r.segments@, r.outcome) == plan(data@),
{
    let ehdr = match parse_header(data) {
        Ok(h) => h,
        Err(e) => {
            return LoadPlan { segments: Vec::new(), outcome: Err(e) };
        },
    };
    let e_type = ehdr.e_type;
    let e_entry = ehdr.e_entry;
    let e_phoff = ehdr.e_phoff;
    let e_phnum = ehdr.e_phnum as u64;
    let e_phentsize = ehdr.e_phentsize as u64;
    if e_phentsize < 56 {
        return LoadPlan { segments: Vec::new(), outcome: Err(LoadError::BadSegmentTable) };
    }
    let load_bias: u64 = if e_type == ET_DYN {
        USER_CODE_BASE
    } else {
        0
    };
    let ghost d = data@;
    let ghost entry = e_entry.wrapping_add(load_bias);
    assert(plan(d) == scan_outcome(
        scan(d, e_phoff as int, e_phentsize as int, load_bias, e_phnum as nat),
        entry,
    ));
    let mut segments: Vec<SegmentSpec> = Vec::new();
    let mut brk: u64 = 0;
    let mut i: u64 = 0;
    while i < e_phnum
        invariant
            d == data@,
            d.len() <= isize::MAX,
            d.len() == data.len(),
            e_phnum <= 65535,
            56 <= e_phentsize <= 65535,
            entry == e_entry.wrapping_add(load_bias),
            plan(d) == scan_outcome(
                scan(d, e_phoff as int, e_phentsize as int, load_bias, e_phnum as nat),
                entry,
            ),
            0 <= i <= e_phnum,
            i > 0 ==> e_phoff + PHDR_SIZE <= d.len(),
            scan(d, e_phoff as int, e_phentsize as int, load_bias, i as nat) == (Scan {
                segments: segments@,
                brk,
                error: None,
            }),
        decreases e_phnum - i,
    {
        assert(i * e_phentsize <= 65535 * 65535) by (nonlinear_arith)
            requires
                i <= 65535,
                e_phentsize <= 65535,
        ;
        let phdr_off = e_phoff + i * e_phentsize;
        let phdr = match read_phdr(data, phdr_off) {
            Ok(p) => p,
            Err(e) => {
                proof {
                    lemma_scan_stops(d, e_phoff as int, e_phentsize as int, load_bias, (i + 1) as nat, e_phnum as nat);
                }
                return LoadPlan { segments, outcome: Err(e) };
            },
        };
        i = i + 1;
        if phdr.p_type != PT_LOAD || phdr.p_memsz == 0 {
            continue;
        }
        let vaddr = phdr.p_vaddr.wrapping_add(load_bias);
        let file_end = match phdr.p_offset.checked_add(phdr.p_filesz) {
            Some(e) => e,
            None => {
                proof {
                    lemma_scan_stops(d, e_phoff as int, e_phentsize as int, load_bias, i as nat, e_phnum as nat);
                }
                return LoadPlan { segments, outcome: Err(LoadError::SegmentOverflow) };
            },
        };
        if file_end > data.len() as u64 {
            proof {
                lemma_scan_stops(d, e_phoff as int, e_phentsize as int, load_bias, i as nat, e_phnum as nat);
            }
            return LoadPlan { segments, outcome: Err(LoadError::SegmentOutOfFile) };
        }
        let flags = page_flags(phdr.p_flags & PF_W != 0, phdr.p_flags & PF_X != 0);
        match check_segment(vaddr, phdr.p_memsz) {
            Ok(()) => {},
            Err(e) => {
                proof {
                    lemma_scan_stops(d, e_phoff as int, e_phentsize as int, load_bias, i as nat, e_phnum as nat);
                }
                return LoadPlan { segments, outcome: Err(e) };
            },
        }
        segments.push(
            SegmentSpec {
                vaddr,
                mem_size: phdr.p_memsz,
                file_off: phdr.p_offset,
                file_size: phdr.p_filesz,
                flags,
            },
        );
        let seg_end = vaddr.saturating_add(phdr.p_memsz);
        if seg_end > brk {
            brk = seg_end;
        }
        assert(scan(d, e_phoff as int, e_phentsize as int, load_bias, i as nat) =~= (Scan {
            segments: segments@,
            brk,
            error: None,
        }));
    }
    if brk == 0 {
        return LoadPlan { segments, outcome: Err(LoadError::BadSegmentTable) };
    }
    let entry_addr = e_entry.wrapping_add(load_bias);
    match validate_entry(entry_addr, brk) {
        Ok(()) => {},
        Err(e) => {
            return LoadPlan { segments, outcome: Err(e) };
        },
    }
    LoadPlan { segments, outcome: Ok((entry_addr, brk)) }
}

proof fn lemma_scan_sound(d: Seq<u8>, phoff: int, phentsize: int, bias: u64, n: nat)
    requires
        d.len() <= isize::MAX,
    ensures
        forall|k: int|
            0 <= k < scan(d, phoff, phentsize, bias, n).segments.len() ==> {
                let seg = #[trigger] scan(d, phoff, phentsize, bias, n).segments[k];
                &&& placed(seg)
                &&& seg.file_off + seg.file_size <= d.len()
                &&& seg.vaddr + seg.mem_size <= scan(d, phoff, phentsize, bias, n).brk
            },
    decreases n,
{
    if n > 0 {
        lemma_scan_sound(d, phoff, phentsize, bias, (n - 1) as nat);
    }
}

/// Loading an ELF image never maps anything outside user space or at
/// address 0, never reads past the end of the image, and on success enters
/// at a non-null address below the stack, with every mapped segment ending
/// at or below the reported end of data.
pub proof fn lemma_plan_safe(d: Seq<u8>)
    requires
        d.len() <= isize::MAX,
    ensures
        forall|k: int|
            0 <= k < plan(d).0.len() ==> {
                let seg = #[trigger] plan(d).0[k];
                &&& placed(seg)
                &&& seg.file_off + seg.file_size <= d.len()
            },
        plan(d).1 matches Ok((entry, brk)) ==> {
            &&& 0 < entry < USER_STACK_BASE
            &&& forall|k: int|
                0 <= k < plan(d).0.len() ==> (#[trigger] plan(d).0[k]).vaddr + plan(d).0[k].mem_size
                    <= brk
        },
{
    if header_check(d) is Ok && le16(d, 54) >= PHDR_SIZE {
        lemma_scan_sound(d, le64(d, 32) as int, le16(d, 54) as int, load_bias(le16(d, 16)), le16(d, 56) as nat);
    }
}

/// The program headers of `d`, where its header places them.
pub open spec fn program_headers(d: Seq<u8>) -> Seq<ProgramHeader> {
    Seq::new(le16(d, 56) as nat, |i: int| phdr_at(d, le64(d, 32) + i * le16(d, 54)))
}

/// The segment a program header asks for, the image placed at `bias`: one
/// for each loadable header that takes memory.
pub open spec fn loadable(bias: u64) -> spec_fn(ProgramHeader) -> Option<SegmentSpec> {
    |p: ProgramHeader|
        if p.p_type == PT_LOAD && p.p_memsz > 0 {
            Some(
                SegmentSpec {
                    vaddr: p.p_vaddr.wrapping_add(bias),
                    mem_size: p.p_memsz,
                    file_off: p.p_offset,
                    file_size: p.p_filesz,
                    flags: segment_flags(p.p_flags & PF_W != 0, p.p_flags & PF_X != 0),
                },
            )
        } else {
            None
        }
}

proof fn lemma_scan_maps(d: Seq<u8>, phoff: int, phentsize: int, bias: u64, n: nat)
    requires
        d.len() <= isize::MAX,
        scan(d, phoff, phentsize, bias, n).error is None,
    ensures
        scan(d, phoff, phentsize, bias, n).segments == Seq::new(
            n,
            |i: int| phdr_at(d, phoff + i * phentsize),
        ).filter_map(loadable(bias)),
        scan(d, phoff, phentsize, bias, n).segments.len() == 0 ==> scan(
            d,
            phoff,
            phentsize,
            bias,
            n,
        ).brk == 0,
        scan(d, phoff, phentsize, bias, n).segments.len() > 0 ==> exists|k: int|
            0 <= k < scan(d, phoff, phentsize, bias, n).segments.len() && (#[trigger] scan(
                d,
                phoff,
                phentsize,
                bias,
                n,
            ).segments[k]).vaddr + scan(d, phoff, phentsize, bias, n).segments[k].mem_size == scan(
                d,
                phoff,
                phentsize,
                bias,
                n,
            ).brk,
    decreases n,
{
    let hs = Seq::new(n, |i: int| phdr_at(d, phoff + i * phentsize));
    if n > 0 {
        let m = (n - 1) as nat;
        let prev = scan(d, phoff, phentsize, bias, m);
        assert(prev.error is None);
        lemma_scan_maps(d, phoff, phentsize, bias, m);
        lemma_scan_sound(d, phoff, phentsize, bias, n);
        let hp = Seq::new(m, |i: int| phdr_at(d, phoff + i * phentsize));
        assert(hs.drop_last() =~= hp);
        assert(hs.last() == phdr_at(d, phoff + m * phentsize));
        let cur = scan(d, phoff, phentsize, bias, n);
        if cur.segments.len() > prev.segments.len() {
            let k = cur.segments.len() - 1;
            assert(placed(cur.segments[k]));
            if prev.segments.len() > 0 {
                let j = choose|j: int|
                    0 <= j < prev.segments.len() && (#[trigger] prev.segments[j]).vaddr
                        + prev.segments[j].mem_size == prev.brk;
                assert(cur.segments[j] == prev.segments[j]);
            }
        } else {
            assert(cur.segments == prev.segments);
            if prev.segments.len() > 0 {
                let j = choose|j: int|
                    0 <= j < prev.segments.len() && (#[trigger] prev.segments[j]).vaddr
                        + prev.segments[j].mem_size == prev.brk;
                assert(cur.segments[j] == prev.segments[j]);
            }
        }
    } else {
        assert(hs =~= Seq::<ProgramHeader>::empty());
    }
}

/// A successful load maps one segment for every loadable program header
/// that takes memory, in header order, at the header's address (plus the
/// load bias) with its sizes and file offset, and nothing else; its end of
/// data is the highest end among those segments.
pub proof fn lemma_plan_maps_loadable_headers(d: Seq<u8>)
    requires
        d.len() <= isize::MAX,
    ensures
        plan(d).1 is Ok ==> plan(d).0 == program_headers(d).filter_map(loadable(load_bias(le16(d, 16)))),
        plan(d).1 matches Ok((_, brk)) ==> exists|k: int|
            0 <= k < plan(d).0.len() && (#[trigger] plan(d).0[k]).vaddr + plan(d).0[k].mem_size == brk,
        plan(d).1 matches Ok((_, brk)) ==> forall|k: int|
            0 <= k < plan(d).0.len() ==> (#[trigger] plan(d).0[k]).vaddr + plan(d).0[k].mem_size <= brk,
{
    lemma_plan_safe(d);
    if plan(d).1 is Ok {
        let phoff = le64(d, 32) as int;
        let phentsize = le16(d, 54) as int;
        let bias = load_bias(le16(d, 16));
        let n = le16(d, 56) as nat;
        lemma_scan_maps(d, phoff, phentsize, bias, n);
        assert(program_headers(d) =~= Seq::new(n, |i: int| phdr_at(d, phoff + i * phentsize)));
    }
}

} // verus!
