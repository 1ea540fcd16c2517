//! ABO (Application Bundle Object), the native binary format.
//!
//! Layout, all integers little-endian:
//!
//! | offset | size | field                                          |
//! |--------|------|------------------------------------------------|
//! | 0      | 4    | magic `ABO\0`                                  |
//! | 4      | 2    | major version (0)                              |
//! | 6      | 2    | minor version                                  |
//! | 8      | 16   | component UUID                                 |
//! | 24     | 4    | flags: bit 0 native code, bit 1 WASM           |
//! | 28     | 4    | manifest offset                                |
//! | 32     | 4    | manifest size                                  |
//! | 36     | 4    | segment table offset                           |
//! | 40     | 4    | number of native segments                      |
//! | 44     | 4    | entry point, as an offset into the first executable segment |
//! | 48     | 4    | WASM section offset (0 if none)                |
//! | 52     | 4    | WASM section size                              |
//! | 56     | 8    | reserved (zero)                                |
//!
//! Each entry of the segment table takes 32 bytes: virtual address (8),
//! size in memory (8), offset of the data in the file (8), size of the data
//! in the file (4), flags (4: bit 0 R, bit 1 W, bit 2 X).
//!
//! The manifest is text, one `KEY=VALUE` per line: `CAP_REQ=` for a
//! required capability, `CAP_EXP=` for an exported service, `SANDBOX=` for
//! a restriction, `NAME=` and `VERSION=`.
use vstd::prelude::*;
use vstd::bytes::{
    lemma_auto_spec_u16_to_from_le_bytes, lemma_auto_spec_u32_to_from_le_bytes,
    lemma_auto_spec_u64_to_from_le_bytes, spec_u16_to_le_bytes, spec_u32_to_le_bytes,
    spec_u64_to_le_bytes, u16_to_le_bytes, u32_to_le_bytes, u64_to_le_bytes,
};
use vstd::slice::slice_subrange;
use crate::loader::{
    le16, le32, le64, read_u16, read_u32, read_u64, sat_add, LoadError, LoadPlan, SegmentSpec,
    USER_STACK_BASE,
};
use crate::loader::segments::{check_segment, page_flags, placed, segment_check, segment_flags};
use crate::mm::user_ptr::USER_SPACE_END;

verus! {

pub const ABO_VERSION_MAJ: u16 = 0;

pub const FLAG_NATIVE: u32 = 1;

pub const FLAG_WASM: u32 = 2;

pub const SEG_FLAG_R: u32 = 1;

pub const SEG_FLAG_W: u32 = 2;

pub const SEG_FLAG_X: u32 = 4;

pub const ABO_HEADER_SIZE: usize = 64;

/// Bytes of one entry of the segment table.
pub const SEGMENT_SIZE: usize = 32;

// ----- Manifest -----

/// `s` cut at every newline byte, as `split` on slices cuts it: there is
/// always one more line than there are newlines.
pub open spec fn lines(s: Seq<u8>) -> Seq<Seq<u8>>
    decreases s.len(),
{
    if s.len() == 0 {
        seq![Seq::empty()]
    } else {
        let init = lines(s.drop_last());
        if s.last() == 10u8 {
            init.push(Seq::empty())
        } else {
            init.update(init.len() - 1, init.last().push(s.last()))
        }
    }
}

proof fn lemma_lines_nonempty(s: Seq<u8>)
    ensures
        lines(s).len() >= 1,
    decreases s.len(),
{
    if s.len() > 0 {
        lemma_lines_nonempty(s.drop_last());
    }
}

/// What remains of a line after `prefix`, for lines that start with it.
pub open spec fn strip_prefix(prefix: Seq<u8>) -> spec_fn(Seq<u8>) -> Option<Seq<u8>> {
    |l: Seq<u8>|
        if prefix.is_prefix_of(l) {
            Some(l.skip(prefix.len() as int))
        } else {
            None
        }
}

/// The values of the lines of `raw` that start with `prefix`, in order.
pub open spec fn prefixed_values(raw: Seq<u8>, prefix: Seq<u8>) -> Seq<Seq<u8>> {
    lines(raw).filter_map(strip_prefix(prefix))
}

pub open spec fn cap_req_key() -> Seq<u8> {
    seq![67u8, 65u8, 80u8, 95u8, 82u8, 69u8, 81u8, 61u8]
}

pub open spec fn sandbox_key() -> Seq<u8> {
    seq![83u8, 65u8, 78u8, 68u8, 66u8, 79u8, 88u8, 61u8]
}

fn starts_with(line: &[u8], prefix: &[u8]) -> (r: bool)
    ensures
        r == prefix@.is_prefix_of(line@),
{
    if prefix.len() > line.len() {
        return false;
    }
    let mut i: usize = 0;
    while i < prefix.len()
        invariant
            prefix@.len() <= line@.len(),
            0 <= i <= prefix@.len(),
            forall|j: int| 0 <= j < i ==> prefix@[j] == line@[j],
        decreases prefix@.len() - i,
    {
        if prefix[i] != line[i] {
            return false;
        }
        i = i + 1;
    }
    assert(prefix@ =~= line@.subrange(0, prefix@.len() as int));
    true
}

fn bytes_eq(a: &[u8], b: &[u8]) -> (r: bool)
    ensures
        r == (a@ == b@),
{
    if a.len() != b.len() {
        return false;
    }
    let mut i: usize = 0;
    while i < a.len()
        invariant
            a@.len() == b@.len(),
            0 <= i <= a@.len(),
            forall|j: int| 0 <= j < i ==> a@[j] == b@[j],
        decreases a@.len() - i,
    {
        if a[i] != b[i] {
            return false;
        }
        i = i + 1;
    }
    assert(a@ =~= b@);
    true
}

/// `bounds` cut the lines `ls` out of `raw`, one pair per line.
pub open spec fn bounds_cut(raw: Seq<u8>, bounds: Seq<(usize, usize)>, ls: Seq<Seq<u8>>) -> bool {
    forall|k: int|
        0 <= k < bounds.len() ==> {
            &&& bounds[k].0 <= bounds[k].1 <= raw.len()
            &&& raw.subrange(#[trigger] bounds[k].0 as int, bounds[k].1 as int) == ls[k]
        }
}

/// Start and end of each line of `raw`.
#[verifier::spinoff_prover]
fn line_bounds(raw: &[u8]) -> (r: Vec<(usize, usize)>)
    ensures
        r@.len() == lines(raw@).len(),
        bounds_cut(raw@, r@, lines(raw@)),
{
    let mut out: Vec<(usize, usize)> = Vec::new();
    let mut start: usize = 0;
    let mut i: usize = 0;
    assert(raw@.take(0) =~= Seq::<u8>::empty());
    while i < raw.len()
        invariant
            0 <= start <= i <= raw@.len(),
            lines(raw@.take(i as int)).len() == out@.len() + 1,
            bounds_cut(raw@, out@, lines(raw@.take(i as int))),
            lines(raw@.take(i as int))[out@.len() as int] == raw@.subrange(start as int, i as int),
        decreases raw@.len() - i,
    {
        let ghost t = raw@.take(i + 1);
        let ghost old_out = out@;
        let ghost ls = lines(raw@.take(i as int));
        assert(t.drop_last() =~= raw@.take(i as int));
        assert(t.last() == raw@[i as int]);
        proof {
            lemma_lines_nonempty(raw@.take(i as int));
        }
        if raw[i] == 10u8 {
            out.push((start, i));
            assert(lines(t) == ls.push(Seq::empty()));
            assert forall|k: int| 0 <= k < out@.len() implies {
                &&& out@[k].0 <= out@[k].1 <= raw@.len()
                &&& raw@.subrange(#[trigger] out@[k].0 as int, out@[k].1 as int) == lines(t)[k]
            } by {
                if k < old_out.len() {
                    assert(out@[k] == old_out[k]);
                    assert(raw@.subrange(old_out[k].0 as int, old_out[k].1 as int) == ls[k]);
                }
            }
            start = i + 1;
            assert(raw@.subrange(start as int, (i + 1) as int) =~= Seq::<u8>::empty());
        } else {
            assert(lines(t) == ls.update(ls.len() - 1, ls.last().push(raw@[i as int])));
            assert(raw@.subrange(start as int, (i + 1) as int) =~= raw@.subrange(
                start as int,
                i as int,
            ).push(raw@[i as int]));
            assert forall|k: int| 0 <= k < out@.len() implies {
                &&& out@[k].0 <= out@[k].1 <= raw@.len()
                &&& raw@.subrange(#[trigger] out@[k].0 as int, out@[k].1 as int) == lines(t)[k]
            } by {
                assert(raw@.subrange(out@[k].0 as int, out@[k].1 as int) == ls[k]);
            }
        }
        i = i + 1;
        assert(t == raw@.take(i as int));
    }
    assert(raw@.take(i as int) =~= raw@);
    assert(lines(raw@.take(i as int)) == lines(raw@));
    assert(bounds_cut(raw@, out@, lines(raw@)));
    let ghost before = out@;
    out.push((start, raw.len()));
    assert forall|k: int| 0 <= k < out@.len() implies {
        &&& out@[k].0 <= out@[k].1 <= raw@.len()
        &&& raw@.subrange(#[trigger] out@[k].0 as int, out@[k].1 as int) == lines(raw@)[k]
    } by {
        if k < before.len() {
            assert(out@[k] == before[k]);
            assert(raw@.subrange(before[k].0 as int, before[k].1 as int) == lines(raw@)[k]);
        } else {
            assert(out@[k] == (start, raw@.len() as usize));
        }
    }
    assert(bounds_cut(raw@, out@, lines(raw@)));
    assert(out@.len() == lines(raw@).len());
    out
}

/// A manifest: the raw text of its lines.
pub struct Manifest<'a> {
    pub raw: &'a [u8],
}

impl<'a> Manifest<'a> {
    pub fn new(raw: &'a [u8]) -> (m: Manifest<'a>)
        ensures
            m.raw@ == raw@,
    {
        Manifest { raw }
    }

    /// The values of the lines that start with `prefix`.
    pub fn lines_with_prefix(&self, prefix: &[u8]) -> (r: Vec<&'a [u8]>)
        ensures
            r@.map_values(|v: &[u8]| v@) == prefixed_values(self.raw@, prefix@),
    {
        let bounds = line_bounds(self.raw);
        let ghost ls = lines(self.raw@);
        let ghost f = strip_prefix(prefix@);
        let mut out: Vec<&'a [u8]> = Vec::new();
        let mut k: usize = 0;
        while k < bounds.len()
            invariant
                bounds@.len() == ls.len(),
                ls == lines(self.raw@),
                f == strip_prefix(prefix@),
                bounds_cut(self.raw@, bounds@, ls),
                0 <= k <= bounds@.len(),
                out@.map_values(|v: &[u8]| v@) == ls.take(k as int).filter_map(f),
            decreases bounds@.len() - k,
        {
            let (a, b) = bounds[k];
            let line = slice_subrange(self.raw, a, b);
            assert(line@ == ls[k as int]);
            proof {
                ls.lemma_filter_map_take_succ(f, k as int);
            }
            if starts_with(line, prefix) {
                let value = slice_subrange(line, prefix.len(), line.len());
                out.push(value);
                assert(out@.map_values(|v: &[u8]| v@) =~= ls.take(k + 1).filter_map(f));
            } else {
                assert(out@.map_values(|v: &[u8]| v@) =~= ls.take(k + 1).filter_map(f));
            }
            k = k + 1;
        }
        assert(ls.take(k as int) =~= ls);
        out
    }

    /// The required capabilities (`CAP_REQ=` lines).
    pub fn cap_required(&self) -> (r: Vec<&'a [u8]>)
        ensures
            r@.map_values(|v: &[u8]| v@) == prefixed_values(self.raw@, cap_req_key()),
    {
        let key: [u8; 8] = [67u8, 65u8, 80u8, 95u8, 82u8, 69u8, 81u8, 61u8];
        assert(key@ =~= cap_req_key());
        self.lines_with_prefix(key.as_slice())
    }

    /// Some `SANDBOX=` line has exactly the value `key`.
    pub fn has_sandbox(&self, key: &[u8]) -> (r: bool)
        ensures
            r == prefixed_values(self.raw@, sandbox_key()).contains(key@),
    {
        let prefix: [u8; 8] = [83u8, 65u8, 78u8, 68u8, 66u8, 79u8, 88u8, 61u8];
        assert(prefix@ =~= sandbox_key());
        let values = self.lines_with_prefix(prefix.as_slice());
        let ghost vs = values@.map_values(|v: &[u8]| v@);
        let mut i: usize = 0;
        while i < values.len()
            invariant
                vs == values@.map_values(|v: &[u8]| v@),
                vs == prefixed_values(self.raw@, sandbox_key()),
                0 <= i <= values@.len(),
                forall|j: int| 0 <= j < i ==> vs[j] != key@,
            decreases values@.len() - i,
        {
            if bytes_eq(values[i], key) {
                assert(vs[i as int] == key@);
                return true;
            }
            i = i + 1;
        }
        false
    }
}

// ----- Header -----

pub open spec fn abo_magic() -> Seq<u8> {
    seq![65u8, 66u8, 79u8, 0u8]
}

/// The fields of an ABO header.
#[derive(Clone, Copy)]
pub struct AboHeader {
    pub version_major: u16,
    pub version_minor: u16,
    pub uuid: [u8; 16],
    pub flags: u32,
    pub manifest_off: u32,
    pub manifest_size: u32,
    pub segments_off: u32,
    pub segments_count: u32,
    pub entry_offset: u32,
    pub wasm_off: u32,
    pub wasm_size: u32,
}

/// Whether `d` starts with a header of a supported version.
pub open spec fn header_check(d: Seq<u8>) -> Result<(), LoadError> {
    if d.len() < ABO_HEADER_SIZE {
        Err(LoadError::TooSmall)
    } else if d.subrange(0, 4) != abo_magic() {
        Err(LoadError::BadMagic)
    } else if le16(d, 4) != ABO_VERSION_MAJ {
        Err(LoadError::UnsupportedVersion)
    } else {
        Ok(())
    }
}

/// `h` holds the header fields stored in `d`.
pub open spec fn header_fields(h: AboHeader, d: Seq<u8>) -> bool {
    &&& h.version_major == le16(d, 4)
    &&& h.version_minor == le16(d, 6)
    &&& h.uuid@ == d.subrange(8, 24)
    &&& h.flags == le32(d, 24)
    &&& h.manifest_off == le32(d, 28)
    &&& h.manifest_size == le32(d, 32)
    &&& h.segments_off == le32(d, 36)
    &&& h.segments_count == le32(d, 40)
    &&& h.entry_offset == le32(d, 44)
    &&& h.wasm_off == le32(d, 48)
    &&& h.wasm_size == le32(d, 52)
}

fn parse_header(data: &[u8]) -> (r: Result<AboHeader, LoadError>)
    ensures
        match r {
            Ok(h) => header_check(data@) is Ok && header_fields(h, data@),
            Err(e) => header_check(data@) == Err::<(), LoadError>(e),
        },
{
    if data.len() < ABO_HEADER_SIZE {
        return Err(LoadError::TooSmall);
    }
    if data[0] != 65u8 || data[1] != 66u8 || data[2] != 79u8 || data[3] != 0u8 {
        assert(data@.subrange(0, 4) != abo_magic()) by {
            if data@.subrange(0, 4) == abo_magic() {
                assert(data@.subrange(0, 4)[0] == data@[0]);
                assert(data@.subrange(0, 4)[1] == data@[1]);
                assert(data@.subrange(0, 4)[2] == data@[2]);
                assert(data@.subrange(0, 4)[3] == data@[3]);
            }
        }
        return Err(LoadError::BadMagic);
    }
    assert(data@.subrange(0, 4) =~= abo_magic());
    let version_major = read_u16(data, 4);
    if version_major != ABO_VERSION_MAJ {
        return Err(LoadError::UnsupportedVersion);
    }
    let mut uuid = [0u8; 16];
    let mut i: usize = 0;
    while i < 16
        invariant
            data@.len() >= 64,
            0 <= i <= 16,
            uuid@.len() == 16,
            forall|j: int| 0 <= j < i ==> uuid@[j] == data@[8 + j],
        decreases 16 - i,
    {
        uuid[i] = data[8 + i];
        i = i + 1;
    }
    assert(uuid@ =~= data@.subrange(8, 24));
    Ok(
        AboHeader {
            version_major,
            version_minor: read_u16(data, 6),
            uuid,
            flags: read_u32(data, 24),
            manifest_off: read_u32(data, 28),
            manifest_size: read_u32(data, 32),
            segments_off: read_u32(data, 36),
            segments_count: read_u32(data, 40),
            entry_offset: read_u32(data, 44),
            wasm_off: read_u32(data, 48),
            wasm_size: read_u32(data, 52),
        },
    )
}

/// The manifest at `off` of `size` bytes; an empty one when `size` is 0.
pub open spec fn manifest_check(d: Seq<u8>, off: usize, size: usize) -> Result<Seq<u8>, LoadError> {
    if size == 0 {
        Ok(Seq::empty())
    } else if off + size > usize::MAX {
        Err(LoadError::SegmentOverflow)
    } else if off + size > d.len() {
        Err(LoadError::SegmentOutOfFile)
    } else {
        Ok(d.subrange(off as int, off + size))
    }
}

fn extract_manifest<'a>(data: &'a [u8], off: usize, size: usize) -> (r: Result<Manifest<'a>, LoadError>)
    ensures
        match r {
            Ok(m) => manifest_check(data@, off, size) == Ok::<Seq<u8>, LoadError>(m.raw@),
            Err(e) => manifest_check(data@, off, size) == Err::<Seq<u8>, LoadError>(e),
        },
{
    if size == 0 {
        let empty = slice_subrange(data, 0, 0);
        assert(empty@ =~= Seq::<u8>::empty());
        return Ok(Manifest::new(empty));
    }
    let end = match off.checked_add(size) {
        Some(e) => e,
        None => {
            return Err(LoadError::SegmentOverflow);
        },
    };
    if end > data.len() {
        return Err(LoadError::SegmentOutOfFile);
    }
    Ok(Manifest::new(slice_subrange(data, off, end)))
}

/// Every capability the manifest requires is granted: no capability is
/// checked yet, so every manifest passes.
fn verify_capabilities(manifest: &Manifest) -> (r: Result<(), LoadError>)
    ensures
        r is Ok,
{
    let caps = manifest.cap_required();
    let mut i: usize = 0;
    while i < caps.len()
        invariant
            0 <= i <= caps@.len(),
        decreases caps@.len() - i,
    {
        i = i + 1;
    }
    Ok(())
}

// ----- Segments -----

/// One entry of the segment table.
#[derive(Clone, Copy)]
pub struct AboSegment {
    pub vaddr: u64,
    pub mem_size: u64,
    pub file_off: u64,
    pub file_size: u32,
    pub flags: u32,
}

/// The segment table entry at `off` in `d`.
pub open spec fn segment_at(d: Seq<u8>, off: int) -> AboSegment {
    AboSegment {
        vaddr: le64(d, off),
        mem_size: le64(d, off + 8),
        file_off: le64(d, off + 16),
        file_size: le32(d, off + 24),
        flags: le32(d, off + 28),
    }
}

/// What is wrong with a segment, if anything: its data must lie in the
/// file and its memory in user space.
pub open spec fn segment_error(d: Seq<u8>, s: AboSegment) -> Option<LoadError> {
    if s.file_off + s.file_size > u64::MAX {
        Some(LoadError::SegmentOverflow)
    } else if s.file_off + s.file_size > d.len() {
        Some(LoadError::SegmentOutOfFile)
    } else {
        match segment_check(s.vaddr, s.mem_size) {
            Err(e) => Some(e),
            Ok(_) => None,
        }
    }
}

/// The segment as the mapper takes it.
pub open spec fn to_spec(s: AboSegment) -> SegmentSpec {
    SegmentSpec {
        vaddr: s.vaddr,
        mem_size: s.mem_size,
        file_off: s.file_off,
        file_size: s.file_size as u64,
        flags: segment_flags(s.flags & SEG_FLAG_W != 0, s.flags & SEG_FLAG_X != 0),
    }
}

/// The state of a walk over the segment table: the segments to map so far,
/// the highest segment end, the address of the first executable segment
/// (0 while there is none), and the error that stopped the walk.
#[verifier::ext_equal]
pub struct Scan {
    pub segments: Seq<SegmentSpec>,
    pub brk: u64,
    pub first_exec: u64,
    pub error: Option<LoadError>,
}

/// The walk over the first `n` entries of the table at `table`.
pub open spec fn scan(d: Seq<u8>, table: int, n: nat) -> Scan
    decreases n,
{
    if n == 0 {
        Scan { segments: Seq::empty(), brk: 0, first_exec: 0, error: None }
    } else {
        let p = scan(d, table, (n - 1) as nat);
        if p.error is Some {
            p
        } else {
            let s = segment_at(d, table + SEGMENT_SIZE * (n - 1));
            match segment_error(d, s) {
                Some(e) => Scan { error: Some(e), ..p },
                None => Scan {
                    segments: if s.mem_size > 0 {
                        p.segments.push(to_spec(s))
                    } else {
                        p.segments
                    },
                    brk: if sat_add(s.vaddr, s.mem_size) > p.brk {
                        sat_add(s.vaddr, s.mem_size)
                    } else {
                        p.brk
                    },
                    first_exec: if s.flags & SEG_FLAG_X != 0 && p.first_exec == 0 {
                        s.vaddr
                    } else {
                        p.first_exec
                    },
                    error: None,
                },
            }
        }
    }
}

proof fn lemma_scan_stops(d: Seq<u8>, table: int, n: nat, m: nat)
    requires
        n <= m,
        scan(d, table, n).error is Some,
    ensures
        scan(d, table, m) == scan(d, table, n),
    decreases m - n,
{
    if n < m {
        lemma_scan_stops(d, table, n, (m - 1) as nat);
    }
}

/// The plan once the whole table has been walked: the walk's error, if
/// any; otherwise the entry point, `entry_offset` past the first
/// executable segment, which must be neither 0 nor in the stack area.
pub open spec fn scan_outcome(s: Scan, entry_offset: u32) -> (Seq<SegmentSpec>, Result<(u64, u64), LoadError>) {
    match s.error {
        Some(e) => (s.segments, Err(e)),
        None => if s.first_exec == 0 {
            (s.segments, Err(LoadError::InvalidEntryPoint))
        } else {
            let entry = sat_add(s.first_exec, entry_offset as u64);
            if entry >= USER_STACK_BASE || entry == 0 {
                (s.segments, Err(LoadError::InvalidEntryPoint))
            } else {
                (s.segments, Ok((entry, s.brk)))
            }
        },
    }
}

/// How to load the ABO image `d`.
pub open spec fn plan(d: Seq<u8>) -> (Seq<SegmentSpec>, Result<(u64, u64), LoadError>) {
    match header_check(d) {
        Err(e) => (Seq::empty(), Err(e)),
        Ok(_) => {
            let flags = le32(d, 24);
            let count = le32(d, 40);
            let table = le32(d, 36) as int;
            match manifest_check(d, le32(d, 28) as usize, le32(d, 32) as usize) {
                Err(e) => (Seq::empty(), Err(e)),
                Ok(_) => if flags & FLAG_NATIVE == 0 && flags & FLAG_WASM == 0 {
                    (Seq::empty(), Err(LoadError::UnsupportedFormat))
                } else if flags & FLAG_NATIVE == 0 {
                    (Seq::empty(), Err(LoadError::InvalidEntryPoint))
                } else if count == 0 || table + SEGMENT_SIZE * count > d.len() {
                    (Seq::empty(), Err(LoadError::BadSegmentTable))
                } else {
                    scan_outcome(scan(d, table, count as nat), le32(d, 44))
                },
            }
        },
    }
}

fn read_segment(data: &[u8], off: usize) -> (r: AboSegment)
    requires
        off + SEGMENT_SIZE <= data.len(),
    ensures
        r == segment_at(data@, off as int),
{
    AboSegment {
        vaddr: read_u64(data, off),
        mem_size: read_u64(data, off + 8),
        file_off: read_u64(data, off + 16),
        file_size: read_u32(data, off + 24),
        flags: read_u32(data, off + 28),
    }
}

/// Works out how to load the ABO image `data`.
pub fn load(data: &[u8]) -> (r: LoadPlan)
    ensures
        (r.segments@, r.outcome) == plan(data@),
{
    let hdr = match parse_header(data) {
        Ok(h) => h,
        Err(e) => {
            return LoadPlan { segments: Vec::new(), outcome: Err(e) };
        },
    };
    let flags = hdr.flags;
    let segments_off = hdr.segments_off as u64;
    let segments_count = hdr.segments_count as u64;
    let entry_offset = hdr.entry_offset as u64;
    let manifest = match extract_manifest(data, hdr.manifest_off as usize, hdr.manifest_size as usize) {
        Ok(m) => m,
        Err(e) => {
            return LoadPlan { segments: Vec::new(), outcome: Err(e) };
        },
    };
    match verify_capabilities(&manifest) {
        Ok(()) => {},
        Err(e) => {
            return LoadPlan { segments: Vec::new(), outcome: Err(e) };
        },
    }
    if flags & FLAG_NATIVE == 0 && flags & FLAG_WASM == 0 {
        return LoadPlan { segments: Vec::new(), outcome: Err(LoadError::UnsupportedFormat) };
    }
    if flags & FLAG_NATIVE == 0 {
        return LoadPlan { segments: Vec::new(), outcome: Err(LoadError::InvalidEntryPoint) };
    }
    if segments_count == 0 {
        return LoadPlan { segments: Vec::new(), outcome: Err(LoadError::BadSegmentTable) };
    }
    let table_end = segments_off + segments_count * 32;
    if table_end > data.len() as u64 {
        return LoadPlan { segments: Vec::new(), outcome: Err(LoadError::BadSegmentTable) };
    }
    let ghost d = data@;
    let ghost table = segments_off as int;
    assert(plan(d) == scan_outcome(scan(d, table, segments_count as nat), le32(d, 44)));
    let mut segments: Vec<SegmentSpec> = Vec::new();
    let mut brk: u64 = 0;
    let mut first_exec: u64 = 0;
    let mut i: u64 = 0;
    while i < segments_count
        invariant
            d == data@,
            table == segments_off,
            entry_offset == le32(d, 44),
            plan(d) == scan_outcome(scan(d, table, segments_count as nat), le32(d, 44)),
            segments_off + segments_count * 32 <= data.len(),
            data@.len() == data.len(),
            0 <= i <= segments_count,
            scan(d, table, i as nat) == (Scan {
                segments: segments@,
                brk,
                first_exec,
                error: None,
            }),
        decreases segments_count - i,
    {
        assert(i * 32 + 32 <= segments_count * 32) by (nonlinear_arith)
            requires
                i < segments_count,
        ;
        let off = segments_off + i * 32;
        let s = read_segment(data, off as usize);
        assert(s == segment_at(d, table + SEGMENT_SIZE * i));
        let fend = match s.file_off.checked_add(s.file_size as u64) {
            Some(e) => e,
            None => {
                proof {
                    lemma_scan_stops(d, table, (i + 1) as nat, segments_count as nat);
                }
                return LoadPlan { segments, outcome: Err(LoadError::SegmentOverflow) };
            },
        };
        if fend > data.len() as u64 {
            proof {
                lemma_scan_stops(d, table, (i + 1) as nat, segments_count as nat);
            }
            return LoadPlan { segments, outcome: Err(LoadError::SegmentOutOfFile) };
        }
        let page = page_flags(s.flags & SEG_FLAG_W != 0, s.flags & SEG_FLAG_X != 0);
        match check_segment(s.vaddr, s.mem_size) {
            Ok(()) => {},
            Err(e) => {
                proof {
                    lemma_scan_stops(d, table, (i + 1) as nat, segments_count as nat);
                }
                return LoadPlan { segments, outcome: Err(e) };
            },
        }
        if s.mem_size > 0 {
            segments.push(
                SegmentSpec {
                    vaddr: s.vaddr,
                    mem_size: s.mem_size,
                    file_off: s.file_off,
                    file_size: s.file_size as u64,
                    flags: page,
                },
            );
        }
        if s.flags & SEG_FLAG_X != 0 && first_exec == 0 {
            first_exec = s.vaddr;
        }
        let seg_end = s.vaddr.saturating_add(s.mem_size);
        if seg_end > brk {
            brk = seg_end;
        }
        i = i + 1;
        assert(scan(d, table, i as nat) =~= (Scan { segments: segments@, brk, first_exec, error: None }));
    }
    if first_exec == 0 {
        return LoadPlan { segments, outcome: Err(LoadError::InvalidEntryPoint) };
    }
    let entry = first_exec.saturating_add(entry_offset);
    if entry >= USER_STACK_BASE || entry == 0 {
        return LoadPlan { segments, outcome: Err(LoadError::InvalidEntryPoint) };
    }
    LoadPlan { segments, outcome: Ok((entry, brk)) }
}

// ----- Building images -----

/// The bytes of a header: magic, version 0.0, the given fields, and zeros
/// for the WASM section and the reserved word.
pub open spec fn header_bytes(
    uuid: Seq<u8>,
    flags: u32,
    manifest_off: u32,
    manifest_size: u32,
    segments_off: u32,
    segments_count: u32,
    entry_offset: u32,
) -> Seq<u8> {
    abo_magic() + spec_u16_to_le_bytes(0) + spec_u16_to_le_bytes(0) + uuid + spec_u32_to_le_bytes(
        flags,
    ) + spec_u32_to_le_bytes(manifest_off) + spec_u32_to_le_bytes(manifest_size)
        + spec_u32_to_le_bytes(segments_off) + spec_u32_to_le_bytes(segments_count)
        + spec_u32_to_le_bytes(entry_offset) + Seq::new(16, |i: int| 0u8)
}

/// The bytes of a segment table entry.
pub open spec fn segment_entry_bytes(
    vaddr: u64,
    mem_size: u64,
    file_off: u64,
    file_size: u32,
    flags: u32,
) -> Seq<u8> {
    spec_u64_to_le_bytes(vaddr) + spec_u64_to_le_bytes(mem_size) + spec_u64_to_le_bytes(file_off)
        + spec_u32_to_le_bytes(file_size) + spec_u32_to_le_bytes(flags)
}

fn put_bytes<const N: usize>(buf: &mut [u8; N], off: usize, bytes: &Vec<u8>)
    requires
        off + bytes@.len() <= N,
        old(buf)@.len() == N,
    ensures
        final(buf)@.len() == N,
        final(buf)@ == old(buf)@.take(off as int) + bytes@ + old(buf)@.skip(off + bytes@.len()),
{
    let ghost b0 = buf@;
    let mut i: usize = 0;
    while i < bytes.len()
        invariant
            off + bytes@.len() <= N,
            buf@.len() == N,
            b0.len() == N,
            0 <= i <= bytes@.len(),
            buf@ == b0.take(off as int) + bytes@.take(i as int) + b0.skip(off + i),
        decreases bytes@.len() - i,
    {
        buf[off + i] = bytes[i];
        i = i + 1;
        assert(buf@ =~= b0.take(off as int) + bytes@.take(i as int) + b0.skip(off + i));
    }
    assert(bytes@.take(i as int) =~= bytes@);
}

/// The 64 header bytes of an ABO image with the given fields.
pub fn build_header(
    uuid: [u8; 16],
    flags: u32,
    manifest_off: u32,
    manifest_size: u32,
    segments_off: u32,
    segments_count: u32,
    entry_offset: u32,
) -> (r: [u8; 64])
    ensures
        r@ == header_bytes(
            uuid@,
            flags,
            manifest_off,
            manifest_size,
            segments_off,
            segments_count,
            entry_offset,
        ),
{
    let mut buf = [0u8; 64];
    let magic: Vec<u8> = vec![65u8, 66u8, 79u8, 0u8];
    let mut uuid_bytes: Vec<u8> = Vec::new();
    let mut i: usize = 0;
    while i < 16
        invariant
            0 <= i <= 16,
            uuid_bytes@ == uuid@.take(i as int),
        decreases 16 - i,
    {
        uuid_bytes.push(uuid[i]);
        i = i + 1;
        assert(uuid_bytes@ =~= uuid@.take(i as int));
    }
    assert(uuid@.take(16) =~= uuid@);
    put_bytes(&mut buf, 0, &magic);
    put_bytes(&mut buf, 4, &u16_to_le_bytes(0));
    put_bytes(&mut buf, 6, &u16_to_le_bytes(0));
    put_bytes(&mut buf, 8, &uuid_bytes);
    put_bytes(&mut buf, 24, &u32_to_le_bytes(flags));
    put_bytes(&mut buf, 28, &u32_to_le_bytes(manifest_off));
    put_bytes(&mut buf, 32, &u32_to_le_bytes(manifest_size));
    put_bytes(&mut buf, 36, &u32_to_le_bytes(segments_off));
    put_bytes(&mut buf, 40, &u32_to_le_bytes(segments_count));
    put_bytes(&mut buf, 44, &u32_to_le_bytes(entry_offset));
    assert(buf@ =~= header_bytes(
        uuid@,
        flags,
        manifest_off,
        manifest_size,
        segments_off,
        segments_count,
        entry_offset,
    ));
    buf
}

/// The 32 bytes of a segment table entry with the given fields.
pub fn build_segment_entry(vaddr: u64, mem_size: u64, file_off: u64, file_size: u32, flags: u32) -> (r:
    [u8; 32])
    ensures
        r@ == segment_entry_bytes(vaddr, mem_size, file_off, file_size, flags),
{
    let mut buf = [0u8; 32];
    put_bytes(&mut buf, 0, &u64_to_le_bytes(vaddr));
    put_bytes(&mut buf, 8, &u64_to_le_bytes(mem_size));
    put_bytes(&mut buf, 16, &u64_to_le_bytes(file_off));
    put_bytes(&mut buf, 24, &u32_to_le_bytes(file_size));
    put_bytes(&mut buf, 28, &u32_to_le_bytes(flags));
    assert(buf@ =~= segment_entry_bytes(vaddr, mem_size, file_off, file_size, flags));
    buf
}

/// A header built by `build_header` reads back as the fields it was built
/// from, with version 0.0.
pub proof fn lemma_header_roundtrip(
    uuid: Seq<u8>,
    flags: u32,
    manifest_off: u32,
    manifest_size: u32,
    segments_off: u32,
    segments_count: u32,
    entry_offset: u32,
)
    requires
        uuid.len() == 16,
    ensures
        ({
            let d = header_bytes(
                uuid,
                flags,
                manifest_off,
                manifest_size,
                segments_off,
                segments_count,
                entry_offset,
            );
            &&& d.len() == ABO_HEADER_SIZE
            &&& header_check(d) is Ok
            &&& le16(d, 6) == 0
            &&& d.subrange(8, 24) == uuid
            &&& le32(d, 24) == flags
            &&& le32(d, 28) == manifest_off
            &&& le32(d, 32) == manifest_size
            &&& le32(d, 36) == segments_off
            &&& le32(d, 40) == segments_count
            &&& le32(d, 44) == entry_offset
        }),
{
    lemma_auto_spec_u16_to_from_le_bytes();
    lemma_auto_spec_u32_to_from_le_bytes();
    let d = header_bytes(
        uuid,
        flags,
        manifest_off,
        manifest_size,
        segments_off,
        segments_count,
        entry_offset,
    );
    assert(spec_u16_to_le_bytes(0).len() == 2);
    assert(spec_u32_to_le_bytes(0).len() == 4);
    assert(d.subrange(0, 4) =~= abo_magic());
    assert(d.subrange(4, 6) =~= spec_u16_to_le_bytes(0));
    assert(d.subrange(6, 8) =~= spec_u16_to_le_bytes(0));
    assert(d.subrange(8, 24) =~= uuid);
    assert(d.subrange(24, 28) =~= spec_u32_to_le_bytes(flags));
    assert(d.subrange(28, 32) =~= spec_u32_to_le_bytes(manifest_off));
    assert(d.subrange(32, 36) =~= spec_u32_to_le_bytes(manifest_size));
    assert(d.subrange(36, 40) =~= spec_u32_to_le_bytes(segments_off));
    assert(d.subrange(40, 44) =~= spec_u32_to_le_bytes(segments_count));
    assert(d.subrange(44, 48) =~= spec_u32_to_le_bytes(entry_offset));
}

/// A segment table entry built by `build_segment_entry` reads back as the
/// fields it was built from.
pub proof fn lemma_segment_entry_roundtrip(
    vaddr: u64,
    mem_size: u64,
    file_off: u64,
    file_size: u32,
    flags: u32,
)
    ensures
        ({
            let s = segment_at(segment_entry_bytes(vaddr, mem_size, file_off, file_size, flags), 0);
            &&& segment_entry_bytes(vaddr, mem_size, file_off, file_size, flags).len() == SEGMENT_SIZE
            &&& s.vaddr == vaddr
            &&& s.mem_size == mem_size
            &&& s.file_off == file_off
            &&& s.file_size == file_size
            &&& s.flags == flags
        }),
{
    lemma_auto_spec_u32_to_from_le_bytes();
    lemma_auto_spec_u64_to_from_le_bytes();
    let d = segment_entry_bytes(vaddr, mem_size, file_off, file_size, flags);
    assert(spec_u64_to_le_bytes(0).len() == 8);
    assert(spec_u32_to_le_bytes(0).len() == 4);
    assert(d.subrange(0, 8) =~= spec_u64_to_le_bytes(vaddr));
    assert(d.subrange(8, 16) =~= spec_u64_to_le_bytes(mem_size));
    assert(d.subrange(16, 24) =~= spec_u64_to_le_bytes(file_off));
    assert(d.subrange(24, 28) =~= spec_u32_to_le_bytes(file_size));
    assert(d.subrange(28, 32) =~= spec_u32_to_le_bytes(flags));
}

/// What the walk over a segment table keeps: every segment to map lies in
/// user space, not at 0, with its data inside the image and its end at or
/// below the walk's highest end.
proof fn lemma_scan_sound(d: Seq<u8>, table: int, n: nat)
    requires
        d.len() <= isize::MAX,
    ensures
        forall|k: int|
            0 <= k < scan(d, table, n).segments.len() ==> {
                let seg = #[trigger] scan(d, table, n).segments[k];
                &&& placed(seg)
                &&& seg.file_off + seg.file_size <= d.len()
                &&& seg.vaddr + seg.mem_size <= scan(d, table, n).brk
            },
    decreases n,
{
    if n > 0 {
        lemma_scan_sound(d, table, (n - 1) as nat);
    }
}

/// Loading never maps anything outside user space or at address 0, never
/// reads past the end of the image, and on success enters at a non-null
/// address below the stack, with every mapped segment ending at or below
/// the reported end of data.
pub proof fn lemma_plan_safe(d: Seq<u8>)
    requires
        d.len() <= isize::MAX,
    ensures
        forall|k: int|
            0 <= k < plan(d).0.len() ==> {
                let seg = #[trigger] plan(d).0[k];
                &&& placed(seg)
                &&& seg.file_off + seg.file_size <= d.len()
            },
        plan(d).1 matches Ok((entry, brk)) ==> {
            &&& 0 < entry < USER_STACK_BASE
            &&& forall|k: int|
                0 <= k < plan(d).0.len() ==> (#[trigger] plan(d).0[k]).vaddr + plan(d).0[k].mem_size
                    <= brk
        },
{
    if header_check(d) is Ok {
        lemma_scan_sound(d, le32(d, 36) as int, le32(d, 40) as nat);
    }
}

/// A field read at `off` from the front of `a + b` is the one of `a`; one
/// read `off` bytes past `a` is the one of `b`.
proof fn lemma_read_concat(a: Seq<u8>, b: Seq<u8>, off: int)
    requires
        0 <= off,
    ensures
        off + 2 <= a.len() ==> le16(a + b, off) == le16(a, off),
        off + 4 <= a.len() ==> le32(a + b, off) == le32(a, off),
        off + 8 <= a.len() ==> le64(a + b, off) == le64(a, off),
        off + 4 <= b.len() ==> le32(a + b, a.len() + off) == le32(b, off),
        off + 8 <= b.len() ==> le64(a + b, a.len() + off) == le64(b, off),
{
    if off + 2 <= a.len() {
        assert((a + b).subrange(off, off + 2) =~= a.subrange(off, off + 2));
    }
    if off + 4 <= a.len() {
        assert((a + b).subrange(off, off + 4) =~= a.subrange(off, off + 4));
    }
    if off + 8 <= a.len() {
        assert((a + b).subrange(off, off + 8) =~= a.subrange(off, off + 8));
    }
    if off + 4 <= b.len() {
        assert((a + b).subrange(a.len() + off, a.len() + off + 4) =~= b.subrange(off, off + 4));
    }
    if off + 8 <= b.len() {
        assert((a + b).subrange(a.len() + off, a.len() + off + 8) =~= b.subrange(off, off + 8));
    }
}

/// An image made of a header built by `build_header` (native code, no
/// manifest, a one-entry segment table right after the header, entry
/// `entry_offset` bytes into the code), the table entry built by
/// `build_segment_entry` for an executable segment in user space whose data
/// follows the table, and that data, loads as exactly that segment, entered
/// `entry_offset` bytes past its start, with its end as the end of data.
pub proof fn lemma_single_segment_image(
    uuid: Seq<u8>,
    entry_offset: u32,
    vaddr: u64,
    mem_size: u64,
    flags: u32,
    code: Seq<u8>,
)
    requires
        uuid.len() == 16,
        flags & SEG_FLAG_X != 0,
        0 < vaddr,
        0 < mem_size,
        vaddr + mem_size <= USER_SPACE_END,
        vaddr + entry_offset < USER_STACK_BASE,
        code.len() <= u32::MAX,
    ensures
        ({
            let d = header_bytes(uuid, FLAG_NATIVE, 0, 0, 64, 1, entry_offset) + segment_entry_bytes(
                vaddr,
                mem_size,
                96,
                code.len() as u32,
                flags,
            ) + code;
            let seg = AboSegment { vaddr, mem_size, file_off: 96, file_size: code.len() as u32, flags };
            &&& plan(d) == (seq![to_spec(seg)], Ok::<(u64, u64), LoadError>(
                ((vaddr + entry_offset) as u64, (vaddr + mem_size) as u64),
            ))
            &&& crate::loader::plan(d) == plan(d)
        }),
{
    let h = header_bytes(uuid, FLAG_NATIVE, 0, 0, 64, 1, entry_offset);
    let s = segment_entry_bytes(vaddr, mem_size, 96, code.len() as u32, flags);
    let hs = h + s;
    let d = hs + code;
    lemma_header_roundtrip(uuid, FLAG_NATIVE, 0, 0, 64, 1, entry_offset);
    lemma_segment_entry_roundtrip(vaddr, mem_size, 96, code.len() as u32, flags);
    assert(h.len() == 64 && s.len() == 32 && hs.len() == 96);
    // The header, read through the whole image.
    assert(d.subrange(0, 4) =~= h.subrange(0, 4));
    lemma_read_concat(h, s, 4);
    lemma_read_concat(hs, code, 4);
    assert(header_check(d) is Ok);
    lemma_read_concat(h, s, 24);
    lemma_read_concat(hs, code, 24);
    lemma_read_concat(h, s, 28);
    lemma_read_concat(hs, code, 28);
    lemma_read_concat(h, s, 32);
    lemma_read_concat(hs, code, 32);
    lemma_read_concat(h, s, 36);
    lemma_read_concat(hs, code, 36);
    lemma_read_concat(h, s, 40);
    lemma_read_concat(hs, code, 40);
    lemma_read_concat(h, s, 44);
    lemma_read_concat(hs, code, 44);
    assert(le32(d, 24) == FLAG_NATIVE);
    assert(le32(d, 28) == 0 && le32(d, 32) == 0);
    assert(le32(d, 36) == 64 && le32(d, 40) == 1 && le32(d, 44) == entry_offset);
    // The table entry, read through the whole image.
    let seg = AboSegment { vaddr, mem_size, file_off: 96, file_size: code.len() as u32, flags };
    lemma_read_concat(h, s, 0);
    lemma_read_concat(h, s, 8);
    lemma_read_concat(h, s, 16);
    lemma_read_concat(h, s, 24);
    lemma_read_concat(h, s, 28);
    lemma_read_concat(hs, code, 64);
    lemma_read_concat(hs, code, 72);
    lemma_read_concat(hs, code, 80);
    lemma_read_concat(hs, code, 88);
    lemma_read_concat(hs, code, 92);
    assert(segment_at(d, 64) == seg);
    assert(FLAG_NATIVE & FLAG_NATIVE != 0) by (bit_vector);
    assert(segment_error(d, seg) is None);
    assert(scan(d, 64, 0) == Scan { segments: Seq::empty(), brk: 0, first_exec: 0, error: None });
    assert(segment_at(d, 64 + SEGMENT_SIZE * 0) == seg);
    let sc = scan(d, 64, 1);
    assert(sc.segments =~= seq![to_spec(seg)]);
    assert(sc.first_exec == vaddr && sc.brk == vaddr + mem_size && sc.error is None);
    assert(d.subrange(0, 4) == abo_magic());
}

/// The walk over a segment table stops only on a segment whose data is not
/// in the file or whose memory is not in user space.
proof fn lemma_scan_error_kind(d: Seq<u8>, table: int, n: nat)
    ensures
        scan(d, table, n).error matches Some(e) ==> (e == LoadError::SegmentOverflow || e
            == LoadError::SegmentOutOfFile || e == LoadError::VaddrInKernelSpace),
    decreases n,
{
    if n > 0 {
        lemma_scan_error_kind(d, table, (n - 1) as nat);
    }
}

/// An image that starts with a header built by `build_header` passes the
/// header checks, whatever follows the header: it reads back the version
/// 0.0 and the fields it was built from, the WASM words and the reserved
/// bytes are zero, and loading it never fails for being too small, for its
/// magic or for its version.
pub proof fn lemma_header_prefix(
    uuid: Seq<u8>,
    flags: u32,
    manifest_off: u32,
    manifest_size: u32,
    segments_off: u32,
    segments_count: u32,
    entry_offset: u32,
    rest: Seq<u8>,
)
    requires
        uuid.len() == 16,
    ensures
        ({
            let h = header_bytes(
                uuid,
                flags,
                manifest_off,
                manifest_size,
                segments_off,
                segments_count,
                entry_offset,
            );
            let d = h + rest;
            &&& h.len() == ABO_HEADER_SIZE
            &&& d.subrange(0, 64) == h
            &&& d.subrange(0, 4) == abo_magic()
            &&& header_check(d) is Ok
            &&& le16(d, 4) == 0
            &&& le16(d, 6) == 0
            &&& d.subrange(8, 24) == uuid
            &&& le32(d, 24) == flags
            &&& le32(d, 28) == manifest_off
            &&& le32(d, 32) == manifest_size
            &&& le32(d, 36) == segments_off
            &&& le32(d, 40) == segments_count
            &&& le32(d, 44) == entry_offset
            &&& d.subrange(48, 64) == Seq::new(16, |i: int| 0u8)
            &&& crate::loader::plan(d) == plan(d)
            &&& plan(d).1 != Err::<(u64, u64), LoadError>(LoadError::TooSmall)
            &&& plan(d).1 != Err::<(u64, u64), LoadError>(LoadError::BadMagic)
            &&& plan(d).1 != Err::<(u64, u64), LoadError>(LoadError::UnsupportedVersion)
        }),
{
    let h = header_bytes(uuid, flags, manifest_off, manifest_size, segments_off, segments_count, entry_offset);
    let d = h + rest;
    lemma_header_roundtrip(uuid, flags, manifest_off, manifest_size, segments_off, segments_count, entry_offset);
    assert(d.subrange(0, 64) =~= h);
    assert(d.subrange(0, 4) =~= h.subrange(0, 4));
    assert(d.subrange(8, 24) =~= h.subrange(8, 24));
    assert(h.subrange(48, 64) =~= Seq::new(16, |i: int| 0u8));
    assert(d.subrange(48, 64) =~= h.subrange(48, 64));
    lemma_read_concat(h, rest, 4);
    lemma_read_concat(h, rest, 6);
    lemma_read_concat(h, rest, 24);
    lemma_read_concat(h, rest, 28);
    lemma_read_concat(h, rest, 32);
    lemma_read_concat(h, rest, 36);
    lemma_read_concat(h, rest, 40);
    lemma_read_concat(h, rest, 44);
    assert(header_check(d) is Ok);
    lemma_scan_error_kind(d, le32(d, 36) as int, le32(d, 40) as nat);
}

/// Entry `j` of the segment table at `table` is executable and not at
/// address 0: the kind of segment the entry point is taken in.
pub open spec fn exec_entry(d: Seq<u8>, table: int, j: int) -> bool {
    &&& segment_at(d, table + SEGMENT_SIZE * j).flags & SEG_FLAG_X != 0
    &&& segment_at(d, table + SEGMENT_SIZE * j).vaddr != 0
}

proof fn lemma_scan_first_exec(d: Seq<u8>, table: int, n: nat)
    requires
        scan(d, table, n).error is None,
    ensures
        scan(d, table, n).first_exec == 0 ==> forall|j: int| 0 <= j < n ==> !exec_entry(d, table, j),
        scan(d, table, n).first_exec != 0 ==> exists|k: int|
            #![trigger exec_entry(d, table, k)]
            0 <= k < n && exec_entry(d, table, k) && (forall|j: int| 0 <= j < k ==> !exec_entry(d, table, j))
                && scan(d, table, n).first_exec == segment_at(d, table + SEGMENT_SIZE * k).vaddr,
    decreases n,
{
    if n > 0 {
        let m = (n - 1) as nat;
        lemma_scan_first_exec(d, table, m);
        let p = scan(d, table, m);
        let s = segment_at(d, table + SEGMENT_SIZE * m);
        if p.first_exec == 0 {
            if s.flags & SEG_FLAG_X != 0 && s.vaddr != 0 {
                assert(exec_entry(d, table, m as int));
            }
            assert forall|j: int| 0 <= j < n && scan(d, table, n).first_exec == 0 implies !exec_entry(
                d,
                table,
                j,
            ) by {
                if j < m {
                } else {
                    assert(j == m);
                }
            }
        } else {
            let k = choose|k: int|
                #![trigger exec_entry(d, table, k)]
                0 <= k < m && exec_entry(d, table, k) && (forall|j: int|
                    0 <= j < k ==> !exec_entry(d, table, j)) && p.first_exec == segment_at(
                    d,
                    table + SEGMENT_SIZE * k,
                ).vaddr;
            assert(exec_entry(d, table, k));
        }
    }
}

/// A successful load enters `entry_offset` bytes into the first entry of
/// the segment table that is executable and not at address 0; executable
/// entries after it do not move the entry point.
pub proof fn lemma_entry_in_first_exec(d: Seq<u8>)
    ensures
        plan(d).1 matches Ok((entry, _)) ==> exists|k: int|
            #![trigger exec_entry(d, le32(d, 36) as int, k)]
            0 <= k < le32(d, 40) && exec_entry(d, le32(d, 36) as int, k) && (forall|j: int|
                0 <= j < k ==> !exec_entry(d, le32(d, 36) as int, j)) && entry == segment_at(
                d,
                le32(d, 36) + SEGMENT_SIZE * k,
            ).vaddr + le32(d, 44),
{
    if plan(d).1 is Ok {
        let table = le32(d, 36) as int;
        let n = le32(d, 40) as nat;
        lemma_scan_first_exec(d, table, n);
    }
}

} // verus!
