//! The first user program: the bootstrap code, wrapped in an ABO image
//! with one read-execute segment at `USER_CODE_BASE`, entered at its start.
use vstd::prelude::*;
use crate::loader::abo::{
    header_bytes, lemma_single_segment_image, segment_entry_bytes, to_spec, AboSegment, build_header,
    build_segment_entry, FLAG_NATIVE, SEG_FLAG_R, SEG_FLAG_X,
};
use crate::loader::{LoadError, SegmentSpec, USER_CODE_BASE};

verus! {

/// How many bytes of bootstrap code to load from `start` to `end`: their
/// distance (0 when `end` lies below `start`), at least 64, at most 4096.
pub open spec fn code_size(start: usize, end: usize) -> usize {
    let d = if end >= start {
        (end - start) as usize
    } else {
        0usize
    };
    if d < 64 {
        64
    } else if d > 4096 {
        4096
    } else {
        d
    }
}

pub fn bootstrap_code_size(start: usize, end: usize) -> (r: usize)
    ensures
        r == code_size(start, end),
        64 <= r <= 4096,
{
    let d = end.saturating_sub(start);
    if d < 64 {
        64
    } else if d > 4096 {
        4096
    } else {
        d
    }
}

/// The component id of the bootstrap image, "AsterInit".
pub open spec fn bootstrap_uuid() -> Seq<u8> {
    seq![0x41u8, 0x73u8, 0x74u8, 0x65u8, 0x72u8, 0x49u8, 0x6eu8, 0x69u8, 0x74u8, 0u8, 0u8, 0u8, 0u8, 0u8, 0u8, 0u8]
}

/// The bootstrap image around `code`: a header (native code, no manifest,
/// the segment table right after the header, one segment, entry at offset
/// 0), the table entry of a read-execute segment of `code.len()` bytes at
/// `USER_CODE_BASE` whose data starts at offset 96, then the code.
pub open spec fn bootstrap_bytes(code: Seq<u8>) -> Seq<u8> {
    header_bytes(bootstrap_uuid(), FLAG_NATIVE, 0, 0, 64, 1, 0) + segment_entry_bytes(
        USER_CODE_BASE,
        code.len() as u64,
        96,
        code.len() as u32,
        SEG_FLAG_R | SEG_FLAG_X,
    ) + code
}

fn push_all(v: &mut Vec<u8>, s: &[u8])
    ensures
        final(v)@ == old(v)@ + s@,
{
    let mut i: usize = 0;
    while i < s.len()
        invariant
            0 <= i <= s@.len(),
            v@ == old(v)@ + s@.take(i as int),
        decreases s@.len() - i,
    {
        v.push(s[i]);
        i = i + 1;
        assert(v@ =~= old(v)@ + s@.take(i as int));
    }
    assert(s@.take(i as int) =~= s@);
}

/// Builds the bootstrap image around `code`.
pub fn bootstrap_image(code: &[u8]) -> (r: Vec<u8>)
    requires
        code@.len() <= u32::MAX,
    ensures
        r@ == bootstrap_bytes(code@),
{
    let uuid: [u8; 16] = [0x41, 0x73, 0x74, 0x65, 0x72, 0x49, 0x6e, 0x69, 0x74, 0, 0, 0, 0, 0, 0, 0];
    assert(uuid@ =~= bootstrap_uuid());
    let hdr = build_header(uuid, FLAG_NATIVE, 0, 0, 64, 1, 0);
    let seg = build_segment_entry(USER_CODE_BASE, code.len() as u64, 96, code.len() as u32, SEG_FLAG_R | SEG_FLAG_X);
    let mut v: Vec<u8> = Vec::new();
    push_all(&mut v, hdr.as_slice());
    push_all(&mut v, seg.as_slice());
    push_all(&mut v, code);
    assert(v@ =~= bootstrap_bytes(code@));
    v
}

/// The bootstrap image of any code of 1 to 4096 bytes loads as that one
/// read-execute segment at `USER_CODE_BASE`, entered at its first byte,
/// with its end as the end of data.
pub proof fn lemma_bootstrap_image(code: Seq<u8>)
    requires
        0 < code.len() <= 4096,
    ensures
        crate::loader::plan(bootstrap_bytes(code)) == (
            seq![
                SegmentSpec {
                    vaddr: USER_CODE_BASE,
                    mem_size: code.len() as u64,
                    file_off: 96,
                    file_size: code.len() as u64,
                    flags: crate::loader::segments::segment_flags(false, true),
                },
            ],
            Ok::<(u64, u64), LoadError>((USER_CODE_BASE, (USER_CODE_BASE + code.len()) as u64)),
        ),
{
    let f: u32 = SEG_FLAG_R | SEG_FLAG_X;
    assert(f == 5u32) by (bit_vector)
        requires
            f == 1u32 | 4u32,
    ;
    assert(5u32 & 4u32 != 0) by (bit_vector);
    assert(5u32 & 2u32 == 0) by (bit_vector);
    lemma_single_segment_image(bootstrap_uuid(), 0, USER_CODE_BASE, code.len() as u64, f, code);
    let seg = AboSegment { vaddr: USER_CODE_BASE, mem_size: code.len() as u64, file_off: 96, file_size: code.len() as u32, flags: f };
    assert(to_spec(seg).file_size == code.len() as u64);
}

} // verus!
