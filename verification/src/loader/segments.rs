//! Segments: ranges of the user address space to fill with bytes of the
//! binary, zero-filled past the end of those bytes.
use vstd::prelude::*;
use crate::loader::{LoadError, SegmentSpec};
use crate::mm::user_ptr::USER_SPACE_END;

verus! {

pub const PAGE: u64 = 4096;

/// Page-table flag bits, as the x86-64 architecture defines them.
pub const PAGE_PRESENT: u64 = 1;

pub const PAGE_WRITABLE: u64 = 2;

pub const PAGE_USER_ACCESSIBLE: u64 = 4;

pub const PAGE_NO_EXECUTE: u64 = 0x8000_0000_0000_0000;

/// The flags of the user stack's pages: present, writable, user
/// accessible, never executable.
pub const STACK_PAGE_FLAGS: u64 = PAGE_PRESENT | PAGE_WRITABLE | PAGE_USER_ACCESSIBLE | PAGE_NO_EXECUTE;

/// The flags of the pages of a segment (before they are made user
/// accessible): present, writable if the segment is, never executable
/// unless the segment is.
pub open spec fn segment_flags(writable: bool, executable: bool) -> u64 {
    PAGE_PRESENT | (if writable {
        PAGE_WRITABLE
    } else {
        0u64
    }) | (if executable {
        0u64
    } else {
        PAGE_NO_EXECUTE
    })
}

pub fn page_flags(writable: bool, executable: bool) -> (r: u64)
    ensures
        r == segment_flags(writable, executable),
{
    let mut flags: u64 = PAGE_PRESENT;
    if writable {
        flags = flags | PAGE_WRITABLE;
    }
    if !executable {
        flags = flags | PAGE_NO_EXECUTE;
    }
    proof {
        let w: u64 = if writable {
            PAGE_WRITABLE
        } else {
            0u64
        };
        let x: u64 = if executable {
            0u64
        } else {
            PAGE_NO_EXECUTE
        };
        assert(1u64 | 0u64 == 1u64) by (bit_vector);
        assert((1u64 | w) | 0u64 == 1u64 | w) by (bit_vector);
    }
    flags
}

/// The verdict on a segment of `mem_size` bytes at `vaddr`: an empty
/// segment is always fine; any other must lie in user space, not at 0.
pub open spec fn segment_check(vaddr: u64, mem_size: u64) -> Result<(), LoadError> {
    if mem_size == 0 {
        Ok(())
    } else if vaddr == 0 || vaddr >= USER_SPACE_END {
        Err(LoadError::VaddrInKernelSpace)
    } else if vaddr + mem_size > u64::MAX {
        Err(LoadError::SegmentOverflow)
    } else if vaddr + mem_size > USER_SPACE_END {
        Err(LoadError::VaddrInKernelSpace)
    } else {
        Ok(())
    }
}

pub(crate) fn check_segment(vaddr: u64, mem_size: u64) -> (r: Result<(), LoadError>)
    ensures
        r == segment_check(vaddr, mem_size),
{
    if mem_size == 0 {
        return Ok(());
    }
    if vaddr == 0 || vaddr >= USER_SPACE_END {
        return Err(LoadError::VaddrInKernelSpace);
    }
    let end = match vaddr.checked_add(mem_size) {
        Some(e) => e,
        None => {
            return Err(LoadError::SegmentOverflow);
        },
    };
    if end > USER_SPACE_END {
        return Err(LoadError::VaddrInKernelSpace);
    }
    Ok(())
}

/// Checks that a segment of `mem_size` bytes at `vaddr` lies in user space.
pub fn validate_segment(vaddr: u64, mem_size: usize) -> (r: Result<(), LoadError>)
    ensures
        r == segment_check(vaddr, mem_size as u64),
{
    check_segment(vaddr, mem_size as u64)
}

/// What to do for one page of a segment: the page's address and, when
/// `copy_len` is not 0, which bytes of the segment's file data go where in
/// the page. The rest of the page is zero.
#[derive(Debug, Clone, Copy, PartialEq, Eq, Structural)]
pub struct PageCopy {
    pub vaddr: u64,
    pub copy_len: u64,
    pub file_offset: u64,
    pub page_offset: u64,
}

/// The first page of a segment.
pub open spec fn first_page(seg: SegmentSpec) -> int {
    seg.vaddr - (seg.vaddr as int) % (PAGE as int)
}

/// Pages the segment covers.
pub open spec fn page_count(seg: SegmentSpec) -> int {
    (seg.vaddr + seg.mem_size + 4095) / (PAGE as int) - (seg.vaddr as int) / (PAGE as int)
}

/// The `k`-th page of a segment: the file bytes that fall inside it are
/// copied to the matching offsets.
pub open spec fn page_copy(seg: SegmentSpec, k: int) -> PageCopy {
    let pv = first_page(seg) + k * PAGE;
    let lo = if pv < seg.vaddr {
        seg.vaddr as int
    } else {
        pv
    };
    let hi = if pv + PAGE < seg.vaddr + seg.file_size {
        pv + PAGE
    } else {
        seg.vaddr + seg.file_size
    };
    if lo < hi {
        PageCopy {
            vaddr: pv as u64,
            copy_len: (hi - lo) as u64,
            file_offset: (lo - seg.vaddr) as u64,
            page_offset: (lo - pv) as u64,
        }
    } else {
        PageCopy { vaddr: pv as u64, copy_len: 0, file_offset: 0, page_offset: 0 }
    }
}

/// A segment that passed its checks: non-empty, inside user space, its
/// file data addressable past `vaddr`.
pub open spec fn placed(seg: SegmentSpec) -> bool {
    &&& seg.mem_size > 0
    &&& 0 < seg.vaddr
    &&& seg.vaddr + seg.mem_size <= USER_SPACE_END
    &&& seg.vaddr + seg.file_size <= u64::MAX
}

/// The pages of a segment, in order, with what to copy into each.
pub fn segment_pages(seg: &SegmentSpec) -> (r: Vec<PageCopy>)
    requires
        placed(*seg),
    ensures
        r@.len() == page_count(*seg),
        forall|k: int| 0 <= k < r@.len() ==> #[trigger] r@[k] == page_copy(*seg, k),
{
    let page_start = seg.vaddr & !0xFFF;
    let page_end = (seg.vaddr + seg.mem_size + 0xFFF) & !0xFFF;
    proof {
        let v = seg.vaddr;
        let e = (seg.vaddr + seg.mem_size + 0xFFF) as u64;
        assert(v & !0xFFFu64 == v - v % 4096) by (bit_vector);
        assert(e & !0xFFFu64 == e - e % 4096) by (bit_vector);
    }
    let num_pages = (page_end - page_start) / PAGE;
    let file_vstart = seg.vaddr;
    let file_vend = seg.vaddr + seg.file_size;
    let mut r: Vec<PageCopy> = Vec::new();
    let mut i: u64 = 0;
    while i < num_pages
        invariant
            placed(*seg),
            page_start == first_page(*seg),
            num_pages == page_count(*seg),
            file_vstart == seg.vaddr,
            file_vend == seg.vaddr + seg.file_size,
            page_start + num_pages * PAGE <= USER_SPACE_END + PAGE,
            0 <= i <= num_pages,
            r@.len() == i,
            forall|k: int| 0 <= k < i ==> #[trigger] r@[k] == page_copy(*seg, k),
        decreases num_pages - i,
    {
        let page_vaddr = page_start + i * PAGE;
        let page_end_vaddr = page_vaddr + PAGE;
        let copy_vstart = if page_vaddr > file_vstart {
            page_vaddr
        } else {
            file_vstart
        };
        let copy_vend = if page_end_vaddr < file_vend {
            page_end_vaddr
        } else {
            file_vend
        };
        let pc = if copy_vstart < copy_vend {
            PageCopy {
                vaddr: page_vaddr,
                copy_len: copy_vend - copy_vstart,
                file_offset: copy_vstart - file_vstart,
                page_offset: copy_vstart - page_vaddr,
            }
        } else {
            PageCopy { vaddr: page_vaddr, copy_len: 0, file_offset: 0, page_offset: 0 }
        };
        r.push(pc);
        i = i + 1;
    }
    r
}

/// Pages of a stack of `stack_size` bytes and its initial top: 16 bytes
/// below the end, aligned down to 16.
pub open spec fn stack_layout_spec(stack_base: u64, stack_size: u64) -> (u64, u64) {
    ((stack_size / PAGE) as u64, ((stack_base + stack_size - 16) as u64 & !0xFu64) as u64)
}

pub fn stack_layout(stack_base: u64, stack_size: u64) -> (r: (u64, u64))
    requires
        16 <= stack_base + stack_size <= u64::MAX,
    ensures
        r == stack_layout_spec(stack_base, stack_size),
        r.1 % 16 == 0,
        r.1 <= stack_base + stack_size - 16,
        r.1 + 32 > stack_base + stack_size,
{
    let top = (stack_base + stack_size - 16) & !0xF;
    proof {
        let t = (stack_base + stack_size - 16) as u64;
        assert(t & !0xFu64 == t - t % 16) by (bit_vector);
    }
    (stack_size / PAGE, top)
}

/// Each page copy stays inside its page and inside the segment's file data;
/// and every byte of the file data that falls within the segment's pages
/// (all of them up to `mem_size`) is copied, by exactly the page that
/// holds its address, to that address.
pub proof fn lemma_pages_place_bytes(seg: SegmentSpec, k: int, j: int)
    requires
        placed(seg),
        0 <= k < page_count(seg),
    ensures
        page_copy(seg, k).page_offset + page_copy(seg, k).copy_len <= PAGE,
        page_copy(seg, k).file_offset + page_copy(seg, k).copy_len <= seg.file_size,
        page_copy(seg, k).vaddr == first_page(seg) + k * PAGE,
        0 <= j < seg.file_size && first_page(seg) + k * PAGE <= seg.vaddr + j < first_page(seg) + (k
            + 1) * PAGE ==> {
            let c = page_copy(seg, k);
            &&& c.file_offset <= j < c.file_offset + c.copy_len
            &&& c.vaddr + c.page_offset + (j - c.file_offset) == seg.vaddr + j
        },
        0 <= j < seg.file_size && j < seg.mem_size ==> first_page(seg) <= seg.vaddr + j < first_page(
            seg,
        ) + page_count(seg) * PAGE,
{
    let v = seg.vaddr as int;
    let e = v + seg.mem_size + 4095;
    assert(v % 4096 >= 0 && v % 4096 < 4096);
    assert(v / 4096 * 4096 + v % 4096 == v) by (nonlinear_arith);
    assert(e / 4096 * 4096 + e % 4096 == e) by (nonlinear_arith);
    assert(e % 4096 >= 0 && e % 4096 < 4096);
    assert(first_page(seg) == v / 4096 * 4096);
    assert(first_page(seg) + page_count(seg) * PAGE == e / 4096 * 4096) by (nonlinear_arith)
        requires
            first_page(seg) == v / 4096 * 4096,
            page_count(seg) == e / 4096 - v / 4096,
    ;
}

} // verus!
