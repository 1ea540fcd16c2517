//! The physical memory manager: one bit per 4 KiB frame, set when the frame
//! is free.
use vstd::prelude::*;
use vstd::set_lib::{lemma_int_range, lemma_len_subset, set_int_range};

verus! {

broadcast use vstd::std_specs::bits::axiom_u64_trailing_zeros;

pub const PAGE_SIZE: u64 = 4096;

/// Frames tracked: 2 GiB of physical memory.
pub const MAX_FRAMES: usize = 524288;

/// Words of the bitmap.
pub const BITMAP_LEN: usize = 8192;

/// Frames below this one (the first 2 MiB, the BIOS area) are never handed
/// out by `allocate`.
pub const FIRST_ALLOC_FRAME: usize = 512;

/// Bit `b` of `w` is set.
pub open spec fn bit(w: u64, b: u64) -> bool {
    (w >> b) & 1u64 == 1u64
}

/// Frame `f` is marked free in `bits`.
pub open spec fn frame_free(bits: Seq<u64>, f: int) -> bool {
    bit(bits[f / 64], (f % 64) as u64)
}

/// `f` is the frame `allocate` hands out from the free set `free`: the lowest
/// free frame at or above `FIRST_ALLOC_FRAME`.
pub open spec fn is_lowest_allocatable(free: Set<int>, f: int) -> bool {
    &&& FIRST_ALLOC_FRAME <= f
    &&& free.contains(f)
    &&& forall|g: int| FIRST_ALLOC_FRAME <= g < f ==> !free.contains(g)
}

/// Some frame at or above `FIRST_ALLOC_FRAME` is free.
pub open spec fn has_allocatable(free: Set<int>) -> bool {
    exists|f: int| FIRST_ALLOC_FRAME <= f && free.contains(f)
}

proof fn lemma_bit_ops(w: u64, b: u64, j: u64)
    requires
        b < 64,
        j < 64,
    ensures
        bit(w | (1u64 << b), j) == (j == b || bit(w, j)),
        bit(w & !(1u64 << b), j) == (j != b && bit(w, j)),
        bit(0u64, j) == false,
        ((w >> b) & 1u64 == 0u64) == !bit(w, b),
{
    assert(((w | (1u64 << b)) >> j) & 1u64 == 1u64 <==> (j == b || (w >> j) & 1u64 == 1u64))
        by (bit_vector)
        requires
            b < 64,
            j < 64,
    ;
    assert(((w & !(1u64 << b)) >> j) & 1u64 == 1u64 <==> (j != b && (w >> j) & 1u64 == 1u64))
        by (bit_vector)
        requires
            b < 64,
            j < 64,
    ;
    assert((0u64 >> j) & 1u64 != 1u64) by (bit_vector);
    assert(((w >> b) & 1u64 == 0u64) == !((w >> b) & 1u64 == 1u64)) by (bit_vector);
}

/// The frame bitmap.
pub struct Pmm {
    bits: Vec<u64>,
    free_count: usize,
}

impl View for Pmm {
    type V = Set<int>;

    /// The set of free frames.
    closed spec fn view(&self) -> Set<int> {
        Set::new(|f: int| 0 <= f < MAX_FRAMES && frame_free(self.bits@, f))
    }
}

impl Pmm {
    pub closed spec fn wf(&self) -> bool {
        &&& self.bits.len() == BITMAP_LEN
        &&& self@.finite()
        &&& self.free_count == self@.len()
    }

    /// The free set of a bitmap is finite, with at most `MAX_FRAMES`
    /// frames, each below `MAX_FRAMES`.
    pub proof fn lemma_view_bounded(&self)
        ensures
            self@.finite(),
            self@.len() <= MAX_FRAMES,
            forall|f: int| #[trigger] self@.contains(f) ==> 0 <= f < MAX_FRAMES,
    {
        lemma_int_range(0, MAX_FRAMES as int);
        assert(self@.subset_of(set_int_range(0, MAX_FRAMES as int)));
        lemma_len_subset(self@, set_int_range(0, MAX_FRAMES as int));
    }

    pub fn new() -> (p: Pmm)
        ensures
            p.wf(),
            p@.finite(),
            p@ == Set::<int>::empty(),
    {
        let mut bits: Vec<u64> = Vec::new();
        while bits.len() < BITMAP_LEN
            invariant
                bits.len() <= BITMAP_LEN,
                forall|i: int| 0 <= i < bits.len() ==> #[trigger] bits@[i] == 0u64,
            decreases BITMAP_LEN - bits.len(),
        {
            bits.push(0u64);
        }
        let p = Pmm { bits, free_count: 0 };
        assert(p@ =~= Set::<int>::empty()) by {
            assert forall|f: int| !(#[trigger] p@.contains(f)) by {
                if 0 <= f < MAX_FRAMES {
                    lemma_bit_ops(0u64, 0u64, (f % 64) as u64);
                }
            }
        }
        p
    }

    /// Marks `frame` free; frames past the bitmap are ignored.
    pub fn set_free(&mut self, frame: usize)
        requires
            old(self).wf(),
        ensures
            final(self).wf(),
            final(self)@.finite(),
            final(self)@ == if frame < MAX_FRAMES {
                old(self)@.insert(frame as int)
            } else {
                old(self)@
            },
    {
        if frame >= MAX_FRAMES {
            return;
        }
        let w = frame / 64;
        let b = frame % 64;
        let ghost old_view = self@;
        let ghost old_word = self.bits@[w as int];
        proof {
            lemma_bit_ops(old_word, b as u64, b as u64);
            self.lemma_view_bounded();
        }
        if (self.bits[w] >> (b as u64)) & 1 == 0 {
            let nw = self.bits[w] | (1u64 << (b as u64));
            self.bits.set(w, nw);
            assert(self@ =~= old_view.insert(frame as int)) by {
                assert forall|g: int| #[trigger] self@.contains(g) == old_view.insert(
                    frame as int,
                ).contains(g) by {
                    if 0 <= g < MAX_FRAMES && g / 64 == w {
                        lemma_bit_ops(old_word, b as u64, (g % 64) as u64);
                    }
                }
            }
            assert(!old_view.contains(frame as int));
            self.free_count = self.free_count + 1;
        } else {
            assert(old_view.contains(frame as int));
            assert(old_view.insert(frame as int) =~= old_view);
        }
    }

    /// Marks `frame` used; frames past the bitmap are ignored.
    pub fn set_used(&mut self, frame: usize)
        requires
            old(self).wf(),
        ensures
            final(self).wf(),
            final(self)@.finite(),
            final(self)@ == if frame < MAX_FRAMES {
                old(self)@.remove(frame as int)
            } else {
                old(self)@
            },
    {
        if frame >= MAX_FRAMES {
            return;
        }
        let w = frame / 64;
        let b = frame % 64;
        let ghost old_view = self@;
        let ghost old_word = self.bits@[w as int];
        proof {
            lemma_bit_ops(old_word, b as u64, b as u64);
            self.lemma_view_bounded();
        }
        if (self.bits[w] >> (b as u64)) & 1 == 1 {
            let nw = self.bits[w] & !(1u64 << (b as u64));
            self.bits.set(w, nw);
            assert(self@ =~= old_view.remove(frame as int)) by {
                assert forall|g: int| #[trigger] self@.contains(g) == old_view.remove(
                    frame as int,
                ).contains(g) by {
                    if 0 <= g < MAX_FRAMES && g / 64 == w {
                        lemma_bit_ops(old_word, b as u64, (g % 64) as u64);
                    }
                }
            }
            assert(old_view.contains(frame as int));
            self.free_count = self.free_count - 1;
        } else {
            assert(!old_view.contains(frame as int));
            assert(old_view.remove(frame as int) =~= old_view);
        }
    }

    /// Takes the lowest free frame at or above `FIRST_ALLOC_FRAME`.
    pub fn allocate(&mut self) -> (r: Option<usize>)
        requires
            old(self).wf(),
        ensures
            final(self).wf(),
            final(self)@.finite(),
            match r {
                Some(f) => f < MAX_FRAMES && is_lowest_allocatable(old(self)@, f as int)
                    && final(self)@ == old(self)@.remove(f as int) && final(self)@.len() + 1 == old(
                    self,
                )@.len(),
                None => !has_allocatable(old(self)@) && final(self)@ == old(self)@,
            },
    {
        let mut w: usize = 8;
        while w < BITMAP_LEN
            invariant
                self.wf(),
                self@ == old(self)@,
                8 <= w <= BITMAP_LEN,
                forall|g: int| FIRST_ALLOC_FRAME <= g < w * 64 ==> !(#[trigger] self@.contains(g)),
            decreases BITMAP_LEN - w,
        {
            let word = self.bits[w];
            if word == 0 {
                proof {
                    assert forall|g: int| FIRST_ALLOC_FRAME <= g < (w + 1) * 64 implies !(
                    #[trigger] self@.contains(g)) by {
                        if g >= w * 64 {
                            lemma_bit_ops(0u64, 0u64, (g % 64) as u64);
                        }
                    }
                }
                w = w + 1;
                continue;
            }
            let b = word.trailing_zeros() as usize;
            let frame = w * 64 + b;
            proof {
                assert(self@.contains(frame as int));
                assert forall|g: int| FIRST_ALLOC_FRAME <= g < frame implies !(
                #[trigger] self@.contains(g)) by {
                    if g >= w * 64 {
                        let j = (g % 64) as u64;
                        assert(j < b);
                        assert((word >> j) & 1u64 == 0u64);
                    }
                }
            }
            self.set_used(frame);
            return Some(frame);
        }
        proof {
            assert forall|f: int| FIRST_ALLOC_FRAME <= f implies !(#[trigger] self@.contains(f)) by {
                self.lemma_view_bounded();
            }
        }
        None
    }

    /// Whether some frame at or above `FIRST_ALLOC_FRAME` is free.
    pub fn can_allocate(&self) -> (r: bool)
        requires
            self.wf(),
        ensures
            r == has_allocatable(self@),
    {
        let mut w: usize = 8;
        while w < BITMAP_LEN
            invariant
                self.wf(),
                8 <= w <= BITMAP_LEN,
                forall|g: int| FIRST_ALLOC_FRAME <= g < w * 64 ==> !(#[trigger] self@.contains(g)),
            decreases BITMAP_LEN - w,
        {
            let word = self.bits[w];
            if word != 0 {
                let b = word.trailing_zeros() as usize;
                proof {
                    assert(self@.contains((w * 64 + b) as int));
                }
                return true;
            }
            proof {
                assert forall|g: int| FIRST_ALLOC_FRAME <= g < (w + 1) * 64 implies !(
                #[trigger] self@.contains(g)) by {
                    if g >= w * 64 {
                        lemma_bit_ops(0u64, 0u64, (g % 64) as u64);
                    }
                }
            }
            w = w + 1;
        }
        proof {
            assert forall|f: int| FIRST_ALLOC_FRAME <= f implies !(#[trigger] self@.contains(f)) by {
                self.lemma_view_bounded();
            }
        }
        false
    }

    /// Gives `frame` back.
    pub fn free(&mut self, frame: usize)
        requires
            old(self).wf(),
        ensures
            final(self).wf(),
            final(self)@.finite(),
            final(self)@ == if frame < MAX_FRAMES {
                old(self)@.insert(frame as int)
            } else {
                old(self)@
            },
    {
        self.set_free(frame);
    }

    /// Number of free frames.
    pub fn free_count(&self) -> (r: usize)
        requires
            self.wf(),
        ensures
            r == self@.len(),
    {
        self.free_count
    }
}

/// What a region of physical memory holds, as the boot loader reports it.
#[derive(Debug, Clone, Copy, PartialEq, Eq, Structural)]
pub enum MemoryRegionKind {
    Usable,
    Bootloader,
    UnknownUefi(u32),
    UnknownBios(u32),
}

/// A region `[start, end)` of physical memory.
#[derive(Debug, Clone, Copy, PartialEq, Eq, Structural)]
pub struct MemoryRegion {
    pub start: u64,
    pub end: u64,
    pub kind: MemoryRegionKind,
}

/// The frames a region contributes: those wholly or partly inside a usable
/// region, clipped below at `FIRST_ALLOC_FRAME` and above at `MAX_FRAMES`.
pub open spec fn region_frames(r: MemoryRegion) -> Set<int> {
    let lo = if r.start / PAGE_SIZE < FIRST_ALLOC_FRAME {
        FIRST_ALLOC_FRAME as int
    } else {
        (r.start / PAGE_SIZE) as int
    };
    let hi = if r.end / PAGE_SIZE < MAX_FRAMES {
        (r.end / PAGE_SIZE) as int
    } else {
        MAX_FRAMES as int
    };
    if r.kind == MemoryRegionKind::Usable {
        Set::new(|f: int| lo <= f < hi)
    } else {
        Set::empty()
    }
}

/// The frames all of `regions` contribute.
pub open spec fn usable_frames(regions: Seq<MemoryRegion>) -> Set<int> {
    Set::new(|f: int| exists|i: int| 0 <= i < regions.len() && #[trigger] region_frames(regions[i]).contains(f))
}

proof fn lemma_usable_frames_step(regions: Seq<MemoryRegion>, i: int)
    requires
        0 <= i < regions.len(),
    ensures
        usable_frames(regions.take(i + 1)) == usable_frames(regions.take(i)).union(
            region_frames(regions[i]),
        ),
{
    let a = usable_frames(regions.take(i + 1));
    let b = usable_frames(regions.take(i)).union(region_frames(regions[i]));
    assert forall|f: int| a.contains(f) implies b.contains(f) by {
        let k = choose|k: int| 0 <= k < i + 1 && #[trigger] region_frames(regions.take(i + 1)[k]).contains(f);
        if k < i {
            assert(regions.take(i + 1)[k] == regions.take(i)[k]);
        }
    }
    assert forall|f: int| b.contains(f) implies a.contains(f) by {
        if region_frames(regions[i]).contains(f) {
            assert(regions.take(i + 1)[i] == regions[i]);
        } else {
            let k = choose|k: int| 0 <= k < i && #[trigger] region_frames(regions.take(i)[k]).contains(f);
            assert(regions.take(i + 1)[k] == regions.take(i)[k]);
        }
    }
    assert(a =~= b);
}

/// A frame comes from a region exactly when the region is usable and the
/// frame lies in it, at or above `FIRST_ALLOC_FRAME` (whatever the region's
/// start) and below `MAX_FRAMES`.
pub proof fn lemma_region_frames(r: MemoryRegion, f: int)
    ensures
        region_frames(r).contains(f) <==> (r.kind == MemoryRegionKind::Usable && FIRST_ALLOC_FRAME <= f
            < MAX_FRAMES && r.start / PAGE_SIZE <= f < r.end / PAGE_SIZE),
{
}

/// Marks free every frame of every usable region.
pub fn init(pmm: &mut Pmm, regions: &[MemoryRegion])
    requires
        old(pmm).wf(),
    ensures
        final(pmm).wf(),
        final(pmm)@.finite(),
        final(pmm)@ == old(pmm)@.union(usable_frames(regions@)),
        forall|i: int, f: int|
            #![trigger regions@[i], final(pmm)@.contains(f)]
            0 <= i < regions@.len() && regions@[i].kind == MemoryRegionKind::Usable && FIRST_ALLOC_FRAME
                <= f < MAX_FRAMES && regions@[i].start / PAGE_SIZE <= f < regions@[i].end / PAGE_SIZE
                ==> final(pmm)@.contains(f),
        forall|f: int|
            #[trigger] final(pmm)@.contains(f) ==> old(pmm)@.contains(f) || exists|i: int|
                0 <= i < regions@.len() && (#[trigger] regions@[i]).kind == MemoryRegionKind::Usable
                    && FIRST_ALLOC_FRAME <= f < MAX_FRAMES && regions@[i].start / PAGE_SIZE <= f
                    < regions@[i].end / PAGE_SIZE,
{
    let mut i: usize = 0;
    while i < regions.len()
        invariant
            pmm.wf(),
            0 <= i <= regions@.len(),
            pmm@ == old(pmm)@.union(usable_frames(regions@.take(i as int))),
        decreases regions@.len() - i,
    {
        let region = regions[i];
        let ghost before = pmm@;
        if region.kind == MemoryRegionKind::Usable {
            let s = region.start / PAGE_SIZE;
            let start: u64 = if s < 512 {
                512
            } else {
                s
            };
            let e = region.end / PAGE_SIZE;
            let end: u64 = if e < 524288 {
                e
            } else {
                524288
            };
            let mut frame: u64 = start;
            while frame < end
                invariant
                    pmm.wf(),
                    start <= end ==> start <= frame <= end,
                    start > end ==> frame == start,
                    end <= MAX_FRAMES,
                    pmm@ == before.union(Set::new(|f: int| start <= f < frame)),
                decreases end - frame,
            {
                let ghost b = pmm@;
                pmm.set_free(frame as usize);
                assert((frame as usize) as int == frame as int);
                assert(pmm@ == b.insert(frame as int));
                assert(pmm@ =~= before.union(Set::new(|f: int| start <= f < frame + 1))) by {
                    assert forall|f: int| #[trigger] pmm@.contains(f) == before.union(
                        Set::new(|f: int| start <= f < frame + 1),
                    ).contains(f) by {
                        assert(b.contains(f) == before.union(Set::new(|f: int| start <= f < frame)).contains(f));
                    }
                }
                frame = frame + 1;
            }
            assert(pmm@ =~= before.union(region_frames(region))) by {
                assert forall|f: int| #[trigger] pmm@.contains(f) == before.union(region_frames(region)).contains(f) by {
                    assert(pmm@.contains(f) == before.union(Set::new(|f: int| start <= f < frame)).contains(f));
                    assert(region_frames(region).contains(f) == (start <= f < end));
                }
            }
        } else {
            assert(pmm@ =~= before.union(region_frames(region)));
        }
        proof {
            lemma_usable_frames_step(regions@, i as int);
        }
        i = i + 1;
    }
    assert(regions@.take(i as int) =~= regions@);
    assert forall|i: int, f: int|
        0 <= i < regions@.len() && regions@[i].kind == MemoryRegionKind::Usable && FIRST_ALLOC_FRAME <= f
            < MAX_FRAMES && regions@[i].start / PAGE_SIZE <= f < regions@[i].end / PAGE_SIZE implies pmm@.contains(
        f,
    ) by {
        lemma_region_frames(regions@[i], f);
    }
    assert forall|f: int| #[trigger] pmm@.contains(f) implies old(pmm)@.contains(f) || exists|i: int|
        0 <= i < regions@.len() && (#[trigger] regions@[i]).kind == MemoryRegionKind::Usable
            && FIRST_ALLOC_FRAME <= f < MAX_FRAMES && regions@[i].start / PAGE_SIZE <= f < regions@[i].end
            / PAGE_SIZE by {
        if !old(pmm)@.contains(f) {
            let i = choose|i: int| 0 <= i < regions@.len() && #[trigger] region_frames(regions@[i]).contains(f);
            lemma_region_frames(regions@[i], f);
        }
    }
}

/// Takes a free frame and returns its physical address.
pub fn alloc_frame(pmm: &mut Pmm) -> (r: Option<u64>)
    requires
        old(pmm).wf(),
    ensures
        final(pmm).wf(),
        final(pmm)@.finite(),
        match r {
            Some(addr) => addr % PAGE_SIZE == 0 && addr / PAGE_SIZE < MAX_FRAMES
                && is_lowest_allocatable(old(pmm)@, (addr / PAGE_SIZE) as int) && final(pmm)@ == old(
                pmm,
            )@.remove((addr / PAGE_SIZE) as int) && final(pmm)@.len() + 1 == old(pmm)@.len(),
            None => !has_allocatable(old(pmm)@) && final(pmm)@ == old(pmm)@,
        },
{
    match pmm.allocate() {
        Some(f) => Some(f as u64 * PAGE_SIZE),
        None => None,
    }
}

/// Gives back the frame holding physical address `phys`.
pub fn free_frame(pmm: &mut Pmm, phys: u64)
    requires
        old(pmm).wf(),
    ensures
        final(pmm).wf(),
        final(pmm)@.finite(),
        final(pmm)@ == if phys / PAGE_SIZE < MAX_FRAMES {
            old(pmm)@.insert((phys / PAGE_SIZE) as int)
        } else {
            old(pmm)@
        },
        final(pmm)@.len() == if phys / PAGE_SIZE < MAX_FRAMES && !old(pmm)@.contains(
            (phys / PAGE_SIZE) as int,
        ) {
            old(pmm)@.len() + 1
        } else {
            old(pmm)@.len()
        },
{
    proof {
        pmm.lemma_view_bounded();
    }
    let f = phys / PAGE_SIZE;
    if f < 524288 {
        pmm.free(f as usize);
    }
}

/// Number of free frames.
pub fn free_frames(pmm: &Pmm) -> (r: usize)
    requires
        pmm.wf(),
    ensures
        r == pmm@.len(),
{
    pmm.free_count()
}

/// A frame given back below every other free frame (and not below
/// `FIRST_ALLOC_FRAME`) is the next one handed out; handing a frame out and
/// giving it back leaves the free set as it was; giving back a free frame
/// changes nothing.
pub proof fn lemma_free_then_alloc(free: Set<int>, f: int)
    requires
        FIRST_ALLOC_FRAME <= f,
        forall|g: int| free.contains(g) && FIRST_ALLOC_FRAME <= g ==> f < g,
    ensures
        is_lowest_allocatable(free.insert(f), f),
        free.contains(f) ==> free.insert(f) == free,
        free.insert(f).remove(f) == free.remove(f),
{
    assert(free.insert(f).remove(f) =~= free.remove(f));
    if free.contains(f) {
        assert(free.insert(f) =~= free);
    }
}

/// Handing out the lowest allocatable frame and giving it back restores the
/// free set, and the count of free frames drops by exactly one.
pub proof fn lemma_alloc_then_free(free: Set<int>, f: int)
    requires
        free.finite(),
        is_lowest_allocatable(free, f),
    ensures
        free.remove(f).insert(f) == free,
        free.remove(f).len() + 1 == free.len(),
        !has_allocatable(free.remove(f)) || exists|g: int| f < g && #[trigger] free.contains(g),
{
    assert(free.remove(f).insert(f) =~= free);
    if has_allocatable(free.remove(f)) {
        let g = choose|g: int| FIRST_ALLOC_FRAME <= g && free.remove(f).contains(g);
        assert(free.contains(g) && f < g);
    }
}

} // verus!
