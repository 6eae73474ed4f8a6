//! Physical-frame allocation.
//!
//! Physical memory arrives as a list of regions; the usable ones are cut
//! into 4 KiB frames, numbered densely from the first usable byte.  A
//! simple bump allocator hands frames out in order while the kernel boots;
//! the bitmap allocator then tracks every frame with one bit, 1 meaning
//! allocated, the most significant bit of each word holding the lowest
//! frame.  Addresses here are plain integers; mapping the bitmap's backing
//! frames into the virtual window is the hardware's side and stays outside
//! this crate.

use vstd::prelude::*;

verus! {

pub const FRAME_SIZE: u64 = 4096;

/// One region of the bootloader's physical memory map.
#[derive(Clone, Copy, PartialEq, Eq, Structural)]
pub struct MemoryRegion {
    pub start: u64,
    pub end: u64,
    pub usable: bool,
}

/// A region map the allocators can work with: usable regions are
/// frame-aligned, ordered within themselves, and pairwise disjoint.
pub open spec fn wf_regions(rs: Seq<MemoryRegion>) -> bool {
    &&& forall|i: int|
        0 <= i < rs.len() && rs[i].usable ==> (#[trigger] rs[i]).start % FRAME_SIZE == 0
            && rs[i].end % FRAME_SIZE == 0 && rs[i].start <= rs[i].end
    &&& forall|i: int, j: int|
        0 <= i < rs.len() && 0 <= j < rs.len() && i != j && rs[i].usable && rs[j].usable ==> ((
        #[trigger] rs[i]).end <= (#[trigger] rs[j]).start || rs[j].end <= rs[i].start)
}

/// Number of frames a single region contributes.
pub open spec fn region_frames(r: MemoryRegion) -> int {
    if r.usable {
        (r.end - r.start) / (FRAME_SIZE as int)
    } else {
        0
    }
}

/// Total number of usable frames in a region map.
pub open spec fn spec_total_frames(rs: Seq<MemoryRegion>) -> int
    decreases rs.len(),
{
    if rs.len() == 0 {
        0
    } else {
        region_frames(rs[0]) + spec_total_frames(rs.drop_first())
    }
}

/// The physical address of frame number `f`, counting only usable regions.
pub open spec fn spec_frame_addr(rs: Seq<MemoryRegion>, f: int) -> Option<int>
    decreases rs.len(),
{
    if rs.len() == 0 || f < 0 {
        None
    } else if rs[0].usable && f < region_frames(rs[0]) {
        Some(rs[0].start + f * (FRAME_SIZE as int))
    } else {
        spec_frame_addr(rs.drop_first(), f - region_frames(rs[0]))
    }
}

/// The dense frame number of a physical address, if it lies in a usable
/// region.
pub open spec fn spec_addr_to_frame(rs: Seq<MemoryRegion>, addr: int) -> Option<int>
    decreases rs.len(),
{
    if rs.len() == 0 {
        None
    } else if rs[0].usable && rs[0].start <= addr < rs[0].end {
        Some((addr - rs[0].start) / (FRAME_SIZE as int))
    } else {
        match spec_addr_to_frame(rs.drop_first(), addr) {
            None => None,
            Some(f) => Some(region_frames(rs[0]) + f),
        }
    }
}

proof fn lemma_total_frames_nonneg(rs: Seq<MemoryRegion>)
    requires
        wf_regions(rs),
    ensures
        spec_total_frames(rs) >= 0,
        forall|i: int| 0 <= i < rs.len() ==> region_frames(#[trigger] rs[i]) >= 0,
    decreases rs.len(),
{
    if rs.len() > 0 {
        assert(wf_regions(rs.drop_first())) by {
            assert(forall|i: int|
                0 <= i < rs.drop_first().len() ==> rs.drop_first()[i] == rs[i + 1]);
        }
        lemma_total_frames_nonneg(rs.drop_first());
        assert forall|i: int| 0 <= i < rs.len() implies region_frames(#[trigger] rs[i]) >= 0 by {
            if i > 0 {
                assert(rs.drop_first()[i - 1] == rs[i]);
            }
        }
    }
}

/// For every frame number below the total, the physical address it maps
/// to maps back to the same number.
pub proof fn lemma_frame_round_trip(rs: Seq<MemoryRegion>, f: int)
    requires
        wf_regions(rs),
        0 <= f < spec_total_frames(rs),
    ensures
        spec_frame_addr(rs, f) is Some,
        spec_addr_to_frame(rs, spec_frame_addr(rs, f)->0) == Some(f),
    decreases rs.len(),
{
    lemma_total_frames_nonneg(rs);
    let fsz = FRAME_SIZE as int;
    assert(wf_regions(rs.drop_first())) by {
        assert(forall|i: int| 0 <= i < rs.drop_first().len() ==> rs.drop_first()[i] == rs[i + 1]);
    }
    if rs[0].usable && f < region_frames(rs[0]) {
        let addr = rs[0].start + f * fsz;
        assert(f * fsz >= 0) by (nonlinear_arith)
            requires
                f >= 0,
                fsz > 0,
        ;
        assert(f * fsz < rs[0].end - rs[0].start) by (nonlinear_arith)
            requires
                f < (rs[0].end - rs[0].start) / fsz,
                fsz > 0,
                rs[0].start as int % fsz == 0,
                rs[0].end as int % fsz == 0,
                rs[0].start <= rs[0].end,
        ;
        assert(rs[0].start <= addr < rs[0].end);
        assert((addr - rs[0].start) / fsz == f) by (nonlinear_arith)
            requires
                addr - rs[0].start == f * fsz,
                fsz > 0,
                f >= 0,
        ;
    } else {
        let f2 = f - region_frames(rs[0]);
        lemma_frame_round_trip(rs.drop_first(), f2);
        let addr = spec_frame_addr(rs.drop_first(), f2)->0;
        // the address lies in a later usable region, which is disjoint
        // from the first one
        lemma_addr_in_some_region(rs.drop_first(), addr);
        if rs[0].usable && rs[0].start <= addr < rs[0].end {
            let k = choose|k: int|
                0 <= k < rs.drop_first().len() && #[trigger] rs.drop_first()[k].usable
                    && rs.drop_first()[k].start <= addr < rs.drop_first()[k].end;
            assert(rs.drop_first()[k] == rs[k + 1]);
            assert(false);
        }
    }
}

/// A frame number with an address lies below the total frame count.
proof fn lemma_frame_addr_lt_total(rs: Seq<MemoryRegion>, f: int)
    requires
        wf_regions(rs),
        spec_frame_addr(rs, f) is Some,
    ensures
        0 <= f < spec_total_frames(rs),
    decreases rs.len(),
{
    lemma_total_frames_nonneg(rs);
    assert(wf_regions(rs.drop_first())) by {
        assert(forall|i: int|
            0 <= i < rs.drop_first().len() ==> rs.drop_first()[i] == rs[i + 1]);
    }
    lemma_total_frames_nonneg(rs.drop_first());
    if rs[0].usable && f < region_frames(rs[0]) {
    } else {
        lemma_frame_addr_lt_total(rs.drop_first(), f - region_frames(rs[0]));
    }
}

/// A frame address is a valid 64-bit physical address.
proof fn lemma_frame_addr_bounds(rs: Seq<MemoryRegion>, f: int)
    requires
        wf_regions(rs),
        spec_frame_addr(rs, f) is Some,
    ensures
        0 <= spec_frame_addr(rs, f)->0 < 0x1_0000_0000_0000_0000,
    decreases rs.len(),
{
    let fsz = FRAME_SIZE as int;
    if rs[0].usable && f < region_frames(rs[0]) {
        assert(0 <= f * fsz < rs[0].end - rs[0].start) by (nonlinear_arith)
            requires
                0 <= f < (rs[0].end - rs[0].start) / fsz,
                fsz > 0,
                rs[0].start as int % fsz == 0,
                rs[0].end as int % fsz == 0,
                rs[0].start <= rs[0].end,
        ;
    } else {
        assert(wf_regions(rs.drop_first())) by {
            assert(forall|i: int|
                0 <= i < rs.drop_first().len() ==> rs.drop_first()[i] == rs[i + 1]);
        }
        lemma_frame_addr_bounds(rs.drop_first(), f - region_frames(rs[0]));
    }
}

/// A frame number computed from an address lies below the total.
#[verifier::rlimit(60)]
proof fn lemma_addr_to_frame_lt_total(rs: Seq<MemoryRegion>, addr: int)
    requires
        wf_regions(rs),
        spec_addr_to_frame(rs, addr) is Some,
    ensures
        spec_addr_to_frame(rs, addr)->0 < spec_total_frames(rs),
    decreases rs.len(),
{
    lemma_total_frames_nonneg(rs);
    assert(wf_regions(rs.drop_first())) by {
        assert(forall|i: int| 0 <= i < rs.drop_first().len() ==> rs.drop_first()[i] == rs[i + 1]);
    }
    lemma_total_frames_nonneg(rs.drop_first());
    if rs[0].usable && rs[0].start <= addr < rs[0].end {
        let fsz = FRAME_SIZE as int;
        let k = (addr - rs[0].start) / fsz;
        let n = (rs[0].end - rs[0].start) / fsz;
        assert(k * fsz <= addr - rs[0].start) by (nonlinear_arith)
            requires
                k == (addr - rs[0].start) / fsz,
                fsz > 0,
                addr >= rs[0].start,
        ;
        assert(n * fsz == rs[0].end - rs[0].start) by (nonlinear_arith)
            requires
                n == (rs[0].end - rs[0].start) / fsz,
                fsz > 0,
                rs[0].start as int % fsz == 0,
                rs[0].end as int % fsz == 0,
                rs[0].start <= rs[0].end,
        ;
        assert(k < n) by (nonlinear_arith)
            requires
                k * fsz <= addr - rs[0].start,
                addr < rs[0].end,
                n * fsz == rs[0].end - rs[0].start,
                fsz > 0,
        ;
    } else {
        lemma_addr_to_frame_lt_total(rs.drop_first(), addr);
    }
}

/// A frame number computed from an address is never negative.
proof fn lemma_addr_to_frame_nonneg(rs: Seq<MemoryRegion>, addr: int)
    requires
        wf_regions(rs),
        spec_addr_to_frame(rs, addr) is Some,
    ensures
        spec_addr_to_frame(rs, addr)->0 >= 0,
    decreases rs.len(),
{
    lemma_total_frames_nonneg(rs);
    if rs[0].usable && rs[0].start <= addr < rs[0].end {
    } else {
        assert(wf_regions(rs.drop_first())) by {
            assert(forall|i: int|
                0 <= i < rs.drop_first().len() ==> rs.drop_first()[i] == rs[i + 1]);
        }
        lemma_addr_to_frame_nonneg(rs.drop_first(), addr);
    }
}

/// Any address that translates to a frame number lies inside some usable
/// region.
proof fn lemma_addr_in_some_region(rs: Seq<MemoryRegion>, addr: int)
    requires
        spec_addr_to_frame(rs, addr) is Some,
    ensures
        exists|k: int|
            0 <= k < rs.len() && (#[trigger] rs[k]).usable && rs[k].start <= addr < rs[k].end,
    decreases rs.len(),
{
    if rs[0].usable && rs[0].start <= addr < rs[0].end {
        assert(0 <= 0 < rs.len() && rs[0].usable && rs[0].start <= addr < rs[0].end);
    } else {
        lemma_addr_in_some_region(rs.drop_first(), addr);
        let k = choose|k: int|
            0 <= k < rs.drop_first().len() && (#[trigger] rs.drop_first()[k]).usable
                && rs.drop_first()[k].start <= addr < rs.drop_first()[k].end;
        assert(rs[k + 1] == rs.drop_first()[k]);
    }
}

/// Boot-time physical frame allocator.
///
/// A counter over the usable frames: hands out frame `next`, then
/// `next + 1`, and never reuses one.  It bootstraps the bitmap allocator
/// and is not used once that one is live.
pub struct BootFrameAllocator {
    pub regions: Vec<MemoryRegion>,
    pub next: usize,
}

impl BootFrameAllocator {
    pub open spec fn wf(self) -> bool {
        wf_regions(self.regions@)
    }

    /// A fresh allocator with no allocated frames.
    pub fn new(regions: Vec<MemoryRegion>) -> (r: BootFrameAllocator)
        ensures
            r.regions@ == regions@,
            r.next == 0,
    {
        BootFrameAllocator { regions, next: 0 }
    }

    /// The number of frames that have been allocated.
    pub fn used(&self) -> (r: usize)
        ensures
            r == self.next,
    {
        self.next
    }

    /// Hand out the next usable frame, in dense order.
    pub fn allocate_frame(&mut self) -> (r: Option<u64>)
        requires
            old(self).wf(),
            spec_total_frames(old(self).regions@) <= usize::MAX as int,
        ensures
            final(self).regions@ == old(self).regions@,
            ({
                match spec_frame_addr(old(self).regions@, old(self).next as int) {
                    Some(a) => r == Some(a as u64) && final(self).next == old(self).next + 1,
                    None => r is None && final(self).next == old(self).next,
                }
            }),
    {
        match frame_to_address_in(&self.regions, self.next as u64) {
            Some(a) => {
                proof {
                    lemma_frame_addr_lt_total(self.regions@, self.next as int);
                }
                self.next = self.next + 1;
                Some(a)
            },
            None => None,
        }
    }
}

/// The number of usable frames in a region map.
fn total_frames_in(regions: &Vec<MemoryRegion>) -> (r: u64)
    requires
        wf_regions(regions@),
        spec_total_frames(regions@) <= 0x20_0000_0000,
    ensures
        r as int == spec_total_frames(regions@),
{
    proof {
        lemma_total_frames_nonneg(regions@);
        assert(regions@.skip(0) =~= regions@);
    }
    let mut i: usize = 0;
    let mut frames: u64 = 0;
    while i < regions.len()
        invariant
            0 <= i <= regions.len(),
            wf_regions(regions@),
            spec_total_frames(regions@) <= 0x20_0000_0000,
            frames as int + spec_total_frames(regions@.skip(i as int)) == spec_total_frames(
                regions@,
            ),
            spec_total_frames(regions@.skip(i as int)) >= 0,
            frames as int <= spec_total_frames(regions@),
        decreases regions.len() - i,
    {
        let r = regions[i];
        proof {
            assert(regions@.skip(i as int)[0] == regions@[i as int]);
            assert(regions@.skip(i as int).drop_first() =~= regions@.skip(i + 1));
            assert(wf_regions(regions@.skip(i + 1))) by {
                assert(forall|k: int|
                    0 <= k < regions@.skip(i + 1).len() ==> #[trigger] regions@.skip(i + 1)[k]
                        == regions@[i + 1 + k]);
            }
            lemma_total_frames_nonneg(regions@.skip(i + 1));
        }
        if r.usable {
            frames = frames + (r.end - r.start) / FRAME_SIZE;
        }
        i = i + 1;
    }
    proof {
        assert(regions@.skip(regions@.len() as int).len() == 0);
    }
    frames
}

/// Walk the region list and translate a dense frame number to an address.
fn frame_to_address_in(regions: &Vec<MemoryRegion>, frame: u64) -> (r: Option<u64>)
    requires
        wf_regions(regions@),
    ensures
        ({
            match spec_frame_addr(regions@, frame as int) {
                Some(a) => r == Some(a as u64),
                None => r is None,
            }
        }),
{
    proof {
        lemma_total_frames_nonneg(regions@);
        assert(regions@.skip(0) =~= regions@);
    }
    let mut i: usize = 0;
    let mut f: u64 = frame;
    while i < regions.len()
        invariant
            0 <= i <= regions.len(),
            wf_regions(regions@),
            0 <= f <= frame,
            spec_frame_addr(regions@, frame as int) == spec_frame_addr(
                regions@.skip(i as int),
                f as int,
            ),
        decreases regions.len() - i,
    {
        let r = regions[i];
        proof {
            assert(regions@.skip(i as int)[0] == regions@[i as int]);
            assert(regions@.skip(i as int).drop_first() =~= regions@.skip(i + 1));
        }
        if r.usable {
            let n = (r.end - r.start) / FRAME_SIZE;
            if f < n {
                proof {
                    let fsz = FRAME_SIZE as int;
                    assert(f * fsz <= (n - 1) * fsz < r.end - r.start) by (nonlinear_arith)
                        requires
                            0 <= f as int <= n - 1,
                            fsz > 0,
                            n == (r.end - r.start) / fsz,
                            r.start <= r.end,
                            r.start as int % fsz == 0,
                            r.end as int % fsz == 0,
                    ;
                }
                return Some(r.start + f * FRAME_SIZE);
            }
            f = f - n;
        }
        i = i + 1;
    }
    proof {
        assert(regions@.skip(regions@.len() as int).len() == 0);
    }
    None
}

/// Walk the region list and translate an address to its dense frame number.
fn address_to_frame_in(regions: &Vec<MemoryRegion>, addr: u64) -> (r: Option<u64>)
    requires
        wf_regions(regions@),
        spec_total_frames(regions@) <= 0x20_0000_0000,
    ensures
        ({
            match spec_addr_to_frame(regions@, addr as int) {
                Some(f) => r == Some(f as u64),
                None => r is None,
            }
        }),
{
    proof {
        lemma_total_frames_nonneg(regions@);
        assert(regions@.skip(0) =~= regions@);
    }
    let mut i: usize = 0;
    let mut frame: u64 = 0;
    while i < regions.len()
        invariant
            0 <= i <= regions.len(),
            wf_regions(regions@),
            spec_total_frames(regions@) <= 0x20_0000_0000,
            frame as int + spec_total_frames(regions@.skip(i as int)) == spec_total_frames(
                regions@,
            ),
            spec_total_frames(regions@.skip(i as int)) >= 0,
            ({
                match spec_addr_to_frame(regions@, addr as int) {
                    None => spec_addr_to_frame(regions@.skip(i as int), addr as int) is None,
                    Some(f) => (match spec_addr_to_frame(regions@.skip(i as int), addr as int) {
                        Some(g) => f == frame + g,
                        None => false,
                    }),
                }
            }),
        decreases regions.len() - i,
    {
        let r = regions[i];
        proof {
            assert(regions@.skip(i as int)[0] == regions@[i as int]);
            assert(regions@.skip(i as int).drop_first() =~= regions@.skip(i + 1));
            assert(wf_regions(regions@.skip(i + 1))) by {
                assert(forall|k: int|
                    0 <= k < regions@.skip(i + 1).len() ==> #[trigger] regions@.skip(i + 1)[k]
                        == regions@[i + 1 + k]);
            }
            lemma_total_frames_nonneg(regions@.skip(i + 1));
        }
        if r.usable && r.start <= addr && addr < r.end {
            return Some(frame + (addr - r.start) / FRAME_SIZE);
        }
        if r.usable {
            let n = (r.end - r.start) / FRAME_SIZE;
            frame = frame + n;
        }
        i = i + 1;
    }
    None
}

/// How many frames the bitmap itself occupies for a given region map.
pub open spec fn spec_bitmap_frames(rs: Seq<MemoryRegion>) -> int {
    ((spec_total_frames(rs) + 7) / 8 + 4095) / 4096
}

/// Frames `f0 .. f0 + n` occupy physically contiguous addresses.
pub open spec fn spec_contiguous(rs: Seq<MemoryRegion>, f0: int, n: int) -> bool {
    &&& spec_frame_addr(rs, f0) is Some
    &&& spec_frame_addr(rs, f0 + n - 1) is Some
    &&& spec_frame_addr(rs, f0 + n - 1)->0 - spec_frame_addr(rs, f0)->0 == (n - 1) * (
    FRAME_SIZE as int)
}

/// Does bit `f` of the bitmap say "allocated"?  Frame `f` lives in word
/// `f / 64`, at bit `63 - f % 64`, most significant bit first.
pub open spec fn frame_bit(bm: Seq<u64>, f: int) -> bool {
    0 <= f < bm.len() * 64 && (bm[f / 64] >> ((63 - (f % 64)) as u64)) & 1 == 1
}

/// The lowest frame number at or after `f` whose bit is clear, or the
/// total bit count if every bit from `f` on is set.
pub open spec fn first_clear(bm: Seq<u64>, f: int) -> int
    decreases bm.len() * 64 - f when 0 <= f <= bm.len() * 64
{
    if f >= bm.len() * 64 {
        f
    } else if !frame_bit(bm, f) {
        f
    } else {
        first_clear(bm, f + 1)
    }
}

proof fn lemma_first_clear(bm: Seq<u64>, f: int)
    requires
        0 <= f <= bm.len() * 64,
    ensures
        f <= first_clear(bm, f) <= bm.len() * 64,
        forall|g: int| f <= g < first_clear(bm, f) ==> frame_bit(bm, g),
        first_clear(bm, f) < bm.len() * 64 ==> !frame_bit(bm, first_clear(bm, f)),
    decreases bm.len() * 64 - f,
{
    if f >= bm.len() * 64 {
    } else if !frame_bit(bm, f) {
    } else {
        lemma_first_clear(bm, f + 1);
    }
}

proof fn lemma_first_clear_unique(bm: Seq<u64>, f: int)
    requires
        0 <= f <= bm.len() * 64,
        forall|g: int| 0 <= g < f ==> frame_bit(bm, g),
        f < bm.len() * 64 ==> !frame_bit(bm, f),
    ensures
        first_clear(bm, 0) == f,
{
    lemma_first_clear(bm, 0);
}

proof fn lemma_set_bit(w: u64, b: u64, c: u64)
    requires
        b < 64,
        c < 64,
    ensures
        b == c ==> ((w | (1u64 << ((63 - b) as u64))) >> ((63 - c) as u64)) & 1 == 1,
        b != c ==> ((w | (1u64 << ((63 - b) as u64))) >> ((63 - c) as u64)) & 1 == (w >> ((63
            - c) as u64)) & 1,
{
    assert(b == c ==> ((w | (1u64 << ((63 - b) as u64))) >> ((63 - c) as u64)) & 1 == 1)
        by (bit_vector)
        requires
            b < 64,
            c < 64,
    ;
    assert(b != c ==> ((w | (1u64 << ((63 - b) as u64))) >> ((63 - c) as u64)) & 1 == (w >> ((63
        - c) as u64)) & 1) by (bit_vector)
        requires
            b < 64,
            c < 64,
    ;
}

proof fn lemma_clear_bit(w: u64, b: u64, c: u64)
    requires
        b < 64,
        c < 64,
    ensures
        b == c ==> ((w & !(1u64 << ((63 - b) as u64))) >> ((63 - c) as u64)) & 1 == 0,
        b != c ==> ((w & !(1u64 << ((63 - b) as u64))) >> ((63 - c) as u64)) & 1 == (w >> ((63
            - c) as u64)) & 1,
{
    assert(b == c ==> ((w & !(1u64 << ((63 - b) as u64))) >> ((63 - c) as u64)) & 1 == 0)
        by (bit_vector)
        requires
            b < 64,
            c < 64,
    ;
    assert(b != c ==> ((w & !(1u64 << ((63 - b) as u64))) >> ((63 - c) as u64)) & 1 == (w >> ((63
        - c) as u64)) & 1) by (bit_vector)
        requires
            b < 64,
            c < 64,
    ;
}

/// Set the bit of `frame` in the bitmap.
fn mark_frame_used(bitmap: &mut Vec<u64>, frame: u64)
    requires
        (frame / 64) < old(bitmap)@.len(),
    ensures
        final(bitmap)@.len() == old(bitmap)@.len(),
        forall|g: int|
            0 <= g < final(bitmap)@.len() * 64 ==> #[trigger] frame_bit(final(bitmap)@, g) == (g
                == frame as int || frame_bit(old(bitmap)@, g)),
{
    let word = (frame / 64) as usize;
    let bit = 63 - (frame % 64);
    let w = bitmap[word];
    bitmap.set(word, w | (1u64 << bit));
    proof {
        assert forall|g: int|
            0 <= g < bitmap@.len() * 64 implies #[trigger] frame_bit(bitmap@, g) == (g
            == frame as int || frame_bit(old(bitmap)@, g)) by {
            let gw = g / 64;
            let gb = (g % 64) as u64;
            assert(0 <= gw < bitmap@.len()) by (nonlinear_arith)
                requires
                    0 <= g < bitmap@.len() * 64,
                    gw == g / 64,
            ;
            if gw == word {
                lemma_set_bit(w, (frame % 64) as u64, gb);
                assert(g == frame as int <==> (g / 64 == frame as int / 64 && g % 64
                    == frame as int % 64)) by (nonlinear_arith);
            } else {
                assert(g != frame as int) by (nonlinear_arith)
                    requires
                        gw != word as int,
                        gw == g / 64,
                        word as int == frame as int / 64,
                ;
            }
        }
    }
}

/// Bitmap frame allocator.
///
/// One bit per usable frame, 1 meaning allocated.  The bitmap occupies the
/// first frames the boot allocator handed out; those bits, and the bits of
/// everything allocated before, are set at initialization.
pub struct BitmapFrameAllocator {
    pub regions: Vec<MemoryRegion>,
    pub bitmap: Vec<u64>,
}

impl BitmapFrameAllocator {
    pub open spec fn wf(self) -> bool {
        &&& wf_regions(self.regions@)
        &&& spec_total_frames(self.regions@) <= 0x20_0000_0000
        &&& self.bitmap@.len() <= 0x1_0000_0000_0000
        &&& spec_total_frames(self.regions@) <= self.bitmap@.len() * 64
        &&& forall|g: int|
            spec_total_frames(self.regions@) <= g < self.bitmap@.len() * 64 ==> frame_bit(
                self.bitmap@,
                g,
            )
    }

    /// How many bytes of bitmap the usable memory needs: one bit per
    /// frame, rounded up to whole bytes.
    pub fn required_bitmap_size(regions: &Vec<MemoryRegion>) -> (r: u64)
        requires
            wf_regions(regions@),
            spec_total_frames(regions@) <= 0x20_0000_0000,
        ensures
            r as int == (spec_total_frames(regions@) + 7) / 8,
    {
        proof {
            lemma_total_frames_nonneg(regions@);
            assert(regions@.skip(0) =~= regions@);
        }
        let mut i: usize = 0;
        let mut frames: u64 = 0;
        while i < regions.len()
            invariant
                0 <= i <= regions.len(),
                wf_regions(regions@),
                spec_total_frames(regions@) <= 0x20_0000_0000,
                frames as int + spec_total_frames(regions@.skip(i as int)) == spec_total_frames(
                    regions@,
                ),
                spec_total_frames(regions@.skip(i as int)) >= 0,
                frames as int <= spec_total_frames(regions@),
            decreases regions.len() - i,
        {
            let r = regions[i];
            proof {
                assert(regions@.skip(i as int)[0] == regions@[i as int]);
                assert(regions@.skip(i as int).drop_first() =~= regions@.skip(i + 1));
                assert(wf_regions(regions@.skip(i + 1))) by {
                    assert(forall|k: int|
                        0 <= k < regions@.skip(i + 1).len() ==> #[trigger] regions@.skip(i + 1)[k]
                            == regions@[i + 1 + k]);
                }
                lemma_total_frames_nonneg(regions@.skip(i + 1));
            }
            if r.usable {
                frames = frames + (r.end - r.start) / FRAME_SIZE;
            }
            i = i + 1;
        }
        (frames + 7) / 8
    }

    /// Build the allocator from a fresh region map, bootstrapping through
    /// a boot allocator of its own.
    pub fn new(regions: Vec<MemoryRegion>) -> (r: BitmapFrameAllocator)
        requires
            wf_regions(regions@),
            0 < spec_total_frames(regions@) <= 0x20_0000_0000,
            spec_total_frames(regions@) <= usize::MAX as int,
            spec_bitmap_frames(regions@) <= spec_total_frames(regions@),
            spec_contiguous(regions@, 0, spec_bitmap_frames(regions@)),
        ensures
            r.wf(),
            r.regions@ == regions@,
            r.bitmap@.len() == spec_bitmap_frames(regions@) * 512,
            forall|g: int|
                0 <= g < r.bitmap@.len() * 64 ==> #[trigger] frame_bit(r.bitmap@, g) == (g
                    < spec_bitmap_frames(regions@) || spec_total_frames(regions@) <= g),
    {
        let alloc = BootFrameAllocator::new(regions);
        Self::new_with_alloc(alloc)
    }

    /// Build the allocator, pulling the frames that back the bitmap from
    /// the given boot allocator.  Those frames must be physically
    /// contiguous, and every frame the boot allocator has handed out so
    /// far is marked allocated in the fresh bitmap.
    pub fn new_with_alloc(alloc: BootFrameAllocator) -> (r: BitmapFrameAllocator)
        requires
            alloc.wf(),
            0 < spec_total_frames(alloc.regions@) <= 0x20_0000_0000,
            spec_total_frames(alloc.regions@) <= usize::MAX as int,
            alloc.next + spec_bitmap_frames(alloc.regions@) <= spec_total_frames(alloc.regions@),
            spec_contiguous(
                alloc.regions@,
                alloc.next as int,
                spec_bitmap_frames(alloc.regions@),
            ),
        ensures
            r.wf(),
            r.regions@ == alloc.regions@,
            r.bitmap@.len() == spec_bitmap_frames(alloc.regions@) * 512,
            forall|g: int|
                0 <= g < r.bitmap@.len() * 64 ==> #[trigger] frame_bit(r.bitmap@, g) == (g
                    < alloc.next + spec_bitmap_frames(alloc.regions@) || spec_total_frames(
                    alloc.regions@,
                ) <= g),
    {
        let mut alloc = alloc;
        let ghost rs = alloc.regions@;
        let ghost total = spec_total_frames(rs);
        let bitmap_size = Self::required_bitmap_size(&alloc.regions);
        let bitmap_frames = (bitmap_size + FRAME_SIZE - 1) / FRAME_SIZE;
        let ghost next0 = alloc.next as int;
        proof {
            lemma_total_frames_nonneg(rs);
            lemma_frame_round_trip(rs, next0);
            lemma_frame_addr_bounds(rs, next0);
            assert(spec_bitmap_frames(rs) >= 1) by (nonlinear_arith)
                requires
                    spec_bitmap_frames(rs) == ((total + 7) / 8 + 4095) / 4096,
                    total >= 1,
            ;
        }
        let first_frame = match alloc.allocate_frame() {
            Some(a) => a,
            None => {
                proof {
                    assert(false);
                }
                0
            },
        };
        let mut k: u64 = 1;
        let mut last_frame = first_frame;
        while k < bitmap_frames
            invariant
                1 <= k <= spec_bitmap_frames(rs) || (spec_bitmap_frames(rs) < 1 && k == 1),
                alloc.regions@ == rs,
                wf_regions(rs),
                0 < total <= 0x20_0000_0000,
                total <= usize::MAX as int,
                total == spec_total_frames(rs),
                next0 + spec_bitmap_frames(rs) <= total,
                bitmap_frames as int == spec_bitmap_frames(rs),
                alloc.next as int == next0 + k,
                next0 + k <= total,
                spec_frame_addr(rs, next0 + k - 1) == Some(last_frame as int),
            decreases bitmap_frames - k,
        {
            proof {
                lemma_frame_round_trip(rs, next0 + k);
                lemma_frame_addr_bounds(rs, next0 + k);
            }
            last_frame = match alloc.allocate_frame() {
                Some(a) => a,
                None => {
                    proof {
                        assert(false);
                    }
                    0
                },
            };
            k = k + 1;
        }
        // the backing frames are physically contiguous, by assumption on
        // the boot allocator's position in the region map
        proof {
            assert(last_frame as int + FRAME_SIZE - first_frame as int == spec_bitmap_frames(rs)
                * (FRAME_SIZE as int)) by (nonlinear_arith)
            requires
                last_frame as int - first_frame as int == (spec_bitmap_frames(rs) - 1) * (
                FRAME_SIZE as int),
            ;
        }
        // the bitmap starts zeroed
        proof {
            assert(spec_bitmap_frames(rs) <= 0x40_0001) by (nonlinear_arith)
                requires
                    spec_bitmap_frames(rs) == ((total + 7) / 8 + 4095) / 4096,
                    0 < total <= 0x20_0000_0000,
            ;
            assert(usize::MAX as int >= 0xFFFF_FFFF);
            assert(bitmap_frames as int * 512 <= usize::MAX as int);
        }
        let words = (bitmap_frames as usize) * (FRAME_SIZE as usize / 8);
        let mut bitmap: Vec<u64> = Vec::new();
        let mut w: usize = 0;
        while w < words
            invariant
                bitmap@.len() == w,
                w <= words,
                forall|j: int| 0 <= j < w ==> bitmap@[j] == 0u64,
            decreases words - w,
        {
            bitmap.push(0u64);
            w = w + 1;
        }
        proof {
            assert forall|g: int| 0 <= g < bitmap@.len() * 64 implies !frame_bit(bitmap@, g) by {
                assert(0 <= g / 64 < bitmap@.len()) by (nonlinear_arith)
                    requires
                        0 <= g < bitmap@.len() * 64,
                ;
                let c = (63 - (g % 64)) as u64;
                assert((0u64 >> c) & 1 == 0) by (bit_vector);
            }
            // every frame the boot allocator handed out fits in the bitmap
            assert(total <= bitmap@.len() * 64) by (nonlinear_arith)
                requires
                    bitmap@.len() == spec_bitmap_frames(rs) * 512,
                    spec_bitmap_frames(rs) == ((total + 7) / 8 + 4095) / 4096,
                    total > 0,
            ;
        }
        // mark everything handed out so far, the bitmap's own frames
        // included, as allocated
        let used = alloc.used();
        let mut f: usize = 0;
        while f < used
            invariant
                f <= used,
                used == next0 + spec_bitmap_frames(rs),
                used <= bitmap@.len() * 64,
                bitmap@.len() == spec_bitmap_frames(rs) * 512,
                forall|g: int|
                    0 <= g < bitmap@.len() * 64 ==> #[trigger] frame_bit(bitmap@, g) == (g
                        < f as int),
            decreases used - f,
        {
            proof {
                assert((f as int) / 64 < bitmap@.len()) by (nonlinear_arith)
                    requires
                        0 <= (f as int) < bitmap@.len() * 64,
                ;
            }
            mark_frame_used(&mut bitmap, f as u64);
            f = f + 1;
        }
        // the padding bits past the last real frame are set once and for
        // all, so exhaustion means exactly "every usable frame taken"
        let total = total_frames_in(&alloc.regions);
        let bits = (bitmap.len() as u64) * 64;
        let mut g: u64 = total;
        while g < bits
            invariant
                total == spec_total_frames(rs),
                used as int <= total,
                bits == bitmap@.len() * 64,
                bitmap@.len() == spec_bitmap_frames(rs) * 512,
                total <= g <= bits,
                forall|q: int|
                    0 <= q < bitmap@.len() * 64 ==> #[trigger] frame_bit(bitmap@, q) == (q
                        < used as int || total <= q < g),
            decreases bits - g,
        {
            proof {
                assert((g as int) / 64 < bitmap@.len()) by (nonlinear_arith)
                    requires
                        0 <= (g as int) < bitmap@.len() * 64,
                ;
            }
            mark_frame_used(&mut bitmap, g);
            g = g + 1;
        }
        BitmapFrameAllocator { regions: alloc.regions, bitmap }
    }

    /// Find the lowest frame whose bit is clear.
    fn first_free_frame(&self) -> (r: Option<u64>)
        requires
            self.wf(),
        ensures
            ({
                let fc = first_clear(self.bitmap@, 0);
                if fc < self.bitmap@.len() * 64 {
                    r == Some(fc as u64)
                } else {
                    r is None
                }
            }),
    {
        let mut i: usize = 0;
        while i < self.bitmap.len()
            invariant
                self.wf(),
                0 <= i <= self.bitmap@.len(),
                forall|g: int| 0 <= g < i * 64 ==> frame_bit(self.bitmap@, g),
            decreases self.bitmap@.len() - i,
        {
            let w = self.bitmap[i];
            if w != u64::MAX {
                let mut b: u64 = 0;
                while b < 64
                    invariant
                        self.wf(),
                        0 <= i < self.bitmap@.len(),
                        0 <= b <= 64,
                        w == self.bitmap@[i as int],
                        forall|g: int| 0 <= g < i * 64 ==> frame_bit(self.bitmap@, g),
                        forall|j: int|
                            0 <= j < b ==> frame_bit(self.bitmap@, #[trigger] (i * 64 + j)),
                    decreases 64 - b,
                {
                    if (w >> (63 - b)) & 1 == 0 {
                        let f = (i as u64) * 64 + b;
                        proof {
                            assert(f as int / 64 == i as int && f as int % 64 == b as int)
                                by (nonlinear_arith)
                                requires
                                    f as int == i as int * 64 + b as int,
                                    0 <= b < 64,
                                    i as int >= 0,
                            ;
                            assert(!frame_bit(self.bitmap@, f as int));
                            assert forall|g: int| 0 <= g < f as int implies frame_bit(
                                self.bitmap@,
                                g,
                            ) by {
                                if g >= i * 64 {
                                    assert(g == i * 64 + (g - i * 64));
                                }
                            }
                            lemma_first_clear_unique(self.bitmap@, f as int);
                        }
                        return Some(f);
                    }
                    proof {
                        assert(((i * 64 + b) as int) / 64 == i as int && ((i * 64 + b) as int) % 64
                            == b as int) by (nonlinear_arith)
                            requires
                                0 <= b < 64,
                                0 <= i,
                        ;
                        let c = (63 - b) as u64;
                        assert((w >> c) & 1 == 0 || (w >> c) & 1 == 1) by (bit_vector)
                            requires
                                c < 64,
                        ;
                        assert forall|j: int|
                            0 <= j < b + 1 implies frame_bit(
                            self.bitmap@,
                            #[trigger] (i * 64 + j),
                        ) by {
                            assert(((i * 64 + j) as int) / 64 == i as int && ((i * 64
                                + j) as int) % 64 == j) by (nonlinear_arith)
                                requires
                                    0 <= j < 64,
                                    0 <= i,
                            ;
                        }
                    }
                    b = b + 1;
                }
            } else {
                proof {
                    assert forall|j: int| 0 <= j < 64 implies frame_bit(
                        self.bitmap@,
                        #[trigger] (i * 64 + j),
                    ) by {
                        let c = (63 - j) as u64;
                        assert((u64::MAX >> c) & 1 == 1) by (bit_vector)
                            requires
                                c < 64,
                        ;
                        assert(((i * 64 + j) as int) / 64 == i as int && ((i * 64 + j) as int) % 64
                            == j) by (nonlinear_arith)
                            requires
                                0 <= j < 64,
                                0 <= i,
                        ;
                    }
                }
            }
            proof {
                assert forall|g: int| 0 <= g < (i + 1) * 64 implies frame_bit(self.bitmap@, g) by {
                    if g >= i * 64 {
                        assert(g == i * 64 + (g - i * 64));
                    }
                }
            }
            i = i + 1;
        }
        proof {
            lemma_first_clear_unique(self.bitmap@, self.bitmap@.len() * 64 as int);
        }
        None
    }

    /// Convert a frame number to its physical address.
    pub fn frame_to_address(&self, frame: u64) -> (r: Option<u64>)
        requires
            self.wf(),
        ensures
            ({
                match spec_frame_addr(self.regions@, frame as int) {
                    Some(a) => r == Some(a as u64),
                    None => r is None,
                }
            }),
    {
        frame_to_address_in(&self.regions, frame)
    }

    /// Convert a physical address to its frame number.
    pub fn address_to_frame(&self, addr: u64) -> (r: Option<u64>)
        requires
            self.wf(),
        ensures
            ({
                match spec_addr_to_frame(self.regions@, addr as int) {
                    Some(f) => r == Some(f as u64),
                    None => r is None,
                }
            }),
    {
        address_to_frame_in(&self.regions, addr)
    }

    /// Allocate the lowest free frame: mark its bit and return its
    /// physical address.  Returns nothing once the bitmap is exhausted.
    pub fn allocate_frame(&mut self) -> (r: Option<u64>)
        requires
            old(self).wf(),
        ensures
            final(self).wf(),
            final(self).regions@ == old(self).regions@,
            final(self).bitmap@.len() == old(self).bitmap@.len(),
            r is None <==> (forall|g: int|
                0 <= g < spec_total_frames(old(self).regions@) ==> frame_bit(
                    old(self).bitmap@,
                    g,
                )),
            ({
                let bm = old(self).bitmap@;
                let total = spec_total_frames(old(self).regions@);
                let fc = first_clear(bm, 0);
                if fc < total {
                    &&& forall|g: int|
                        0 <= g < bm.len() * 64 ==> #[trigger] frame_bit(final(self).bitmap@, g) == (
                        g == fc || frame_bit(bm, g))
                    &&& spec_frame_addr(old(self).regions@, fc) is Some
                    &&& r == Some(spec_frame_addr(old(self).regions@, fc)->0 as u64)
                } else {
                    r is None && final(self).bitmap@ == bm
                }
            }),
    {
        proof {
            lemma_first_clear(self.bitmap@, 0);
            lemma_total_frames_nonneg(self.regions@);
        }
        let frame = match self.first_free_frame() {
            Some(f) => f,
            None => {
                proof {
                    let fc = first_clear(self.bitmap@, 0);
                    assert forall|g: int|
                        0 <= g < spec_total_frames(self.regions@) implies frame_bit(
                        self.bitmap@,
                        g,
                    ) by {
                        assert(g < fc);
                    }
                }
                return None;
            },
        };
        proof {
            // a clear bit is never a padding bit, so a real frame exists
            assert((frame as int) < spec_total_frames(self.regions@)) by {
                if (frame as int) >= spec_total_frames(self.regions@) {
                    assert(frame_bit(self.bitmap@, frame as int));
                }
            }
            lemma_frame_round_trip(self.regions@, frame as int);
            assert((frame as int) / 64 < self.bitmap@.len()) by (nonlinear_arith)
                requires
                    0 <= (frame as int) && (frame as int) < self.bitmap@.len() * 64,
            ;
        }
        mark_frame_used(&mut self.bitmap, frame);
        self.frame_to_address(frame)
    }

    /// Return a frame to the allocator: clear its bit.
    pub fn deallocate_frame(&mut self, addr: u64)
        requires
            old(self).wf(),
            spec_addr_to_frame(old(self).regions@, addr as int) is Some,
            spec_addr_to_frame(old(self).regions@, addr as int)->0 < old(self).bitmap@.len() * 64,
        ensures
            final(self).wf(),
            final(self).regions@ == old(self).regions@,
            final(self).bitmap@.len() == old(self).bitmap@.len(),
            ({
                let f = spec_addr_to_frame(old(self).regions@, addr as int)->0;
                forall|g: int|
                    0 <= g < final(self).bitmap@.len() * 64 ==> #[trigger] frame_bit(
                        final(self).bitmap@,
                        g,
                    ) == (g != f && frame_bit(old(self).bitmap@, g))
            }),
    {
        proof {
            lemma_addr_to_frame_nonneg(self.regions@, addr as int);
            lemma_addr_to_frame_lt_total(self.regions@, addr as int);
        }
        let frame = match self.address_to_frame(addr) {
            Some(f) => f,
            None => {
                proof {
                    assert(false);
                }
                return ;
            },
        };
        proof {
            assert((frame as int) / 64 < self.bitmap@.len()) by (nonlinear_arith)
                requires
                    0 <= (frame as int) && (frame as int) < self.bitmap@.len() * 64,
            ;
        }
        mark_frame_free(&mut self.bitmap, frame);
    }
}

/// Clear the bit of `frame` in the bitmap.
fn mark_frame_free(bitmap: &mut Vec<u64>, frame: u64)
    requires
        (frame / 64) < old(bitmap)@.len(),
    ensures
        final(bitmap)@.len() == old(bitmap)@.len(),
        forall|g: int|
            0 <= g < final(bitmap)@.len() * 64 ==> #[trigger] frame_bit(final(bitmap)@, g) == (g
                != frame as int && frame_bit(old(bitmap)@, g)),
{
    let word = (frame / 64) as usize;
    let bit = 63 - (frame % 64);
    let w = bitmap[word];
    bitmap.set(word, w & !(1u64 << bit));
    proof {
        assert forall|g: int|
            0 <= g < bitmap@.len() * 64 implies #[trigger] frame_bit(bitmap@, g) == (g
            != frame as int && frame_bit(old(bitmap)@, g)) by {
            let gw = g / 64;
            let gb = (g % 64) as u64;
            assert(0 <= gw < bitmap@.len()) by (nonlinear_arith)
                requires
                    0 <= g < bitmap@.len() * 64,
                    gw == g / 64,
            ;
            if gw == word {
                lemma_clear_bit(w, (frame % 64) as u64, gb);
                assert(g == frame as int <==> (g / 64 == frame as int / 64 && g % 64
                    == frame as int % 64)) by (nonlinear_arith);
            } else {
                assert(g != frame as int) by (nonlinear_arith)
                    requires
                        gw != word as int,
                        gw == g / 64,
                        word as int == frame as int / 64,
                ;
            }
        }
    }
}

} // verus!
