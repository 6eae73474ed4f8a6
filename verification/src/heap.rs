//! The bucketed kernel heap.
//!
//! Requests of at most 2048 bytes are served from buckets: each bucket
//! owns one page and slices it into `4096 / BLOCK` blocks of one size
//! class, tracked by an inline bitmap whose set bits are the live blocks,
//! most significant bit first.  Buckets of one class form a list; a page
//! that empties again is unlinked.  Larger requests go straight to the
//! full-page allocator.

use vstd::prelude::*;

verus! {

pub const BUCKET_PAGE_SIZE: u64 = 4096;

/// Does bit `b` of the bitmap say "live"?  Block `b` lives in byte
/// `b / 8`, at bit `7 - b % 8`.
pub open spec fn block_bit(bm: Seq<u8>, b: int) -> bool {
    0 <= b < bm.len() * 8 && (bm[b / 8] >> ((7 - (b % 8)) as u8)) & 1 == 1
}

/// The number of live blocks in the bitmap bytes from `i` on.
pub open spec fn live_count(bm: Seq<u8>, b: int) -> int
    decreases bm.len() * 8 - b when 0 <= b <= bm.len() * 8
{
    if b >= bm.len() * 8 {
        0
    } else {
        (if block_bit(bm, b) {
            1int
        } else {
            0
        }) + live_count(bm, b + 1)
    }
}

/// The lowest block number at or after `b` whose bit is clear, or the
/// total bit count.
pub open spec fn first_clear_block(bm: Seq<u8>, b: int) -> int
    decreases bm.len() * 8 - b when 0 <= b <= bm.len() * 8
{
    if b >= bm.len() * 8 {
        b
    } else if !block_bit(bm, b) {
        b
    } else {
        first_clear_block(bm, b + 1)
    }
}

proof fn lemma_first_clear_block(bm: Seq<u8>, b: int)
    requires
        0 <= b <= bm.len() * 8,
    ensures
        b <= first_clear_block(bm, b) <= bm.len() * 8,
        forall|g: int| b <= g < first_clear_block(bm, b) ==> block_bit(bm, g),
        first_clear_block(bm, b) < bm.len() * 8 ==> !block_bit(bm, first_clear_block(bm, b)),
    decreases bm.len() * 8 - b,
{
    if b >= bm.len() * 8 {
    } else if !block_bit(bm, b) {
    } else {
        lemma_first_clear_block(bm, b + 1);
    }
}

proof fn lemma_first_clear_block_unique(bm: Seq<u8>, b: int)
    requires
        0 <= b <= bm.len() * 8,
        forall|g: int| 0 <= g < b ==> block_bit(bm, g),
        b < bm.len() * 8 ==> !block_bit(bm, b),
    ensures
        first_clear_block(bm, 0) == b,
{
    lemma_first_clear_block(bm, 0);
}

/// Flipping one bit changes the live count by exactly one.
proof fn lemma_live_count_flip(bm1: Seq<u8>, bm2: Seq<u8>, b: int, low: int)
    requires
        bm1.len() == bm2.len(),
        0 <= low <= bm1.len() * 8,
        0 <= b < bm1.len() * 8,
        forall|g: int| 0 <= g < bm1.len() * 8 && g != b ==> block_bit(bm2, g) == block_bit(bm1, g),
    ensures
        live_count(bm2, low) == live_count(bm1, low) + (if low <= b && block_bit(bm2, b) && !block_bit(bm1, b) {
            1int
        } else if low <= b && !block_bit(bm2, b) && block_bit(bm1, b) {
            -1int
        } else if low <= b {
            0
        } else {
            0
        }),
    decreases bm1.len() * 8 - low,
{
    if low >= bm1.len() * 8 {
    } else {
        lemma_live_count_flip(bm1, bm2, b, low + 1);
    }
}

proof fn lemma_set_block_bit(w: u8, b: u8, c: u8)
    requires
        b < 8,
        c < 8,
    ensures
        b == c ==> ((w | (1u8 << ((7 - b) as u8))) >> ((7 - c) as u8)) & 1 == 1,
        b != c ==> ((w | (1u8 << ((7 - b) as u8))) >> ((7 - c) as u8)) & 1 == (w >> ((7
            - c) as u8)) & 1,
{
    assert(b == c ==> ((w | (1u8 << ((7 - b) as u8))) >> ((7 - c) as u8)) & 1 == 1)
        by (bit_vector)
        requires
            b < 8,
            c < 8,
    ;
    assert(b != c ==> ((w | (1u8 << ((7 - b) as u8))) >> ((7 - c) as u8)) & 1 == (w >> ((7
        - c) as u8)) & 1) by (bit_vector)
        requires
            b < 8,
            c < 8,
    ;
}

proof fn lemma_clear_block_bit(w: u8, b: u8, c: u8)
    requires
        b < 8,
        c < 8,
    ensures
        b == c ==> ((w & !(1u8 << ((7 - b) as u8))) >> ((7 - c) as u8)) & 1 == 0,
        b != c ==> ((w & !(1u8 << ((7 - b) as u8))) >> ((7 - c) as u8)) & 1 == (w >> ((7
            - c) as u8)) & 1,
{
    assert(b == c ==> ((w & !(1u8 << ((7 - b) as u8))) >> ((7 - c) as u8)) & 1 == 0)
        by (bit_vector)
        requires
            b < 8,
            c < 8,
    ;
    assert(b != c ==> ((w & !(1u8 << ((7 - b) as u8))) >> ((7 - c) as u8)) & 1 == (w >> ((7
        - c) as u8)) & 1) by (bit_vector)
        requires
            b < 8,
            c < 8,
    ;
}

/// One bucket: a page of blocks of one size, and the bitmap of the live
/// ones.
pub struct Bucket {
    pub page: u64,
    pub block: u64,
    pub bitmap: Vec<u8>,
}

/// The arithmetic of the nine size classes: at least two blocks per
/// page, one bit per block inside the bitmap, at most 64 bitmap bytes.
proof fn lemma_bucket_geometry(b: u64)
    requires
        spec_size_class(b) == Some(b),
    ensures
        b >= 8,
        1 <= spec_bitmap_len(b) <= 64,
        BUCKET_PAGE_SIZE as int / (b as int) <= spec_bitmap_len(b) * 8,
        2 <= BUCKET_PAGE_SIZE as int / (b as int),
        (b as int) * (BUCKET_PAGE_SIZE as int / (b as int)) == BUCKET_PAGE_SIZE as int,
{
    if b <= 8 {
        assert(b == 8);
        assert(spec_bitmap_len(8u64) == 64 && BUCKET_PAGE_SIZE as int / 8 == 512);
    } else if b <= 16 {
        assert(b == 16);
        assert(spec_bitmap_len(16u64) == 32 && BUCKET_PAGE_SIZE as int / 16 == 256);
    } else if b <= 32 {
        assert(b == 32);
        assert(spec_bitmap_len(32u64) == 16 && BUCKET_PAGE_SIZE as int / 32 == 128);
    } else if b <= 64 {
        assert(b == 64);
        assert(spec_bitmap_len(64u64) == 8 && BUCKET_PAGE_SIZE as int / 64 == 64);
    } else if b <= 128 {
        assert(b == 128);
        assert(spec_bitmap_len(128u64) == 4 && BUCKET_PAGE_SIZE as int / 128 == 32);
    } else if b <= 256 {
        assert(b == 256);
        assert(spec_bitmap_len(256u64) == 2 && BUCKET_PAGE_SIZE as int / 256 == 16);
    } else if b <= 512 {
        assert(b == 512);
        assert(spec_bitmap_len(512u64) == 1 && BUCKET_PAGE_SIZE as int / 512 == 8);
    } else if b <= 1024 {
        assert(b == 1024);
        assert(spec_bitmap_len(1024u64) == 1 && BUCKET_PAGE_SIZE as int / 1024 == 4);
    } else {
        assert(b == 2048);
        assert(spec_bitmap_len(2048u64) == 1 && BUCKET_PAGE_SIZE as int / 2048 == 2);
    }
}

/// The bitmap bytes a block size needs: one bit per block, at least one
/// byte.
pub open spec fn spec_bitmap_len(block: u64) -> int {
    if block <= 512 {
        BUCKET_PAGE_SIZE as int / ((block as int) * 8)
    } else {
        1
    }
}

impl Bucket {
    /// A sound bucket: the block size is one of the nine classes, the
    /// bitmap has one bit per block (whole bytes, at least one), and the
    /// page is page-aligned.
    pub open spec fn wf(self) -> bool {
        &&& spec_size_class(self.block) == Some(self.block)
        &&& self.bitmap@.len() == spec_bitmap_len(self.block)
        &&& self.page % BUCKET_PAGE_SIZE == 0
    }

    /// The number of blocks this bucket serves.
    pub open spec fn blocks(self) -> int {
        BUCKET_PAGE_SIZE as int / (self.block as int)
    }

    /// How many blocks are live.
    pub open spec fn live(self) -> int {
        live_count(self.bitmap@, 0)
    }

    /// A fresh bucket over the page at `page`: every block free.
    pub fn new(page: u64, block: u64, size: usize) -> (r: Bucket)
        requires
            spec_size_class(block) == Some(block),
            size as int == spec_bitmap_len(block),
            page % BUCKET_PAGE_SIZE == 0,
        ensures
            r.wf(),
            r.page == page,
            r.block == block,
            r.live() == 0,
            forall|g: int| 0 <= g < r.bitmap@.len() * 8 ==> !block_bit(r.bitmap@, g),
    {
        let mut bitmap: Vec<u8> = Vec::new();
        let mut i: usize = 0;
        while i < size
            invariant
                bitmap@.len() == i,
                i <= size,
                forall|j: int| 0 <= j < i ==> bitmap@[j] == 0u8,
            decreases size - i,
        {
            bitmap.push(0u8);
            i = i + 1;
        }
        let r = Bucket { page, block, bitmap };
        proof {
            assert forall|g: int| 0 <= g < r.bitmap@.len() * 8 implies !block_bit(r.bitmap@, g)
                by {
                assert(0 <= g / 8 < r.bitmap@.len()) by (nonlinear_arith)
                    requires
                        0 <= g < r.bitmap@.len() * 8,
                ;
                let c = (7 - (g % 8)) as u8;
                assert((0u8 >> c) & 1 == 0) by (bit_vector);
            }
            lemma_live_zero(r.bitmap@, 0);
        }
        r
    }

    /// Is every block of this bucket free?
    pub fn is_empty(&self) -> (r: bool)
        requires
            self.wf(),
        ensures
            r == (self.live() == 0),
    {
        let mut i: usize = 0;
        let n = self.bitmap.len();
        while i < n
            invariant
                self.wf(),
                n == self.bitmap@.len(),
                0 <= i <= n,
                forall|j: int| 0 <= j < i ==> self.bitmap@[j] == 0u8,
            decreases n - i,
        {
            if self.bitmap[i] != 0 {
                proof {
                    lemma_nonzero_byte_has_bit(self.bitmap@, i as int);
                    lemma_live_count_ge_bit(self.bitmap@, 0);
                }
                return false;
            }
            i = i + 1;
        }
        proof {
            assert forall|g: int| 0 <= g < self.bitmap@.len() * 8 implies !block_bit(
                self.bitmap@,
                g,
            ) by {
                let gw = g / 8;
                assert(0 <= gw < self.bitmap@.len()) by (nonlinear_arith)
                    requires
                        0 <= g < self.bitmap@.len() * 8,
                        gw == g / 8,
                ;
                assert(self.bitmap@[gw] == 0);
                let c = (7 - (g % 8)) as u8;
                assert((0u8 >> c) & 1 == 0) by (bit_vector);
            }
            lemma_live_zero(self.bitmap@, 0);
        }
        true
    }

    /// Mark the lowest free block live and return its number; nothing if
    /// the bucket is full.
    pub fn allocate_block(&mut self) -> (r: Option<u64>)
        requires
            old(self).wf(),
        ensures
            final(self).wf(),
            final(self).page == old(self).page,
            final(self).block == old(self).block,
            final(self).bitmap@.len() == old(self).bitmap@.len(),
            ({
                let bm = old(self).bitmap@;
                let fc = first_clear_block(bm, 0);
                if fc < old(self).blocks() {
                    &&& r == Some(fc as u64)
                    &&& forall|g: int|
                        0 <= g < bm.len() * 8 ==> #[trigger] block_bit(final(self).bitmap@, g) == (
                        g == fc || block_bit(bm, g))
                    &&& final(self).live() == old(self).live() + 1
                } else {
                    r is None && *final(self) == *old(self)
                }
            }),
    {
        let ghost bm0 = self.bitmap@;
        let n = self.bitmap.len();
        proof {
            lemma_bucket_geometry(self.block);
            assert(bm0.len() <= 64);
        }
        let mut i: usize = 0;
        while i < n
            invariant
                *self == *old(self),
                self.wf(),
                self.bitmap@ == bm0,
                bm0 == old(self).bitmap@,
                n == bm0.len(),
                n <= 64,
                0 <= i <= n,
                forall|g: int| 0 <= g < i * 8 ==> block_bit(bm0, g),
            decreases n - i,
        {
            let w = self.bitmap[i];
            if w != 0xFF {
                let mut b: u8 = 0;
                while b < 8
                    invariant
                        *self == *old(self),
                        self.wf(),
                        self.bitmap@ == bm0,
                        bm0 == old(self).bitmap@,
                        n == bm0.len(),
                        n <= 64,
                        0 <= i < n,
                        w == bm0[i as int],
                        0 <= b <= 8,
                        forall|g: int| 0 <= g < i * 8 ==> block_bit(bm0, g),
                        forall|j: int| 0 <= j < b ==> block_bit(bm0, #[trigger] (i * 8 + j)),
                    decreases 8 - b,
                {
                    if (w >> (7 - b)) & 1 == 0 {
                        let f = (i as u64) * 8 + (b as u64);
                        proof {
                            assert((f as int) / 8 == i as int && (f as int) % 8 == b as int)
                                by (nonlinear_arith)
                                requires
                                    f as int == i as int * 8 + b as int,
                                    0 <= b < 8,
                                    0 <= i,
                            ;
                            assert(!block_bit(bm0, f as int));
                            assert forall|g: int| 0 <= g < f as int implies block_bit(bm0, g) by {
                                if g >= i * 8 {
                                    assert(g == i * 8 + (g - i * 8));
                                }
                            }
                            lemma_first_clear_block_unique(bm0, f as int);
                        }
                        // the trailing bits of a one-byte bitmap stand for
                        // no block; a clear bit there means the page is full
                        if f >= BUCKET_PAGE_SIZE / self.block {
                            return None;
                        }
                        let nw = w | (1u8 << (7 - b));
                        self.bitmap.set(i, nw);
                        proof {
                            assert forall|g: int|
                                0 <= g < self.bitmap@.len() * 8 implies #[trigger] block_bit(
                                self.bitmap@,
                                g,
                            ) == (g == f as int || block_bit(bm0, g)) by {
                                let gw = g / 8;
                                let gb = (g % 8) as u8;
                                assert(0 <= gw < self.bitmap@.len()) by (nonlinear_arith)
                                    requires
                                        0 <= g < self.bitmap@.len() * 8,
                                        gw == g / 8,
                                ;
                                if gw == i as int {
                                    lemma_set_block_bit(w, b, gb);
                                    assert(g == f as int <==> (g / 8 == f as int / 8 && g % 8
                                        == f as int % 8)) by (nonlinear_arith);
                                } else {
                                    assert(g != f as int) by (nonlinear_arith)
                                        requires
                                            gw != i as int,
                                            gw == g / 8,
                                            i as int == f as int / 8,
                                    ;
                                }
                            }
                            lemma_live_count_flip(bm0, self.bitmap@, f as int, 0);
                        }
                        return Some(f);
                    }
                    proof {
                        assert(((i * 8 + b) as int) / 8 == i as int && ((i * 8 + b) as int) % 8
                            == b as int) by (nonlinear_arith)
                            requires
                                0 <= b < 8,
                                0 <= i,
                        ;
                        let c = (7 - b) as u8;
                        assert((w >> c) & 1 == 0 || (w >> c) & 1 == 1) by (bit_vector)
                            requires
                                c < 8,
                        ;
                        assert forall|j: int| 0 <= j < b + 1 implies block_bit(
                            bm0,
                            #[trigger] (i * 8 + j),
                        ) by {
                            assert(((i * 8 + j) as int) / 8 == i as int && ((i * 8 + j) as int) % 8
                                == j) by (nonlinear_arith)
                                requires
                                    0 <= j < 8,
                                    0 <= i,
                            ;
                        }
                    }
                    b = b + 1;
                }
            } else {
                proof {
                    assert forall|j: int| 0 <= j < 8 implies block_bit(
                        bm0,
                        #[trigger] (i * 8 + j),
                    ) by {
                        let c = (7 - j) as u8;
                        assert((0xFFu8 >> c) & 1 == 1) by (bit_vector)
                            requires
                                c < 8,
                        ;
                        assert(((i * 8 + j) as int) / 8 == i as int && ((i * 8 + j) as int) % 8
                            == j) by (nonlinear_arith)
                            requires
                                0 <= j < 8,
                                0 <= i,
                        ;
                    }
                }
            }
            proof {
                assert forall|g: int| 0 <= g < (i + 1) * 8 implies block_bit(bm0, g) by {
                    if g >= i * 8 {
                        assert(g == i * 8 + (g - i * 8));
                    }
                }
            }
            i = i + 1;
        }
        proof {
            lemma_first_clear_block_unique(bm0, bm0.len() * 8 as int);
        }
        None
    }

    /// Mark block `b` free again.
    pub fn free_block(&mut self, b: u64)
        requires
            old(self).wf(),
            (b as int) < old(self).blocks(),
        ensures
            final(self).wf(),
            final(self).page == old(self).page,
            final(self).block == old(self).block,
            final(self).bitmap@.len() == old(self).bitmap@.len(),
            forall|g: int|
                0 <= g < final(self).bitmap@.len() * 8 ==> #[trigger] block_bit(
                    final(self).bitmap@,
                    g,
                ) == (g != b as int && block_bit(old(self).bitmap@, g)),
            final(self).live() == old(self).live() - (if block_bit(old(self).bitmap@, b as int) {
                1int
            } else {
                0
            }),
    {
        let ghost bm0 = self.bitmap@;
        proof {
            lemma_bucket_geometry(self.block);
            assert(bm0.len() <= 64);
            assert(0 <= (b as int) / 8 < bm0.len()) by (nonlinear_arith)
                requires
                    0 <= (b as int) && (b as int) < bm0.len() * 8,
            ;
        }
        let byte = (b / 8) as usize;
        let bit = (7 - (b % 8)) as u8;
        proof {
            assert(0 <= (b as int) / 8 < self.bitmap@.len()) by (nonlinear_arith)
                requires
                    0 <= (b as int) && (b as int) < self.bitmap@.len() * 8,
            ;
        }
        let w = self.bitmap[byte];
        self.bitmap.set(byte, w & !(1u8 << bit));
        proof {
            assert forall|g: int|
                0 <= g < self.bitmap@.len() * 8 implies #[trigger] block_bit(self.bitmap@, g) == (
                g != b as int && block_bit(bm0, g)) by {
                let gw = g / 8;
                let gb = (g % 8) as u8;
                assert(0 <= gw < self.bitmap@.len()) by (nonlinear_arith)
                    requires
                        0 <= g < self.bitmap@.len() * 8,
                        gw == g / 8,
                ;
                if gw == byte as int {
                    lemma_clear_block_bit(w, (b % 8) as u8, gb);
                    assert(g == b as int <==> (g / 8 == b as int / 8 && g % 8 == b as int % 8))
                        by (nonlinear_arith);
                } else {
                    assert(g != b as int) by (nonlinear_arith)
                        requires
                            gw != byte as int,
                            gw == g / 8,
                            byte as int == b as int / 8,
                    ;
                }
            }
            lemma_live_count_flip(bm0, self.bitmap@, b as int, 0);
        }
    }
}

proof fn lemma_live_zero(bm: Seq<u8>, b: int)
    requires
        0 <= b <= bm.len() * 8,
        forall|g: int| 0 <= g < bm.len() * 8 ==> !block_bit(bm, g),
    ensures
        live_count(bm, b) == 0,
    decreases bm.len() * 8 - b,
{
    if b < bm.len() * 8 {
        lemma_live_zero(bm, b + 1);
    }
}

proof fn lemma_zero_byte_counts_zero(bm: Seq<u8>, i: int)
    requires
        0 <= i < bm.len(),
        bm[i] == 0,
    ensures
        forall|j: int| 0 <= j < 8 ==> !block_bit(bm, #[trigger] (i * 8 + j)),
{
    assert forall|j: int| 0 <= j < 8 implies !block_bit(bm, #[trigger] (i * 8 + j)) by {
        let c = (7 - j) as u8;
        assert((0u8 >> c) & 1 == 0) by (bit_vector);
        assert(((i * 8 + j) as int) / 8 == i && ((i * 8 + j) as int) % 8 == j)
            by (nonlinear_arith)
            requires
                0 <= j < 8,
                0 <= i,
        ;
    }
}

proof fn lemma_nonzero_byte_has_bit(bm: Seq<u8>, i: int)
    requires
        0 <= i < bm.len(),
        bm[i] != 0,
    ensures
        exists|g: int| 0 <= g < bm.len() * 8 && block_bit(bm, g),
{
    let w = bm[i];
    assert((w >> 7u8) & 1 == 1 || (w >> 6u8) & 1 == 1 || (w >> 5u8) & 1 == 1 || (w >> 4u8) & 1
        == 1 || (w >> 3u8) & 1 == 1 || (w >> 2u8) & 1 == 1 || (w >> 1u8) & 1 == 1 || (w >> 0u8)
        & 1 == 1) by (bit_vector)
        requires
            w != 0,
    ;
    let c: u8 = if (w >> 7u8) & 1 == 1 {
        0
    } else if (w >> 6u8) & 1 == 1 {
        1
    } else if (w >> 5u8) & 1 == 1 {
        2
    } else if (w >> 4u8) & 1 == 1 {
        3
    } else if (w >> 3u8) & 1 == 1 {
        4
    } else if (w >> 2u8) & 1 == 1 {
        5
    } else if (w >> 1u8) & 1 == 1 {
        6
    } else {
        7
    };
    assert((w >> ((7 - c) as u8)) & 1 == 1);
    let g = i * 8 + c as int;
    assert(g / 8 == i && g % 8 == c as int) by (nonlinear_arith)
        requires
            0 <= c < 8,
            0 <= i,
            g == i * 8 + c as int,
    ;
    assert(0 <= g < bm.len() * 8) by (nonlinear_arith)
        requires
            0 <= i < bm.len(),
            0 <= c < 8,
            g == i * 8 + c as int,
    ;
    assert(block_bit(bm, g));
}

proof fn lemma_live_count_ge_bit(bm: Seq<u8>, low: int)
    requires
        0 <= low <= bm.len() * 8,
    ensures
        (exists|g: int| low <= g < bm.len() * 8 && block_bit(bm, g)) ==> live_count(bm, low) > 0,
        live_count(bm, low) >= 0,
    decreases bm.len() * 8 - low,
{
    if low < bm.len() * 8 {
        lemma_live_count_ge_bit(bm, low + 1);
    }
}


/// The size class serving a request, by the larger of size and align:
/// nine powers of two from 8 to 2048 bytes; larger requests fall through
/// to the page allocator.
pub open spec fn spec_size_class(max: u64) -> Option<u64> {
    if max <= 8 {
        Some(8u64)
    } else if max <= 16 {
        Some(16u64)
    } else if max <= 32 {
        Some(32u64)
    } else if max <= 64 {
        Some(64u64)
    } else if max <= 128 {
        Some(128u64)
    } else if max <= 256 {
        Some(256u64)
    } else if max <= 512 {
        Some(512u64)
    } else if max <= 1024 {
        Some(1024u64)
    } else if max <= 2048 {
        Some(2048u64)
    } else {
        None
    }
}

/// Pick the bucket class for a request.
pub fn size_class(size: u64, align: u64) -> (r: Option<u64>)
    ensures
        r == spec_size_class(if size >= align {
            size
        } else {
            align
        }),
{
    let max = if size >= align {
        size
    } else {
        align
    };
    if max <= 8 {
        Some(8)
    } else if max <= 16 {
        Some(16)
    } else if max <= 32 {
        Some(32)
    } else if max <= 64 {
        Some(64)
    } else if max <= 128 {
        Some(128)
    } else if max <= 256 {
        Some(256)
    } else if max <= 512 {
        Some(512)
    } else if max <= 1024 {
        Some(1024)
    } else if max <= 2048 {
        Some(2048)
    } else {
        None
    }
}

/// The address of block `b` inside a bucket's page.
pub fn block_address(page: u64, block: u64, b: u64) -> (r: u64)
    requires
        page % BUCKET_PAGE_SIZE == 0,
        page <= 0xffff_ffff_ffff_f000,
        block <= 2048,
        b * block < BUCKET_PAGE_SIZE,
    ensures
        r == page + b * block,
{
    proof {
        assert((b as int) * (block as int) < BUCKET_PAGE_SIZE as int);
    }
    page + b * block
}


/// Is every block of the bucket taken?
pub open spec fn bucket_full(bk: Bucket) -> bool {
    first_clear_block(bk.bitmap@, 0) >= bk.blocks()
}

/// The first page of a chain with a free block, if any.
pub open spec fn first_open(pages: Seq<Bucket>) -> Option<int>
    decreases pages.len(),
{
    if pages.len() == 0 {
        None
    } else if !bucket_full(pages[0]) {
        Some(0)
    } else {
        match first_open(pages.drop_first()) {
            None => None,
            Some(k) => Some(k + 1),
        }
    }
}

proof fn lemma_first_open(pages: Seq<Bucket>)
    ensures
        ({
            match first_open(pages) {
                Some(k) => 0 <= k < pages.len() && !bucket_full(pages[k]) && forall|j: int|
                    0 <= j < k ==> bucket_full(#[trigger] pages[j]),
                None => forall|j: int| 0 <= j < pages.len() ==> bucket_full(#[trigger] pages[j]),
            }
        }),
    decreases pages.len(),
{
    if pages.len() == 0 {
    } else if !bucket_full(pages[0]) {
    } else {
        lemma_first_open(pages.drop_first());
        match first_open(pages.drop_first()) {
            None => {
                assert forall|j: int| 0 <= j < pages.len() implies bucket_full(
                    #[trigger] pages[j],
                ) by {
                    if j > 0 {
                        assert(pages.drop_first()[j - 1] == pages[j]);
                    }
                }
            },
            Some(k) => {
                assert(pages.drop_first()[k] == pages[k + 1]);
                assert forall|j: int| 0 <= j < k + 1 implies bucket_full(#[trigger] pages[j]) by {
                    if j > 0 {
                        assert(pages.drop_first()[j - 1] == pages[j]);
                    }
                }
            },
        }
    }
}

/// All buckets of one size class, first page first.
pub struct BucketChain {
    pub block: u64,
    pub pages: Vec<Bucket>,
}

impl BucketChain {
    /// Every page of the chain serves this chain's block size and lies,
    /// page-aligned, inside the allocator window.
    pub open spec fn wf(self) -> bool {
        &&& 8 <= self.block <= 2048
        &&& forall|k: int|
            0 <= k < self.pages@.len() ==> (#[trigger] self.pages@[k]).wf()
                && self.pages@[k].block == self.block && crate::layout::ALLOCATOR_START
                <= self.pages@[k].page && self.pages@[k].page as int + BUCKET_PAGE_SIZE as int
                <= crate::layout::ALLOCATOR_END as int + 1
    }
}

/// The default kernel allocator: nine bucket chains for the small size
/// classes, the full-page allocator behind them for everything larger.
pub struct KAllocator {
    pub chains: Vec<BucketChain>,
}

/// The block size of chain `i`: 8 doubled `i` times.
pub open spec fn spec_chain_block(i: int) -> u64 {
    [8u64, 16, 32, 64, 128, 256, 512, 1024, 2048][i]
}

impl KAllocator {
    pub open spec fn wf(self) -> bool {
        &&& self.chains@.len() == 9
        &&& forall|i: int|
            0 <= i < 9 ==> (#[trigger] self.chains@[i]).wf() && self.chains@[i].block
                == spec_chain_block(i)
    }

    /// No bucket page is also free in the page allocator, and no two
    /// buckets share a page.
    pub open spec fn disjoint_from(self, fpa: crate::fpa::FullPageAllocator) -> bool {
        &&& forall|i: int, k: int, a: int|
            #![trigger self.chains@[i].pages@[k], crate::fpa::covers(fpa.start_runs(), a)]
            0 <= i < self.chains@.len() && 0 <= k < self.chains@[i].pages@.len()
                && self.chains@[i].pages@[k].page <= a < self.chains@[i].pages@[k].page as int
                + BUCKET_PAGE_SIZE as int ==> !crate::fpa::covers(fpa.start_runs(), a)
        &&& forall|i: int, k: int, i2: int, k2: int|
            0 <= i < self.chains@.len() && 0 <= k < self.chains@[i].pages@.len() && 0 <= i2
                < self.chains@.len() && 0 <= k2 < self.chains@[i2].pages@.len() && (i, k) != (
            i2,
            k2,
            ) ==> (#[trigger] self.chains@[i].pages@[k]).page != (
            #[trigger] self.chains@[i2].pages@[k2]).page
    }

    /// The joint soundness of the heap and its page allocator.
    pub open spec fn inv(self, fpa: crate::fpa::FullPageAllocator) -> bool {
        &&& self.wf()
        &&& fpa.inv()
        &&& fpa.inner is Some
        &&& self.disjoint_from(fpa)
    }

    /// Nine empty chains.
    pub fn new() -> (r: KAllocator)
        ensures
            r.wf(),
            forall|i: int| 0 <= i < 9 ==> (#[trigger] r.chains@[i]).pages@.len() == 0,
    {
        let mut chains: Vec<BucketChain> = Vec::new();
        chains.push(BucketChain { block: 8, pages: Vec::new() });
        chains.push(BucketChain { block: 16, pages: Vec::new() });
        chains.push(BucketChain { block: 32, pages: Vec::new() });
        chains.push(BucketChain { block: 64, pages: Vec::new() });
        chains.push(BucketChain { block: 128, pages: Vec::new() });
        chains.push(BucketChain { block: 256, pages: Vec::new() });
        chains.push(BucketChain { block: 512, pages: Vec::new() });
        chains.push(BucketChain { block: 1024, pages: Vec::new() });
        chains.push(BucketChain { block: 2048, pages: Vec::new() });
        KAllocator { chains }
    }
}


/// Two chains with the same class and the same pages, page for page.
pub open spec fn chain_like(c1: BucketChain, c2: BucketChain) -> bool {
    c1.block == c2.block && c1.pages@ == c2.pages@
}

/// The chain serving a block size.
pub open spec fn spec_class_index(b: u64) -> int {
    if b == 8 {
        0
    } else if b == 16 {
        1
    } else if b == 32 {
        2
    } else if b == 64 {
        3
    } else if b == 128 {
        4
    } else if b == 256 {
        5
    } else if b == 512 {
        6
    } else if b == 1024 {
        7
    } else {
        8
    }
}

fn class_index(b: u64) -> (r: usize)
    requires
        spec_size_class(b) == Some(b),
    ensures
        r as int == spec_class_index(b),
        r < 9,
        spec_chain_block(r as int) == b,
{
    if b == 8 {
        0
    } else if b == 16 {
        1
    } else if b == 32 {
        2
    } else if b == 64 {
        3
    } else if b == 128 {
        4
    } else if b == 256 {
        5
    } else if b == 512 {
        6
    } else if b == 1024 {
        7
    } else {
        8
    }
}

fn bitmap_len_of(b: u64) -> (r: usize)
    requires
        spec_size_class(b) == Some(b),
    ensures
        r as int == spec_bitmap_len(b),
{
    proof {
        lemma_bucket_geometry(b);
    }
    if b <= 512 {
        ((BUCKET_PAGE_SIZE / (b * 8))) as usize
    } else {
        1
    }
}

/// Everything one heap allocation does, for both the chains and the
/// page allocator.
pub open spec fn heap_alloc_effect(
    ka0: KAllocator,
    ka1: KAllocator,
    fpa0: crate::fpa::FullPageAllocator,
    fpa1: crate::fpa::FullPageAllocator,
    size: u64,
    align: u64,
    r: Result<u64, crate::fpa::AllocError>,
) -> bool {
                let max = if size >= align {
                    size
                } else {
                    align
                };
                match spec_size_class(max) {
                    None => ka1 == ka0 && crate::fpa::allocate_effect(
                        fpa0,
                        fpa1,
                        size,
                        r,
                    ),
                    Some(b) => ({
                        let ci = spec_class_index(b);
                        let ch = ka0.chains@[ci];
                        &&& (forall|i: int|
                            0 <= i < 9 && i != ci ==> chain_like(
                                #[trigger] ka1.chains@[i],
                                ka0.chains@[i],
                            ))
                        &&& ka1.chains@[ci].block == ch.block
                        &&& (match first_open(ch.pages@) {
                            Some(k) => ({
                                let bk = ch.pages@[k];
                                let fc = first_clear_block(bk.bitmap@, 0);
                                &&& fpa1 == fpa0
                                &&& r == Result::<u64, crate::fpa::AllocError>::Ok(
                                    (bk.page + fc * b) as u64,
                                )
                                &&& ka1.chains@[ci].pages@.len() == ch.pages@.len()
                                &&& (forall|j: int|
                                    0 <= j < ch.pages@.len() && j != k ==> ka1.chains@[ci].pages@[j] == ch.pages@[j])
                                &&& ka1.chains@[ci].pages@[k].page == bk.page
                                &&& ka1.chains@[ci].pages@[k].block == bk.block
                                &&& (forall|g: int|
                                    0 <= g < bk.bitmap@.len() * 8 ==> #[trigger] block_bit(
                                        ka1.chains@[ci].pages@[k].bitmap@,
                                        g,
                                    ) == (g == fc || block_bit(bk.bitmap@, g)))
                                &&& ka1.chains@[ci].pages@[k].live() == bk.live() + 1
                            }),
                            None => (match r {
                                Ok(page) => ({
                                    &&& crate::fpa::allocate_effect(
                                        fpa0,
                                        fpa1,
                                        BUCKET_PAGE_SIZE,
                                        Result::<u64, crate::fpa::AllocError>::Ok(page),
                                    )
                                    &&& ka1.chains@[ci].pages@.len() == ch.pages@.len()
                                        + 1
                                    &&& (forall|j: int|
                                        0 <= j < ch.pages@.len() ==> ka1.chains@[ci].pages@[j] == ch.pages@[j])
                                    &&& ka1.chains@[ci].pages@.last().page == page
                                    &&& ka1.chains@[ci].pages@.last().block == b
                                    &&& ka1.chains@[ci].pages@.last().live() == 1
                                    &&& block_bit(
                                        ka1.chains@[ci].pages@.last().bitmap@,
                                        0,
                                    )
                                }),
                                Err(_) => (forall|i: int|
                                    0 <= i < 9 ==> chain_like(
                                        #[trigger] ka1.chains@[i],
                                        ka0.chains@[i],
                                    )) && fpa1 == fpa0 && crate::fpa::first_fit(
                                    fpa0.start_runs(),
                                    1,
                                ) is None,
                            }),
                        })
                    }),
                }
}

impl KAllocator {
    /// Serve a request: small sizes come from the first free block of the
    /// first open page of their class, a fresh page is taken from the
    /// page allocator when every page of the class is full, and large
    /// requests go to the page allocator directly.
    #[verifier::rlimit(100)]
    pub fn allocate(&mut self, fpa: &mut crate::fpa::FullPageAllocator, size: u64, align: u64)
        -> (r: Result<u64, crate::fpa::AllocError>)
        requires
            old(self).inv(*old(fpa)),
            1 <= size <= 0xFFFF_FFFF_FFFF_EFFF,
            align <= BUCKET_PAGE_SIZE,
        ensures
            final(self).inv(*final(fpa)),
            heap_alloc_effect(*old(self), *final(self), *old(fpa), *final(fpa), size, align, r),
    {
        let max = if size >= align {
            size
        } else {
            align
        };
        match size_class(size, align) {
            None => {
                let r = fpa.allocate(size);
                proof {
                    lemma_heap_fpa_shrink(*self, *old(fpa), *fpa, size, r);
                    assert(heap_alloc_effect(*old(self), *self, *old(fpa), *fpa, size, align, r));
                }
                r
            },
            Some(b) => {
                proof {
                    lemma_bucket_geometry(b);
                }
                let ci = class_index(b);
                let mut chain = self.chains.remove(ci);
                let ghost ch0 = chain;
                let n = chain.pages.len();
                let mut k: usize = 0;
                while k < n
                    invariant
                        old(self).inv(*old(fpa)),
                        *fpa == *old(fpa),
                        self.chains@ == old(self).chains@.remove(ci as int),
                        ci < 9,
                        ci as int == spec_class_index(b),
                        spec_chain_block(ci as int) == b,
                        ch0 == old(self).chains@[ci as int],
                        spec_size_class(
                            if size >= align {
                                size
                            } else {
                                align
                            },
                        ) == Some(b),
                        chain.block == ch0.block,
                        chain.pages@ == ch0.pages@,
                        n == ch0.pages@.len(),
                        0 <= k <= n,
                        ch0.wf(),
                        spec_size_class(b) == Some(b),
                        ch0.block == b,
                        forall|j: int| 0 <= j < k ==> bucket_full(#[trigger] ch0.pages@[j]),
                    decreases n - k,
                {
                    let ghost bk0 = chain.pages@[k as int];
                    proof {
                        assert(ch0.pages@[k as int].block == b);
                        assert(ch0.pages@[k as int].page as int + BUCKET_PAGE_SIZE as int
                            <= crate::layout::ALLOCATOR_END as int + 1);
                        lemma_first_clear_block(bk0.bitmap@, 0);
                    }
                    let mut bk = chain.pages.remove(k);
                    let got = bk.allocate_block();
                    match got {
                        Some(bit) => {
                            proof {
                                lemma_bucket_geometry(b);
                                assert(bk.block == b);
                                assert(ch0.pages@[k as int].blocks() == BUCKET_PAGE_SIZE as int
                                    / (b as int));
                                assert((bit as int) * (b as int) < BUCKET_PAGE_SIZE as int)
                                    by (nonlinear_arith)
                                    requires
                                        0 <= (bit as int) < BUCKET_PAGE_SIZE as int / (b as int),
                                        b >= 8,
                                        BUCKET_PAGE_SIZE == 4096,
                                ;
                            }
                            let addr = block_address(bk.page, b, bit);
                            chain.pages.insert(k, bk);
                            self.chains.insert(ci, chain);
                            proof {
                                lemma_first_open(ch0.pages@);
                                assert(first_open(ch0.pages@) == Some(k as int));
                                let fc = first_clear_block(bk0.bitmap@, 0);
                                assert(bit as int == fc);
                                assert(addr as int == bk0.page as int + fc * b);
                                assert(self.chains@[ci as int].pages@.len() == ch0.pages@.len());
                                assert(self.chains@[ci as int].pages@[k as int].page == bk0.page);
                                assert(self.chains@[ci as int].pages@[k as int].live()
                                    == bk0.live() + 1);
                                assert(forall|g: int|
                                    0 <= g < bk0.bitmap@.len() * 8 ==> #[trigger] block_bit(
                                        self.chains@[ci as int].pages@[k as int].bitmap@,
                                        g,
                                    ) == (g == first_clear_block(bk0.bitmap@, 0) || block_bit(
                                        bk0.bitmap@,
                                        g,
                                    )));
                                assert(self.chains@[ci as int].block == ch0.block);
                                assert forall|i: int| 0 <= i < 9 && i != ci as int implies
                                    chain_like(
                                    #[trigger] self.chains@[i],
                                    old(self).chains@[i],
                                ) by {
                                    assert(self.chains@[i] == old(self).chains@[i]);
                                }
                                assert(addr == ((bk0.page + first_clear_block(bk0.bitmap@, 0) * (
                                b as int)) as u64));
                                assert(forall|j: int|
                                    0 <= j < ch0.pages@.len() && j != k as int
                                        ==> self.chains@[ci as int].pages@[j] == #[trigger] ch0.pages@[j]);
                                assert(self.chains@[ci as int].pages@[k as int].block
                                    == bk0.block);
                                assert(self.chains@ =~= old(self).chains@.update(
                                    ci as int,
                                    self.chains@[ci as int],
                                ));
                                assert(self.chains@[ci as int].pages@ =~= ch0.pages@.update(
                                    k as int,
                                    self.chains@[ci as int].pages@[k as int],
                                ));
                                assert(self.wf()) by {
                                    assert forall|i: int| 0 <= i < 9 implies (
                                    #[trigger] self.chains@[i]).wf() && self.chains@[i].block
                                        == spec_chain_block(i) by {
                                        if i == ci as int {
                                            assert forall|k2: int|
                                                0 <= k2 < self.chains@[i].pages@.len() implies (
                                            #[trigger] self.chains@[i].pages@[k2]).wf()
                                                && self.chains@[i].pages@[k2].block
                                                == self.chains@[i].block
                                                && crate::layout::ALLOCATOR_START
                                                <= self.chains@[i].pages@[k2].page
                                                && self.chains@[i].pages@[k2].page as int
                                                + BUCKET_PAGE_SIZE as int
                                                <= crate::layout::ALLOCATOR_END as int + 1 by {
                                                if k2 != k as int {
                                                    assert(self.chains@[i].pages@[k2]
                                                        == ch0.pages@[k2]);
                                                }
                                            }
                                        }
                                    }
                                }
                                lemma_heap_bit_update(
                                    *old(self),
                                    *self,
                                    *old(fpa),
                                    ci as int,
                                    k as int,
                                );
                            }
                            proof {
                                let maxg = if size >= align {
                                    size
                                } else {
                                    align
                                };
                                let bg = spec_size_class(maxg)->0;
                                assert(bg == b);
                                let cig = spec_class_index(bg);
                                assert(cig == ci as int);
                                let chg = old(self).chains@[cig];
                                assert(chg == ch0);
                                let bkg = chg.pages@[k as int];
                                assert(bkg == bk0);
                                let fcg = first_clear_block(bkg.bitmap@, 0);
                                assert(first_open(chg.pages@) == Some(k as int));
                                assert(*fpa == *old(fpa));
                                assert(Result::<u64, crate::fpa::AllocError>::Ok(addr)
                                    == Result::<u64, crate::fpa::AllocError>::Ok(
                                    (bkg.page + fcg * bg) as u64,
                                ));
                                assert(self.chains@[cig].pages@.len() == chg.pages@.len());
                                assert(forall|j: int|
                                    0 <= j < chg.pages@.len() && j != k as int
                                        ==> self.chains@[cig].pages@[j] == #[trigger] chg.pages@[
                                        j]);
                                assert(self.chains@[cig].pages@[k as int].page == bkg.page);
                                assert(self.chains@[cig].pages@[k as int].block == bkg.block);
                                assert(forall|g: int|
                                    0 <= g < bkg.bitmap@.len() * 8 ==> #[trigger] block_bit(
                                        self.chains@[cig].pages@[k as int].bitmap@,
                                        g,
                                    ) == (g == fcg || block_bit(bkg.bitmap@, g)));
                                assert(self.chains@[cig].pages@[k as int].live() == bkg.live()
                                    + 1);
                                assert(self.chains@[cig].block == chg.block);
                                assert(heap_alloc_effect(
                                    *old(self),
                                    *self,
                                    *old(fpa),
                                    *fpa,
                                    size,
                                    align,
                                    Result::<u64, crate::fpa::AllocError>::Ok(addr),
                                ));
                            }
                            return Ok(addr);
                        },
                        None => {
                            chain.pages.insert(k, bk);
                            proof {
                                assert(chain.pages@ =~= ch0.pages@);
                            }
                        },
                    }
                    k = k + 1;
                }
                // every page of the class is full: fetch a fresh one
                proof {
                    lemma_first_open(ch0.pages@);
                    assert(first_open(ch0.pages@) is None);
                }
                let got = fpa.allocate(BUCKET_PAGE_SIZE);
                match got {
                    Err(e) => {
                        self.chains.insert(ci, chain);
                        proof {
                            assert forall|i: int| 0 <= i < 9 implies chain_like(
                                #[trigger] self.chains@[i],
                                old(self).chains@[i],
                            ) by {
                                if i != ci as int {
                                    assert(self.chains@[i] == old(self).chains@[i]);
                                }
                            }
                            assert(self.wf()) by {
                                assert forall|i: int| 0 <= i < 9 implies (
                                #[trigger] self.chains@[i]).wf() && self.chains@[i].block
                                    == spec_chain_block(i) by {
                                    assert(self.chains@[i].pages@ == old(self).chains@[i].pages@);
                                }
                            }
                            lemma_heap_like(*old(self), *self, *fpa);
                            assert(heap_alloc_effect(
                                *old(self),
                                *self,
                                *old(fpa),
                                *fpa,
                                size,
                                align,
                                Result::<u64, crate::fpa::AllocError>::Err(e),
                            ));
                        }
                        Err(e)
                    },
                    Ok(page) => {
                        proof {
                            // the fresh page sits page-aligned inside the
                            // window, by the page allocator's promise
                            assert(page % BUCKET_PAGE_SIZE == 0);
                            assert(crate::layout::ALLOCATOR_START <= page);
                            assert(page as int + BUCKET_PAGE_SIZE as int
                                <= crate::layout::ALLOCATOR_END as int + 1);
                        }
                        let sizeb = bitmap_len_of(b);
                        let mut bk = Bucket::new(page, b, sizeb);
                        let got2 = bk.allocate_block();
                        proof {
                            lemma_first_clear_block(bk.bitmap@, 0);
                            lemma_bucket_geometry(b);
                        }
                        let _ = got2;
                        chain.pages.push(bk);
                        self.chains.insert(ci, chain);
                        proof {
                            assert(self.chains@ =~= old(self).chains@.update(
                                ci as int,
                                self.chains@[ci as int],
                            ));
                            assert(self.wf()) by {
                                assert forall|i: int| 0 <= i < 9 implies (
                                #[trigger] self.chains@[i]).wf() && self.chains@[i].block
                                    == spec_chain_block(i) by {
                                    if i == ci as int {
                                        assert forall|k2: int|
                                            0 <= k2 < self.chains@[i].pages@.len() implies (
                                        #[trigger] self.chains@[i].pages@[k2]).wf()
                                            && self.chains@[i].pages@[k2].block
                                            == self.chains@[i].block
                                            && crate::layout::ALLOCATOR_START
                                            <= self.chains@[i].pages@[k2].page
                                            && self.chains@[i].pages@[k2].page as int
                                            + BUCKET_PAGE_SIZE as int
                                            <= crate::layout::ALLOCATOR_END as int + 1 by {
                                            if k2 < ch0.pages@.len() {
                                                assert(self.chains@[i].pages@[k2] == ch0.pages@[
                                                    k2]);
                                            }
                                        }
                                    }
                                }
                            }
                            lemma_heap_new_page(*old(self), *self, *old(fpa), *fpa, ci as int, page);
                            assert(heap_alloc_effect(
                                *old(self),
                                *self,
                                *old(fpa),
                                *fpa,
                                size,
                                align,
                                Result::<u64, crate::fpa::AllocError>::Ok(page),
                            ));
                        }
                        Ok(page)
                    },
                }
            },
        }
    }
}

/// Chains with the very same pages keep the heap apart from the page
/// allocator.
proof fn lemma_heap_like(
    ka0: KAllocator,
    ka1: KAllocator,
    fpa: crate::fpa::FullPageAllocator,
)
    requires
        ka0.inv(fpa),
        fpa.inv(),
        ka1.chains@.len() == 9,
        forall|i: int|
            0 <= i < 9 ==> chain_like(#[trigger] ka1.chains@[i], ka0.chains@[i]),
    ensures
        ka1.disjoint_from(fpa),
{
    assert forall|i: int, k2: int, i2: int, k22: int|
        0 <= i < ka1.chains@.len() && 0 <= k2 < ka1.chains@[i].pages@.len() && 0 <= i2
            < ka1.chains@.len() && 0 <= k22 < ka1.chains@[i2].pages@.len() && (i, k2) != (
        i2,
        k22,
        ) implies (#[trigger] ka1.chains@[i].pages@[k2]).page != (
        #[trigger] ka1.chains@[i2].pages@[k22]).page by {
        assert(ka1.chains@[i].pages@[k2] == ka0.chains@[i].pages@[k2]);
        assert(ka1.chains@[i2].pages@[k22] == ka0.chains@[i2].pages@[k22]);
    }
    assert forall|i: int, k2: int, a: int|
        #![trigger ka1.chains@[i].pages@[k2], crate::fpa::covers(fpa.start_runs(), a)]
        0 <= i < ka1.chains@.len() && 0 <= k2 < ka1.chains@[i].pages@.len()
            && ka1.chains@[i].pages@[k2].page <= a < ka1.chains@[i].pages@[k2].page as int
            + BUCKET_PAGE_SIZE as int implies !crate::fpa::covers(fpa.start_runs(), a) by {
        assert(ka1.chains@[i].pages@[k2] == ka0.chains@[i].pages@[k2]);
    }
}

/// Whatever the page allocator hands out only shrinks its covered set,
/// so the heap's pages stay apart from it.
proof fn lemma_heap_fpa_shrink(
    ka: KAllocator,
    fpa0: crate::fpa::FullPageAllocator,
    fpa1: crate::fpa::FullPageAllocator,
    size: u64,
    r: Result<u64, crate::fpa::AllocError>,
)
    requires
        ka.inv(fpa0),
        fpa0.inv(),
        crate::fpa::allocate_effect(fpa0, fpa1, size, r),
    ensures
        ka.disjoint_from(fpa1),
{
    let rs0 = fpa0.start_runs();
    let rs1 = fpa1.start_runs();
    let n = ((size as int + crate::fpa::PAGE_SIZE - 1) / (crate::fpa::PAGE_SIZE as int)) as u64;
    assert forall|a: int| crate::fpa::covers(rs1, a) implies crate::fpa::covers(rs0, a) by {
        match r {
            Ok(addr) => {
                crate::fpa::lemma_first_fit_pub(rs0, n);
                let i0 = crate::fpa::first_fit(rs0, n)->0;
                assert(rs0[i0].0 == addr);
                let j = choose|j: int|
                    0 <= j < rs1.len() && (#[trigger] rs1[j]).0 <= a < crate::fpa::run_end(
                        rs1[j],
                    );
                if rs0[i0].1 == n {
                    let oj = if j < i0 {
                        j
                    } else {
                        j + 1
                    };
                    assert(rs1[j] == rs0[oj]);
                } else {
                    if j == i0 {
                        assert(rs1[j].0 as int == rs0[i0].0 as int + n as int * (
                        crate::fpa::PAGE_SIZE as int));
                        assert(crate::fpa::run_end(rs1[j]) == crate::fpa::run_end(rs0[i0]))
                            by (nonlinear_arith)
                            requires
                                rs1[j].0 as int == rs0[i0].0 as int + n as int * (
                                crate::fpa::PAGE_SIZE as int),
                                rs1[j].1 as int == rs0[i0].1 as int - n as int,
                                crate::fpa::run_end(rs1[j]) == rs1[j].0 as int
                                    + rs1[j].1 as int * (crate::fpa::PAGE_SIZE as int),
                                crate::fpa::run_end(rs0[i0]) == rs0[i0].0 as int
                                    + rs0[i0].1 as int * (crate::fpa::PAGE_SIZE as int),
                        ;
                        assert(n as int * (crate::fpa::PAGE_SIZE as int) >= 0)
                            by (nonlinear_arith)
                            requires
                                n >= 0,
                        ;
                        assert(rs0[i0].0 <= a < crate::fpa::run_end(rs0[i0]));
                        assert(crate::fpa::covers(rs0, a));
                    } else {
                        assert(rs1[j] == rs0[j]);
                    }
                }
            },
            Err(_) => {},
        }
    }
    assert forall|i: int, k: int, a: int|
        #![trigger ka.chains@[i].pages@[k], crate::fpa::covers(fpa1.start_runs(), a)]
        0 <= i < ka.chains@.len() && 0 <= k < ka.chains@[i].pages@.len()
            && ka.chains@[i].pages@[k].page <= a < ka.chains@[i].pages@[k].page as int
            + BUCKET_PAGE_SIZE as int implies !crate::fpa::covers(fpa1.start_runs(), a) by {
        if crate::fpa::covers(rs1, a) {
            assert(crate::fpa::covers(rs0, a));
        }
    }
}

/// Touching one bucket's bitmap leaves the heap and the page allocator
/// apart.
proof fn lemma_heap_bit_update(
    ka0: KAllocator,
    ka1: KAllocator,
    fpa: crate::fpa::FullPageAllocator,
    ci: int,
    k: int,
)
    requires
        ka0.inv(fpa),
        0 <= ci < 9,
        ka1.chains@.len() == 9,
        forall|i: int|
            0 <= i < 9 && i != ci ==> (#[trigger] ka1.chains@[i]).pages@ == ka0.chains@[i].pages@,
        ka1.chains@[ci].pages@.len() == ka0.chains@[ci].pages@.len(),
        0 <= k < ka0.chains@[ci].pages@.len(),
        forall|j: int|
            0 <= j < ka0.chains@[ci].pages@.len() && j != k ==> ka1.chains@[ci].pages@[j]
                == ka0.chains@[ci].pages@[j],
        ka1.chains@[ci].pages@[k].page == ka0.chains@[ci].pages@[k].page,
    ensures
        ka1.disjoint_from(fpa),
{
    assert forall|i: int, k2: int, i2: int, k22: int|
        0 <= i < ka1.chains@.len() && 0 <= k2 < ka1.chains@[i].pages@.len() && 0 <= i2
            < ka1.chains@.len() && 0 <= k22 < ka1.chains@[i2].pages@.len() && (i, k2) != (
        i2,
        k22,
        ) implies (#[trigger] ka1.chains@[i].pages@[k2]).page != (
        #[trigger] ka1.chains@[i2].pages@[k22]).page by {
        assert(ka1.chains@[i].pages@[k2].page == ka0.chains@[i].pages@[k2].page);
        assert(ka1.chains@[i2].pages@[k22].page == ka0.chains@[i2].pages@[k22].page);
    }
    assert forall|i: int, k2: int, a: int|
        #![trigger ka1.chains@[i].pages@[k2], crate::fpa::covers(fpa.start_runs(), a)]
        0 <= i < ka1.chains@.len() && 0 <= k2 < ka1.chains@[i].pages@.len()
            && ka1.chains@[i].pages@[k2].page <= a < ka1.chains@[i].pages@[k2].page as int
            + BUCKET_PAGE_SIZE as int implies !crate::fpa::covers(fpa.start_runs(), a) by {
        assert(ka1.chains@[i].pages@[k2].page == ka0.chains@[i].pages@[k2].page);
    }
}

/// After a fresh page moves from the free list into a chain, the heap and
/// the page allocator still avoid each other.
proof fn lemma_heap_new_page(
    ka0: KAllocator,
    ka1: KAllocator,
    fpa0: crate::fpa::FullPageAllocator,
    fpa1: crate::fpa::FullPageAllocator,
    ci: int,
    page: u64,
)
    requires
        ka0.inv(fpa0),
        crate::fpa::allocate_effect(
            fpa0,
            fpa1,
            BUCKET_PAGE_SIZE,
            Result::<u64, crate::fpa::AllocError>::Ok(page),
        ),
        fpa1.inv(),
        fpa1.inner is Some,
        0 <= ci < 9,
        ka1.chains@.len() == 9,
        forall|i: int|
            0 <= i < 9 && i != ci ==> (#[trigger] ka1.chains@[i]).pages@ == ka0.chains@[i].pages@,
        ka1.chains@[ci].pages@.len() == ka0.chains@[ci].pages@.len() + 1,
        forall|j: int|
            0 <= j < ka0.chains@[ci].pages@.len() ==> ka1.chains@[ci].pages@[j]
                == ka0.chains@[ci].pages@[j],
        ka1.chains@[ci].pages@.last().page == page,
        ka1.wf(),
    ensures
        ka1.disjoint_from(fpa1),
{
    let rs0 = fpa0.start_runs();
    let n = ((BUCKET_PAGE_SIZE as int + crate::fpa::PAGE_SIZE - 1) / (
    crate::fpa::PAGE_SIZE as int)) as u64;
    assert(n == 1);
    crate::fpa::lemma_first_fit_pub(rs0, 1);
    let i0 = crate::fpa::first_fit(rs0, 1)->0;
    assert(rs0[i0].0 == page);
    let q = choose|q: int| 0 <= q < rs0.len() && (#[trigger] rs0[q]).0 == page;
    crate::fpa::lemma_starts_unique_pub(rs0, q, i0);
    // the carve removes exactly the page from the covered set
    let carve = if rs0[i0].1 == 1 {
        rs0.remove(i0)
    } else {
        rs0.update(i0, ((rs0[i0].0 + crate::fpa::PAGE_SIZE) as u64, (rs0[i0].1 - 1) as u64))
    };
    crate::fpa::lemma_alloc_covers_fwd_pub(rs0, i0, carve);
    assert forall|a: int|
        crate::fpa::covers(fpa1.start_runs(), a) implies crate::fpa::covers(rs0, a) && !(
        page as int <= a < page as int + crate::fpa::PAGE_SIZE as int) by {
        assert(n == 1);
        assert(fpa1.start_runs() == (if rs0[i0].1 == n {
            rs0.remove(i0)
        } else {
            rs0.update(i0, ((page + n * crate::fpa::PAGE_SIZE) as u64, (rs0[i0].1 - n) as u64))
        }));
        let r2 = if rs0[i0].1 == 1 {
            rs0.remove(i0)
        } else {
            rs0.update(i0, ((rs0[i0].0 + crate::fpa::PAGE_SIZE) as u64, (rs0[i0].1 - 1) as u64))
        };
        if rs0[i0].1 != 1 {
            assert(((page + n * crate::fpa::PAGE_SIZE) as u64) == ((rs0[i0].0
                + crate::fpa::PAGE_SIZE) as u64));
            assert(((rs0[i0].1 - n) as u64) == ((rs0[i0].1 - 1) as u64));
        }
        assert(r2 == carve);
        assert(fpa1.start_runs() == carve);
        if crate::fpa::covers(fpa1.start_runs(), a) {
            assert(crate::fpa::covers(carve, a));
            assert(crate::fpa::covers(rs0, a) && !(rs0[i0].0 as int <= a < rs0[i0].0 as int
                + crate::fpa::PAGE_SIZE as int));
        }
    }
    // the fresh page was free, so it is no existing bucket's page
    assert(crate::fpa::covers(rs0, page as int)) by {
        assert((rs0[i0].0 as int) < crate::fpa::run_end(rs0[i0])) by (nonlinear_arith)
            requires
                rs0[i0].1 >= 1,
                crate::fpa::run_end(rs0[i0]) == rs0[i0].0 as int + rs0[i0].1 as int * (
                crate::fpa::PAGE_SIZE as int),
                crate::fpa::PAGE_SIZE == 4096,
        ;
    }
    assert forall|i: int, k: int, i2: int, k2: int|
        0 <= i < ka1.chains@.len() && 0 <= k < ka1.chains@[i].pages@.len() && 0 <= i2
            < ka1.chains@.len() && 0 <= k2 < ka1.chains@[i2].pages@.len() && (i, k) != (
        i2,
        k2,
        ) implies (#[trigger] ka1.chains@[i].pages@[k]).page != (
        #[trigger] ka1.chains@[i2].pages@[k2]).page by {
        let newk = ka0.chains@[ci].pages@.len() as int;
        if i == ci && k == newk {
            if !(i2 == ci && k2 == newk) {
                assert(ka1.chains@[i2].pages@[k2] == ka0.chains@[i2].pages@[k2]);
                assert(!crate::fpa::covers(rs0, ka0.chains@[i2].pages@[k2].page as int));
            }
        } else if i2 == ci && k2 == newk {
            assert(ka1.chains@[i].pages@[k] == ka0.chains@[i].pages@[k]);
            assert(!crate::fpa::covers(rs0, ka0.chains@[i].pages@[k].page as int));
        } else {
            assert(ka1.chains@[i].pages@[k] == ka0.chains@[i].pages@[k]);
            assert(ka1.chains@[i2].pages@[k2] == ka0.chains@[i2].pages@[k2]);
        }
    }
    assert forall|i: int, k: int, a: int|
        #![trigger ka1.chains@[i].pages@[k], crate::fpa::covers(fpa1.start_runs(), a)]
        0 <= i < ka1.chains@.len() && 0 <= k < ka1.chains@[i].pages@.len()
            && ka1.chains@[i].pages@[k].page <= a < ka1.chains@[i].pages@[k].page as int
            + BUCKET_PAGE_SIZE as int implies !crate::fpa::covers(fpa1.start_runs(), a) by {
        let newk = ka0.chains@[ci].pages@.len() as int;
        if i == ci && k == newk {
            // the fresh page's range was carved out of the free list
            if crate::fpa::covers(fpa1.start_runs(), a) {
                assert(!(page as int <= a < page as int + crate::fpa::PAGE_SIZE as int));
            }
        } else {
            assert(ka1.chains@[i].pages@[k] == ka0.chains@[i].pages@[k]);
            if crate::fpa::covers(fpa1.start_runs(), a) {
                assert(crate::fpa::covers(rs0, a));
            }
        }
    }
}


/// A large free only extends the page allocator's covered set into the
/// freed range, which no bucket touches, so the heap stays apart.
proof fn lemma_heap_dealloc_keeps(
    ka: KAllocator,
    fpa0: crate::fpa::FullPageAllocator,
    fpa1: crate::fpa::FullPageAllocator,
    ptr: u64,
    size: u64,
    r: Result<(), crate::fpa::AllocError>,
)
    requires
        ka.inv(fpa0),
        forall|a: int|
            crate::fpa::covers(fpa1.start_runs(), a) ==> (crate::fpa::covers(
                fpa0.start_runs(),
                a,
            ) || (ptr as int <= a < ptr as int + ((size as int + crate::fpa::PAGE_SIZE - 1) / (
            crate::fpa::PAGE_SIZE as int)) * (crate::fpa::PAGE_SIZE as int))),
        forall|i: int, k: int|
            0 <= i < 9 && 0 <= k < ka.chains@[i].pages@.len() ==> ((
            #[trigger] ka.chains@[i].pages@[k]).page as int + BUCKET_PAGE_SIZE as int
                <= ptr as int || ptr as int + ((size as int + crate::fpa::PAGE_SIZE - 1) / (
            crate::fpa::PAGE_SIZE as int)) * (crate::fpa::PAGE_SIZE as int)
                <= ka.chains@[i].pages@[k].page as int),
    ensures
        ka.disjoint_from(fpa1),
{
    assert forall|i: int, k2: int, a: int|
        #![trigger ka.chains@[i].pages@[k2], crate::fpa::covers(fpa1.start_runs(), a)]
        0 <= i < ka.chains@.len() && 0 <= k2 < ka.chains@[i].pages@.len()
            && ka.chains@[i].pages@[k2].page <= a < ka.chains@[i].pages@[k2].page as int
            + BUCKET_PAGE_SIZE as int implies !crate::fpa::covers(fpa1.start_runs(), a) by {
        if crate::fpa::covers(fpa1.start_runs(), a) {
            assert(!crate::fpa::covers(fpa0.start_runs(), a));
        }
    }
}

/// After an emptied page leaves its chain and returns to the page
/// allocator, the heap and the allocator stay apart.
proof fn lemma_heap_reclaim(
    ka0: KAllocator,
    ka1: KAllocator,
    fpa0: crate::fpa::FullPageAllocator,
    fpa1: crate::fpa::FullPageAllocator,
    ci: int,
    k: int,
    page: u64,
)
    requires
        ka0.inv(fpa0),
        fpa1.inv(),
        fpa1.inner is Some,
        0 <= ci < 9,
        0 <= k < ka0.chains@[ci].pages@.len(),
        ka0.chains@[ci].pages@[k].page == page,
        ka1.chains@.len() == 9,
        forall|i: int|
            0 <= i < 9 && i != ci ==> (#[trigger] ka1.chains@[i]).pages@ == ka0.chains@[i].pages@
                && ka1.chains@[i].block == ka0.chains@[i].block,
        ka1.chains@[ci].block == ka0.chains@[ci].block,
        ka1.chains@[ci].pages@ == ka0.chains@[ci].pages@.remove(k),
        forall|a: int|
            crate::fpa::covers(fpa1.start_runs(), a) ==> (crate::fpa::covers(
                fpa0.start_runs(),
                a,
            ) || (page as int <= a < page as int + BUCKET_PAGE_SIZE as int)),
    ensures
        ka1.wf() ==> ka1.inv(fpa1),
        ka1.disjoint_from(fpa1),
{
    assert forall|i: int, k2: int, i2: int, k22: int|
        0 <= i < ka1.chains@.len() && 0 <= k2 < ka1.chains@[i].pages@.len() && 0 <= i2
            < ka1.chains@.len() && 0 <= k22 < ka1.chains@[i2].pages@.len() && (i, k2) != (
        i2,
        k22,
        ) implies (#[trigger] ka1.chains@[i].pages@[k2]).page != (
        #[trigger] ka1.chains@[i2].pages@[k22]).page by {
        let o1 = if i == ci && k2 >= k {
            k2 + 1
        } else {
            k2
        };
        let o2 = if i2 == ci && k22 >= k {
            k22 + 1
        } else {
            k22
        };
        assert(ka1.chains@[i].pages@[k2] == ka0.chains@[i].pages@[o1]);
        assert(ka1.chains@[i2].pages@[k22] == ka0.chains@[i2].pages@[o2]);
    }
    assert forall|i: int, k2: int, a: int|
        #![trigger ka1.chains@[i].pages@[k2], crate::fpa::covers(fpa1.start_runs(), a)]
        0 <= i < ka1.chains@.len() && 0 <= k2 < ka1.chains@[i].pages@.len()
            && ka1.chains@[i].pages@[k2].page <= a < ka1.chains@[i].pages@[k2].page as int
            + BUCKET_PAGE_SIZE as int implies !crate::fpa::covers(fpa1.start_runs(), a) by {
        let o1 = if i == ci && k2 >= k {
            k2 + 1
        } else {
            k2
        };
        assert(ka1.chains@[i].pages@[k2] == ka0.chains@[i].pages@[o1]);
        if crate::fpa::covers(fpa1.start_runs(), a) {
            if crate::fpa::covers(fpa0.start_runs(), a) {
                assert(false);
            } else {
                // the address lies in the freed page, which is distinct
                // from this bucket's page
                assert(ka0.chains@[i].pages@[o1].page != page);
                lemma_aligned_pages_disjoint(ka0.chains@[i].pages@[o1].page, page, a);
                assert(false);
            }
        }
    }
}

/// At most one page of a chain contains any given address.
proof fn lemma_dealloc_unique_page(ka: KAllocator, ci: int, k: int, ptr: u64)
    requires
        ka.wf(),
        forall|i: int, k1: int, i2: int, k2: int|
            0 <= i < ka.chains@.len() && 0 <= k1 < ka.chains@[i].pages@.len() && 0 <= i2
                < ka.chains@.len() && 0 <= k2 < ka.chains@[i2].pages@.len() && (i, k1) != (
            i2,
            k2,
            ) ==> (#[trigger] ka.chains@[i].pages@[k1]).page != (
            #[trigger] ka.chains@[i2].pages@[k2]).page,
        0 <= ci < 9,
        0 <= k < ka.chains@[ci].pages@.len(),
        ka.chains@[ci].pages@[k].page <= ptr < ka.chains@[ci].pages@[k].page as int
            + BUCKET_PAGE_SIZE as int,
    ensures
        forall|k2: int|
            0 <= k2 < ka.chains@[ci].pages@.len() && (#[trigger] ka.chains@[ci].pages@[k2]).page
                <= ptr < ka.chains@[ci].pages@[k2].page as int + BUCKET_PAGE_SIZE as int ==> k2
                == k,
{
    assert forall|k2: int|
        0 <= k2 < ka.chains@[ci].pages@.len() && (#[trigger] ka.chains@[ci].pages@[k2]).page
            <= ptr < ka.chains@[ci].pages@[k2].page as int + BUCKET_PAGE_SIZE as int implies k2
        == k by {
        if k2 != k {
            assert(ka.chains@[ci].pages@[k2].page != ka.chains@[ci].pages@[k].page);
            lemma_aligned_pages_disjoint(
                ka.chains@[ci].pages@[k].page,
                ka.chains@[ci].pages@[k2].page,
                ptr as int,
            );
        }
    }
}

/// A page range disjoint from every covered address is disjoint from
/// every run.
proof fn lemma_uncovered_disjoint(rs: Seq<(u64, u64)>, p: u64)
    requires
        crate::fpa::runs_wf(rs),
        forall|a: int|
            p <= a < p as int + BUCKET_PAGE_SIZE as int ==> !crate::fpa::covers(rs, a),
    ensures
        forall|i: int|
            0 <= i < rs.len() ==> (crate::fpa::run_end(#[trigger] rs[i]) <= p as int
                || p as int + BUCKET_PAGE_SIZE as int <= rs[i].0 as int),
{
    assert forall|i: int|
        0 <= i < rs.len() implies (crate::fpa::run_end(#[trigger] rs[i]) <= p as int
        || p as int + BUCKET_PAGE_SIZE as int <= rs[i].0 as int) by {
        if !(crate::fpa::run_end(rs[i]) <= p as int) && !(p as int + BUCKET_PAGE_SIZE as int
            <= rs[i].0 as int) {
            let a = if p as int >= rs[i].0 as int {
                p as int
            } else {
                rs[i].0 as int
            };
            assert((rs[i].0 as int) < crate::fpa::run_end(rs[i])) by (nonlinear_arith)
                requires
                    rs[i].1 >= 1,
                    crate::fpa::run_end(rs[i]) == rs[i].0 as int + rs[i].1 as int * (
                    crate::fpa::PAGE_SIZE as int),
                    crate::fpa::PAGE_SIZE == 4096,
            ;
            assert(rs[i].0 <= a < crate::fpa::run_end(rs[i]));
            assert(p <= a < p as int + BUCKET_PAGE_SIZE as int);
            assert(crate::fpa::covers(rs, a));
            assert(false);
        }
    }
}

/// Two distinct page-aligned pages occupy disjoint ranges.
proof fn lemma_aligned_pages_disjoint(p1: u64, p2: u64, a: int)
    requires
        p1 != p2,
        p1 % BUCKET_PAGE_SIZE == 0,
        p2 % BUCKET_PAGE_SIZE == 0,
        p1 <= a < p1 as int + BUCKET_PAGE_SIZE as int,
    ensures
        !(p2 <= a < p2 as int + BUCKET_PAGE_SIZE as int),
{
    if p2 <= a < p2 as int + BUCKET_PAGE_SIZE as int {
        assert(p1 == p2) by (nonlinear_arith)
            requires
                p1 % BUCKET_PAGE_SIZE == 0,
                p2 % BUCKET_PAGE_SIZE == 0,
                p1 <= a < p1 as int + BUCKET_PAGE_SIZE as int,
                p2 <= a < p2 as int + BUCKET_PAGE_SIZE as int,
                BUCKET_PAGE_SIZE == 4096,
        ;
    }
}

/// Everything one heap free does, for both the chains and the page
/// allocator.
pub open spec fn heap_dealloc_effect(
    ka0: KAllocator,
    ka1: KAllocator,
    fpa0: crate::fpa::FullPageAllocator,
    fpa1: crate::fpa::FullPageAllocator,
    ptr: u64,
    size: u64,
    align: u64,
    r: Result<(), crate::fpa::AllocError>,
) -> bool {
                let max = if size >= align {
                    size
                } else {
                    align
                };
                match spec_size_class(max) {
                    None => (forall|i: int|
                        0 <= i < 9 ==> chain_like(
                            #[trigger] ka1.chains@[i],
                            ka0.chains@[i],
                        )),
                    Some(b) => ({
                        let ci = spec_class_index(b);
                        let ch = ka0.chains@[ci];
                        &&& (forall|i: int|
                            0 <= i < 9 && i != ci ==> chain_like(
                                #[trigger] ka1.chains@[i],
                                ka0.chains@[i],
                            ))
                        &&& (forall|k: int|
                            0 <= k < ch.pages@.len() && (#[trigger] ch.pages@[k]).page <= ptr
                                < ch.pages@[k].page as int + BUCKET_PAGE_SIZE as int
                                ==> ({
                                let b0 = ch.pages@[k];
                                let blk = (ptr - b0.page) as int / (b as int);
                                let emptied = b0.live() == (if block_bit(b0.bitmap@, blk) {
                                    1int
                                } else {
                                    0
                                });
                                if emptied && k != 0 && r is Ok {
                                    // the page went back to the allocator
                                    &&& ka1.chains@[ci].pages@.len() == ch.pages@.len()
                                        - 1
                                    &&& (forall|j: int|
                                        0 <= j < k ==> ka1.chains@[ci].pages@[j] == (
                                        #[trigger] ch.pages@[j]))
                                    &&& (forall|j: int|
                                        k < j < ch.pages@.len() ==> ka1.chains@[ci].pages@[j - 1] == (#[trigger] ch.pages@[j]))
                                    &&& crate::fpa::covers(fpa1.start_runs(), b0.page as int)
                                } else {
                                    &&& ka1.chains@[ci].pages@.len() == ch.pages@.len()
                                    &&& (forall|j: int|
                                        0 <= j < ch.pages@.len() && j != k ==> ka1.chains@[ci].pages@[j] == (#[trigger] ch.pages@[j]))
                                    &&& ka1.chains@[ci].pages@[k].page == b0.page
                                    &&& ka1.chains@[ci].pages@[k].block == b0.block
                                    &&& (blk < b0.blocks() ==> (forall|g: int|
                                        0 <= g < b0.bitmap@.len() * 8 ==> #[trigger] block_bit(
                                            ka1.chains@[ci].pages@[k].bitmap@,
                                            g,
                                        ) == (g != blk && block_bit(b0.bitmap@, g))))
                                }
                            }))
                    }),
                }
}

impl KAllocator {
    /// Return a block: the bit of its page clears, and a page of a small
    /// class that empties out, unless it heads its chain, goes back to
    /// the page allocator.  A large allocation goes back directly.
    #[verifier::rlimit(100)]
    pub fn deallocate(
        &mut self,
        fpa: &mut crate::fpa::FullPageAllocator,
        ptr: u64,
        size: u64,
        align: u64,
    ) -> (r: Result<(), crate::fpa::AllocError>)
        requires
            old(self).inv(*old(fpa)),
            1 <= size <= 0xFFFF_FFFF_FFFF_EFFF,
            align <= BUCKET_PAGE_SIZE,
            ({
                let max = if size >= align {
                    size
                } else {
                    align
                };
                match spec_size_class(max) {
                    Some(b) => exists|k: int|
                        0 <= k < old(self).chains@[spec_class_index(b)].pages@.len() && (
                        #[trigger] old(self).chains@[spec_class_index(b)].pages@[k]).page <= ptr
                            < old(self).chains@[spec_class_index(b)].pages@[k].page as int
                            + BUCKET_PAGE_SIZE as int,
                    None => ptr % crate::fpa::PAGE_SIZE == 0 && crate::layout::ALLOCATOR_START
                        <= ptr && ptr as int + ((size as int + crate::fpa::PAGE_SIZE - 1) / (
                    crate::fpa::PAGE_SIZE as int)) * (crate::fpa::PAGE_SIZE as int)
                        <= crate::layout::ALLOCATOR_END as int + 1 && (forall|i: int|
                        0 <= i < old(fpa).start_runs().len() ==> (crate::fpa::run_end(
                            #[trigger] old(fpa).start_runs()[i],
                        ) <= ptr as int || ptr as int + ((size as int + crate::fpa::PAGE_SIZE
                            - 1) / (crate::fpa::PAGE_SIZE as int)) * (
                        crate::fpa::PAGE_SIZE as int) <= old(fpa).start_runs()[i].0 as int))
                        && (forall|i: int, k: int|
                        0 <= i < 9 && 0 <= k < old(self).chains@[i].pages@.len() ==> ((
                        #[trigger] old(self).chains@[i].pages@[k]).page as int
                            + BUCKET_PAGE_SIZE as int <= ptr as int || ptr as int + ((
                        size as int + crate::fpa::PAGE_SIZE - 1) / (
                        crate::fpa::PAGE_SIZE as int)) * (crate::fpa::PAGE_SIZE as int)
                            <= old(self).chains@[i].pages@[k].page as int)),
                }
            }),
        ensures
            final(self).inv(*final(fpa)),
            heap_dealloc_effect(
                *old(self),
                *final(self),
                *old(fpa),
                *final(fpa),
                ptr,
                size,
                align,
                r,
            ),
    {
        match size_class(size, align) {
            None => {
                let r = fpa.deallocate(ptr, size);
                proof {
                    assert forall|i: int| 0 <= i < 9 implies chain_like(
                        #[trigger] self.chains@[i],
                        old(self).chains@[i],
                    ) by {}
                    lemma_heap_dealloc_keeps(*self, *old(fpa), *fpa, ptr, size, r);
                }
                r
            },
            Some(b) => {
                proof {
                    lemma_bucket_geometry(b);
                }
                let ci = class_index(b);
                let mut chain = self.chains.remove(ci);
                let ghost ch0 = chain;
                let n = chain.pages.len();
                let mut k: usize = 0;
                while k < n
                    invariant
                        old(self).inv(*old(fpa)),
                        *fpa == *old(fpa),
                        self.chains@ == old(self).chains@.remove(ci as int),
                        ci < 9,
                        ci as int == spec_class_index(b),
                        ch0 == old(self).chains@[ci as int],
                        spec_size_class(
                            if size >= align {
                                size
                            } else {
                                align
                            },
                        ) == Some(b),
                        chain.block == ch0.block,
                        chain.pages@ == ch0.pages@,
                        n == ch0.pages@.len(),
                        0 <= k <= n,
                        ch0.wf(),
                        spec_size_class(b) == Some(b),
                        ch0.block == b,
                        forall|j: int|
                            0 <= j < k ==> !((#[trigger] ch0.pages@[j]).page <= ptr
                                < ch0.pages@[j].page as int + BUCKET_PAGE_SIZE as int),
                    decreases n - k,
                {
                    let pg = chain.pages[k].page;
                    if pg <= ptr && ptr - pg < BUCKET_PAGE_SIZE {
                        let ghost bk0 = ch0.pages@[k as int];
                        let blk = (ptr - pg) / b;
                        let mut bk = chain.pages.remove(k);
                        proof {
                            lemma_bucket_geometry(b);
                            assert(bk == bk0);
                            assert(bk0.block == b);
                            assert(bk0.blocks() == BUCKET_PAGE_SIZE as int / (b as int));
                            assert((blk as int) < bk0.blocks()) by (nonlinear_arith)
                                requires
                                    blk as int == ((ptr - pg) as int) / (b as int),
                                    ((ptr - pg) as int) < BUCKET_PAGE_SIZE as int,
                                    b >= 8,
                                    bk0.blocks() == BUCKET_PAGE_SIZE as int / (b as int),
                                    (b as int) * (BUCKET_PAGE_SIZE as int / (b as int))
                                        == BUCKET_PAGE_SIZE as int,
                                    BUCKET_PAGE_SIZE == 4096,
                            ;
                        }
                        bk.free_block(blk);
                        let emptied = bk.is_empty();
                        if emptied && k > 0 {
                            // an emptied non-head page goes home
                            proof {
                                assert forall|a: int|
                                    bk0.page <= a < bk0.page as int + BUCKET_PAGE_SIZE as int
                                        implies !crate::fpa::covers(fpa.start_runs(), a) by {
                                    assert(old(self).chains@[ci as int].pages@[k as int]
                                        == bk0);
                                }
                                lemma_uncovered_disjoint(fpa.start_runs(), bk0.page);
                            }
                            let freed = fpa.deallocate(bk.page, BUCKET_PAGE_SIZE);
                            match freed {
                                Ok(_) => {
                                    self.chains.insert(ci, chain);
                                    proof {
                                        assert(self.chains@[ci as int].pages@ =~= ch0.pages@.remove(
                                            k as int,
                                        ));
                                        let e2 = bk0.page as int + ((
                                        BUCKET_PAGE_SIZE as int + crate::fpa::PAGE_SIZE - 1) / (
                                        crate::fpa::PAGE_SIZE as int)) * (
                                        crate::fpa::PAGE_SIZE as int);
                                        assert(e2 == bk0.page as int + BUCKET_PAGE_SIZE as int);
                                        assert forall|a: int|
                                            crate::fpa::covers(fpa.start_runs(), a) implies (
                                        crate::fpa::covers(old(fpa).start_runs(), a) || (
                                        bk0.page as int <= a < bk0.page as int
                                            + BUCKET_PAGE_SIZE as int)) by {}
                                        assert(crate::fpa::covers(
                                            fpa.start_runs(),
                                            bk0.page as int,
                                        )) by {
                                            assert(!crate::fpa::covers(
                                                old(fpa).start_runs(),
                                                bk0.page as int,
                                            ));
                                        }
                                        lemma_heap_reclaim(
                                            *old(self),
                                            *self,
                                            *old(fpa),
                                            *fpa,
                                            ci as int,
                                            k as int,
                                            bk0.page,
                                        );
                                        lemma_dealloc_unique_page(
                                            *old(self),
                                            ci as int,
                                            k as int,
                                            ptr,
                                        );
                                        assert(heap_dealloc_effect(
                                            *old(self),
                                            *self,
                                            *old(fpa),
                                            *fpa,
                                            ptr,
                                            size,
                                            align,
                                            Result::<(), crate::fpa::AllocError>::Ok(()),
                                        ));
                                    }
                                    return Ok(());
                                },
                                Err(e) => {
                                    // no room for the descriptor: keep the
                                    // empty page in its chain
                                    chain.pages.insert(k, bk);
                                    self.chains.insert(ci, chain);
                                    proof {
                                        lemma_heap_bit_update(
                                            *old(self),
                                            *self,
                                            *old(fpa),
                                            ci as int,
                                            k as int,
                                        );
                                        lemma_dealloc_unique_page(
                                            *old(self),
                                            ci as int,
                                            k as int,
                                            ptr,
                                        );
                                        assert(self.chains@[ci as int].pages@
                                            =~= ch0.pages@.update(
                                            k as int,
                                            self.chains@[ci as int].pages@[k as int],
                                        ));
                                        assert(heap_dealloc_effect(
                                            *old(self),
                                            *self,
                                            *old(fpa),
                                            *fpa,
                                            ptr,
                                            size,
                                            align,
                                            Result::<(), crate::fpa::AllocError>::Err(e),
                                        ));
                                    }
                                    return Err(e);
                                },
                            }
                        } else {
                            chain.pages.insert(k, bk);
                            self.chains.insert(ci, chain);
                            proof {
                                lemma_heap_bit_update(
                                    *old(self),
                                    *self,
                                    *old(fpa),
                                    ci as int,
                                    k as int,
                                );
                                lemma_dealloc_unique_page(*old(self), ci as int, k as int, ptr);
                                assert(self.chains@[ci as int].pages@ =~= ch0.pages@.update(
                                    k as int,
                                    self.chains@[ci as int].pages@[k as int],
                                ));
                                assert(heap_dealloc_effect(
                                    *old(self),
                                    *self,
                                    *old(fpa),
                                    *fpa,
                                    ptr,
                                    size,
                                    align,
                                    Result::<(), crate::fpa::AllocError>::Ok(()),
                                ));
                            }
                            return Ok(());
                        }
                    }
                    k = k + 1;
                }
                // no page of the class holds the pointer
                proof {
                    let kw = choose|kw: int|
                        0 <= kw < ch0.pages@.len() && (#[trigger] ch0.pages@[kw]).page <= ptr
                            < ch0.pages@[kw].page as int + BUCKET_PAGE_SIZE as int;
                    assert(false);
                }
                self.chains.insert(ci, chain);
                Err(crate::fpa::AllocError)
            },
        }
    }
}

} // verus!
