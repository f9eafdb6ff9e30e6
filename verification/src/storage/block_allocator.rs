//! Chunk-level allocator for a single 16 KB block.
//!
//! Each block is divided into 256 × 64-byte chunks. The first chunk (offset 0)
//! is the block header. Chunks 1..255 are data. The 256-bit bitmap tracks
//! allocation: 1 = allocated, 0 = free. Bit 0 (header) is always set.
use vstd::prelude::*;

verus! {

/// Whether bit `k` (0..8) of byte `b` is one.
pub open spec fn byte_has_bit(b: u8, k: int) -> bool {
    (b & (1u8 << (k as u8))) != 0
}

/// Whether bit `i` of the bitmap is one: bit `i` lives in byte `i / 8`
/// at position `i % 8`.
pub open spec fn is_set(bm: Seq<u8>, i: int) -> bool {
    byte_has_bit(bm[i / 8], i % 8)
}

/// Every chunk in `[start, start + len)` is free.
pub open spec fn run_free(bm: Seq<u8>, start: int, len: int) -> bool {
    forall|i: int| start <= i < start + len ==> !is_set(bm, i)
}

/// The bitmap `new` is `old` with the bits of `[lo, hi)` set to `value` and
/// every other bit of the 256 left as it was.
pub open spec fn bits_assigned(old: Seq<u8>, new: Seq<u8>, lo: int, hi: int, value: bool) -> bool {
    forall|j: int|
        0 <= j < 256 ==> #[trigger] is_set(new, j) == if lo <= j < hi {
            value
        } else {
            is_set(old, j)
        }
}

/// Where the sequential phase of an allocation starts: the cursor, but never
/// before the first data chunk.
pub open spec fn alloc_start(offset: u8) -> int {
    if offset < 1 {
        1
    } else {
        offset as int
    }
}

/// The last start position that the fallback scan of an allocation of `run`
/// chunks tries: `max(start - run, 1)`, with the subtraction saturating at 0.
pub open spec fn scan_limit(start: int, run: int) -> int {
    if start - run > 1 {
        start - run
    } else {
        1
    }
}

/// The sequential phase succeeds: the `run` chunks at the cursor fit in the
/// block and are free.
pub open spec fn sequential_fits(bm: Seq<u8>, offset: u8, run: int) -> bool {
    let start = alloc_start(offset);
    start + run <= 256 && run_free(bm, start, run)
}

/// `f` is the first start position in `[1, limit]` of `run` free chunks.
pub open spec fn first_free_run(bm: Seq<u8>, f: int, run: int, limit: int) -> bool {
    &&& 1 <= f <= limit
    &&& run_free(bm, f, run)
    &&& forall|g: int| 1 <= g < f ==> !run_free(bm, g, run)
}

/// `ceil(n / 64)`: the number of 64-byte chunks that hold `n` bytes.
pub open spec fn chunks_for(n: int) -> int {
    (n + 63) / 64
}

/// The number of set bits among bitmap positions `[lo, hi)`.
pub open spec fn count_set(bm: Seq<u8>, lo: int, hi: int) -> nat
    decreases hi - lo,
{
    if hi <= lo {
        0
    } else {
        count_set(bm, lo, hi - 1) + if is_set(bm, hi - 1) {
            1nat
        } else {
            0nat
        }
    }
}

pub(crate) proof fn lemma_bits_of_or(b: u8, k: u8, j: u8)
    requires
        k < 8,
        j < 8,
    ensures
        ((b | (1u8 << k)) & (1u8 << j) != 0) == (j == k || (b & (1u8 << j)) != 0),
{
    assert(((b | (1u8 << k)) & (1u8 << j) != 0) == (j == k || (b & (1u8 << j)) != 0))
        by (bit_vector)
        requires
            k < 8,
            j < 8,
    ;
}

pub(crate) proof fn lemma_bits_of_and_not(b: u8, k: u8, j: u8)
    requires
        k < 8,
        j < 8,
    ensures
        ((b & !(1u8 << k)) & (1u8 << j) != 0) == (j != k && (b & (1u8 << j)) != 0),
{
    assert(((b & !(1u8 << k)) & (1u8 << j) != 0) == (j != k && (b & (1u8 << j)) != 0))
        by (bit_vector)
        requires
            k < 8,
            j < 8,
    ;
}

/// What allocating `count` chunks in a bitmap `bm` with cursor `off` gives:
/// result `r`, bitmap `bm2` and cursor `off2`.
///
/// Phase 1 (sequential fast path) takes the `count` chunks at the cursor
/// (never before 1) when they are free, and moves the cursor past them.
/// Phase 2 (fallback scan) takes the first run of `count` free chunks
/// starting in `[1, max(cursor - count, 1)]` and leaves the cursor alone.
/// When neither finds a run, nothing changes.
pub open spec fn alloc_outcome(bm: Seq<u8>, off: u8, count: u8, r: Option<u8>, bm2: Seq<u8>, off2: u8) -> bool {
    let start = alloc_start(off);
    let run = count as int;
    let limit = scan_limit(start, run);
    match r {
        None => {
            &&& bm2 == bm
            &&& off2 == off
            &&& (count == 0 || (!sequential_fits(bm, off, run) && forall|g: int|
                1 <= g <= limit ==> !run_free(bm, g, run)))
        },
        Some(f) => {
            &&& count > 0
            &&& bits_assigned(bm, bm2, f as int, f + run, true)
            &&& if sequential_fits(bm, off, run) {
                &&& f == start
                &&& off2 == ((start + run) % 256) as u8
            } else {
                &&& first_free_run(bm, f as int, run, limit)
                &&& off2 == off
            }
        },
    }
}

/// When the `count` chunks at the cursor (at least chunk 1) do not fit, an
/// allocation fails only if no run of `count` free chunks starts anywhere
/// from chunk 1 up to `max(cursor - count, 1)`; when it succeeds there, it
/// takes the first such run. When they fit, it takes them and moves the
/// cursor past them. A successful allocation marks exactly its chunks, and a
/// failed one changes nothing.
pub proof fn lemma_alloc_falls_back_to_first_free_run(
    bm: Seq<u8>,
    off: u8,
    count: u8,
    r: Option<u8>,
    bm2: Seq<u8>,
    off2: u8,
)
    requires
        alloc_outcome(bm, off, count, r, bm2, off2),
        count > 0,
    ensures
        ({
            let cursor: int = if off == 0 {
                1
            } else {
                off as int
            };
            let fits = cursor + count <= 256 && run_free(bm, cursor, count as int);
            &&& !fits && r is None ==> forall|g: int|
                1 <= g && (g == 1 || g <= cursor - count) ==> !#[trigger] run_free(bm, g, count as int)
            &&& !fits && r is Some ==> {
                let f = r->0 as int;
                &&& 1 <= f && (f == 1 || f <= cursor - count)
                &&& run_free(bm, f, count as int)
                &&& forall|g: int| 1 <= g < f ==> !#[trigger] run_free(bm, g, count as int)
            }
            &&& fits ==> r == Some(cursor as u8) && off2 == ((cursor + count) % 256) as u8
            &&& !fits ==> off2 == off
            &&& r is None ==> bm2 == bm
            &&& r is Some ==> forall|j: int|
                0 <= j < 256 ==> #[trigger] is_set(bm2, j) == ((r->0 <= j < r->0 + count) || is_set(bm, j))
        }),
{
    let cursor: int = if off == 0 {
        1
    } else {
        off as int
    };
    assert(alloc_start(off) == cursor);
}

/// A successful allocation lies inside the data chunks of the block.
pub proof fn lemma_alloc_in_block(bm: Seq<u8>, off: u8, count: u8, f: u8, bm2: Seq<u8>, off2: u8)
    requires
        alloc_outcome(bm, off, count, Some(f), bm2, off2),
    ensures
        1 <= f,
        f + count <= 256,
{
}

/// Freeing the chunks that an allocation took gives back the bitmap's bits
/// as they were before it.
pub proof fn lemma_free_undoes_alloc(
    bm: Seq<u8>,
    off: u8,
    count: u8,
    f: u8,
    bm2: Seq<u8>,
    off2: u8,
    bm3: Seq<u8>,
)
    requires
        alloc_outcome(bm, off, count, Some(f), bm2, off2),
        bits_assigned(bm2, bm3, f as int, f + count, false),
    ensures
        forall|j: int| 0 <= j < 256 ==> #[trigger] is_set(bm3, j) == is_set(bm, j),
{
    assert(run_free(bm, f as int, count as int));
    assert forall|j: int| 0 <= j < 256 implies #[trigger] is_set(bm3, j) == is_set(bm, j) by {
        assert(is_set(bm2, j) == if f <= j < f + count {
            true
        } else {
            is_set(bm, j)
        });
    }
}

/// Helpers for chunk-level bitmap manipulation.
pub struct BlockAllocator;

impl BlockAllocator {
    /// Whether bit `bit` of the bitmap is set.
    pub fn test_bit(bitmap: &[u8; 32], bit: usize) -> (r: bool)
        requires
            bit < 256,
        ensures
            r == is_set(bitmap@, bit as int),
    {
        let byte = bit / 8;
        let k = (bit % 8) as u8;
        (bitmap[byte] & (1u8 << k)) != 0
    }

    /// Set (`value == true`) or clear bit `bit` of the bitmap.
    pub fn set_bit(bitmap: &mut [u8; 32], bit: usize, value: bool)
        requires
            bit < 256,
        ensures
            bits_assigned(old(bitmap)@, final(bitmap)@, bit as int, bit + 1, value),
    {
        let byte = bit / 8;
        let k = (bit % 8) as u8;
        let ghost before = bitmap@;
        if value {
            bitmap[byte] = bitmap[byte] | (1u8 << k);
        } else {
            bitmap[byte] = bitmap[byte] & !(1u8 << k);
        }
        proof {
            assert forall|j: int| 0 <= j < 256 implies #[trigger] is_set(bitmap@, j) == if bit <= j
                < bit + 1 {
                value
            } else {
                is_set(before, j)
            } by {
                if j / 8 == byte as int {
                    let jj = (j % 8) as u8;
                    assert(jj as int == j % 8);
                    if value {
                        lemma_bits_of_or(before[byte as int], k, jj);
                    } else {
                        lemma_bits_of_and_not(before[byte as int], k, jj);
                    }
                    assert((jj == k) == (j == bit as int));
                }
            }
        }
    }

    /// Whether every chunk in `[start, start + len)` is free.
    fn range_free(bitmap: &[u8; 32], start: usize, len: usize) -> (r: bool)
        requires
            start + len <= 256,
        ensures
            r == run_free(bitmap@, start as int, len as int),
    {
        let mut i = start;
        while i < start + len
            invariant
                start <= i <= start + len,
                start + len <= 256,
                run_free(bitmap@, start as int, i - start),
            decreases start + len - i,
        {
            if Self::test_bit(bitmap, i) {
                return false;
            }
            i += 1;
        }
        true
    }

    /// Set every bit of `[start, start + len)`.
    fn set_range(bitmap: &mut [u8; 32], start: usize, len: usize)
        requires
            start + len <= 256,
        ensures
            bits_assigned(old(bitmap)@, final(bitmap)@, start as int, start + len, true),
    {
        Self::assign_range(bitmap, start, len, true);
    }

    /// Assign `value` to every bit of `[start, start + len)`.
    fn assign_range(bitmap: &mut [u8; 32], start: usize, len: usize, value: bool)
        requires
            start + len <= 256,
        ensures
            bits_assigned(old(bitmap)@, final(bitmap)@, start as int, start + len, value),
    {
        let ghost orig = bitmap@;
        let mut i = start;
        while i < start + len
            invariant
                start <= i <= start + len,
                start + len <= 256,
                bits_assigned(orig, bitmap@, start as int, i as int, value),
            decreases start + len - i,
        {
            let ghost prev = bitmap@;
            Self::set_bit(bitmap, i, value);
            proof {
                assert forall|j: int| 0 <= j < 256 implies #[trigger] is_set(bitmap@, j) == if start
                    <= j < i + 1 {
                    value
                } else {
                    is_set(orig, j)
                } by {
                    assert(is_set(bitmap@, j) == if i <= j < i + 1 {
                        value
                    } else {
                        is_set(prev, j)
                    });
                    assert(is_set(prev, j) == if start <= j < i {
                        value
                    } else {
                        is_set(orig, j)
                    });
                }
            }
            i += 1;
        }
    }

    /// Find `count` contiguous free chunks in the bitmap, allocate them and
    /// return the data-chunk offset of the first one; `None` when there is no
    /// such run.
    ///
    /// Phase 1 (sequential fast path) tries the `count` chunks at the cursor
    /// `*offset` (never before 1); on success the cursor moves past them.
    /// Phase 2 (fallback scan) takes the first run of `count` free chunks
    /// starting in `[1, max(cursor - count, 1)]` and leaves the cursor alone.
    pub fn alloc_chunks(bitmap: &mut [u8; 32], offset: &mut u8, count: u8) -> (r: Option<u8>)
        ensures
            alloc_outcome(old(bitmap)@, *old(offset), count, r, final(bitmap)@, *final(offset)),
    {
        if count == 0 {
            return None;
        }
        let run = count as usize;
        let start: usize = if *offset < 1 {
            1
        } else {
            *offset as usize
        };
        // Phase 1: sequential allocation from the cursor.
        if start + run <= 256 {
            if Self::range_free(bitmap, start, run) {
                Self::set_range(bitmap, start, run);
                *offset = ((start + run) % 256) as u8;
                return Some(start as u8);
            }
        }
        // Phase 2: fallback scan of the prefix.
        let scan_end: usize = if start > run + 1 {
            start - run
        } else {
            1
        };
        let last = scan_end + run - 1;
        let ghost orig = bitmap@;
        let ghost old_off = *offset;
        assert(!sequential_fits(orig, old_off, run as int));
        let mut current_run: usize = 0;
        let mut pos: usize = 1;
        while pos <= last
            invariant
                bitmap@ == orig,
                orig == old(bitmap)@,
                old_off == *old(offset),
                *offset == old_off,
                start == alloc_start(old_off),
                !sequential_fits(orig, old_off, run as int),
                1 <= run < 256,
                run == count as usize,
                scan_end == scan_limit(start as int, run as int),
                last == scan_end + run - 1,
                last <= 255,
                1 <= pos <= last + 1,
                current_run < run,
                current_run <= pos - 1,
                run_free(orig, pos - current_run, current_run as int),
                pos - current_run - 1 >= 1 ==> is_set(orig, pos - current_run - 1),
                forall|g: int| 1 <= g && g + run <= pos ==> !run_free(orig, g, run as int),
            decreases last + 1 - pos,
        {
            if !Self::test_bit(bitmap, pos) {
                proof {
                    assert forall|g: int| 1 <= g && g + run <= pos + 1 && current_run + 1 < run
                        implies !run_free(orig, g, run as int) by {
                        if g + run == pos + 1 {
                            assert(g <= pos - current_run - 1);
                            assert(is_set(orig, pos - current_run - 1));
                        }
                    }
                }
                let ghost prev_run = current_run;
                current_run += 1;
                if current_run == run {
                    let found = pos + 1 - run;
                    proof {
                        assert(run_free(orig, found as int, run as int)) by {
                            assert forall|i: int| found <= i < found + run implies !is_set(orig, i) by {
                                if i < pos {
                                    assert(pos - prev_run <= i < pos - prev_run + prev_run);
                                }
                            }
                        }
                        assert(first_free_run(orig, found as int, run as int, scan_end as int));
                    }
                    Self::set_range(bitmap, found, run);
                    return Some(found as u8);
                }
            } else {
                proof {
                    assert forall|g: int| 1 <= g && g + run <= pos + 1 implies !run_free(
                        orig,
                        g,
                        run as int,
                    ) by {
                        if g + run == pos + 1 {
                            assert(is_set(orig, pos as int));
                        }
                    }
                }
                current_run = 0;
            }
            pos += 1;
        }
        None
    }

    /// Free `count` chunks starting at `offset`.
    pub fn free_chunks(bitmap: &mut [u8; 32], offset: u8, count: u8)
        requires
            offset + count <= 256,
        ensures
            bits_assigned(old(bitmap)@, final(bitmap)@, offset as int, offset + count, false),
    {
        Self::assign_range(bitmap, offset as usize, count as usize, false);
    }

    /// Returns `true` when no 2 consecutive data chunks are free.
    pub fn is_block_full(bitmap: &[u8; 32]) -> (r: bool)
        ensures
            r == (forall|p: int| 1 <= p < 255 ==> #[trigger] is_set(bitmap@, p) || is_set(bitmap@, p + 1)),
    {
        let mut pos: usize = 1;
        while pos < 255
            invariant
                1 <= pos <= 255,
                forall|p: int| 1 <= p < pos ==> #[trigger] is_set(bitmap@, p) || is_set(bitmap@, p + 1),
            decreases 255 - pos,
        {
            if !Self::test_bit(bitmap, pos) && !Self::test_bit(bitmap, pos + 1) {
                return false;
            }
            pos += 1;
        }
        true
    }

    /// Returns `true` when no data chunk (bits 1..255) is allocated; the
    /// header bit is not looked at.
    pub fn is_block_empty(bitmap: &[u8; 32]) -> (r: bool)
        ensures
            r == (forall|i: int| 1 <= i < 256 ==> !#[trigger] is_set(bitmap@, i)),
    {
        let mut pos: usize = 1;
        while pos < 256
            invariant
                1 <= pos <= 256,
                forall|i: int| 1 <= i < pos ==> !#[trigger] is_set(bitmap@, i),
            decreases 256 - pos,
        {
            if Self::test_bit(bitmap, pos) {
                return false;
            }
            pos += 1;
        }
        true
    }

    /// Count how many bits are set in the data region (bits 1..255).
    pub fn chunk_count(bitmap: &[u8; 32]) -> (r: u8)
        ensures
            r as int == count_set(bitmap@, 1, 256),
    {
        let mut count: u32 = 0;
        let mut pos: usize = 1;
        while pos < 256
            invariant
                1 <= pos <= 256,
                count as int == count_set(bitmap@, 1, pos as int),
                count < pos,
            decreases 256 - pos,
        {
            if Self::test_bit(bitmap, pos) {
                count += 1;
            }
            pos += 1;
        }
        count as u8
    }

    /// The length of whole chunks that hold `data_len` bytes, at most 255
    /// chunks.
    pub fn padded_length(data_len: usize) -> (r: usize)
        ensures
            r == (if chunks_for(data_len as int) < 255 {
                chunks_for(data_len as int)
            } else {
                255
            }) * 64,
    {
        let chunks = Self::chunks_needed(data_len) as usize;
        chunks * 64
    }

    /// Number of chunks required to store `data_len` bytes, at most 255.
    pub fn chunks_needed(data_len: usize) -> (r: u8)
        ensures
            r == if chunks_for(data_len as int) < 255 {
                chunks_for(data_len as int)
            } else {
                255
            },
    {
        let chunks = data_len / 64 + if data_len % 64 == 0 {
            0
        } else {
            1
        };
        assert(chunks == chunks_for(data_len as int));
        if chunks < 255 {
            chunks as u8
        } else {
            255
        }
    }
}

} // verus!
