//! Block-level allocation bitmap of the data file: one bit per 16 KB block
//! (`0`: the block has free chunks, `1`: it is full), and a sorted list of
//! up to 128 blocks with free chunks, from which new records are placed.
//!
//! This is the bitmap's state and its rules; writing the bitmap to its file
//! after each change is the caller's part.
use vstd::prelude::*;
use crate::storage::block_allocator::{byte_has_bit, lemma_bits_of_and_not, lemma_bits_of_or};
use crate::storage::memory_index::first_n;
use crate::storage::ordered::{increasing_u32, lemma_is_sorted_u32, sorted_u32};

verus! {

/// Number of free-block slots kept pre-filled in memory.
pub const FREE_LIST_TARGET: usize = 128;

/// Whether block `idx` is marked full: its bit is inside the bitmap and set.
pub open spec fn bit_set(bm: Seq<u8>, idx: int) -> bool {
    0 <= idx / 8 < bm.len() && byte_has_bit(bm[idx / 8], idx % 8)
}

/// `new` is `old` with the bit of block `idx` set to `value` when the bit is
/// inside the bitmap; every other bit, and the length, stay.
pub open spec fn bit_assigned(old: Seq<u8>, new: Seq<u8>, idx: int, value: bool) -> bool {
    &&& new.len() == old.len()
    &&& forall|j: int| 0 <= j ==> #[trigger] bit_set(new, j) == if j == idx && idx / 8 < old.len() {
        value
    } else {
        bit_set(old, j)
    }
}

/// Whether block `idx` is marked full.
pub fn is_bit_set(bitmap: &[u8], idx: u32) -> (r: bool)
    ensures
        r == bit_set(bitmap@, idx as int),
{
    let byte = (idx / 8) as usize;
    let k = (idx % 8) as u8;
    byte < bitmap.len() && (bitmap[byte] & (1u8 << k)) != 0
}

/// Mark block `idx` full (`value`) or free; a block outside the bitmap is
/// left alone.
pub fn set_bit(bitmap: &mut Vec<u8>, idx: u32, value: bool)
    ensures
        bit_assigned(old(bitmap)@, final(bitmap)@, idx as int, value),
{
    let byte = (idx / 8) as usize;
    let k = (idx % 8) as u8;
    let ghost before = bitmap@;
    if byte < bitmap.len() {
        let b = bitmap[byte];
        if value {
            bitmap.set(byte, b | (1u8 << k));
        } else {
            bitmap.set(byte, b & !(1u8 << k));
        }
    }
    proof {
        assert forall|j: int| 0 <= j implies #[trigger] bit_set(bitmap@, j) == if j == idx && idx / 8
            < before.len() {
            value
        } else {
            bit_set(before, j)
        } by {
            if j / 8 == byte as int && byte < before.len() {
                let jj = (j % 8) as u8;
                assert(jj as int == j % 8);
                if value {
                    lemma_bits_of_or(before[byte as int], k, jj);
                } else {
                    lemma_bits_of_and_not(before[byte as int], k, jj);
                }
                assert((jj == k) == (j == idx as int));
            }
        }
    }
}

/// The first up to `k` blocks in `[i, n)` that are not marked full, in
/// order.
pub open spec fn first_free(bm: Seq<u8>, i: int, n: int, k: nat) -> Seq<u32>
    decreases n - i,
{
    if i >= n || k == 0 {
        Seq::empty()
    } else if !bit_set(bm, i) {
        seq![i as u32] + first_free(bm, i + 1, n, (k - 1) as nat)
    } else {
        first_free(bm, i + 1, n, k)
    }
}

/// The free list after scanning blocks `[pos, end)` for free ones: each
/// block not marked full joins the list until it holds 128; the last block
/// that joined (or `last` when none did) is where the next scan starts.
pub open spec fn scanned(bm: Seq<u8>, free: Set<u32>, pos: int, end: int, last: int) -> (Set<u32>, int)
    decreases end - pos,
{
    if pos >= end || free.len() >= FREE_LIST_TARGET {
        (free, last)
    } else if !bit_set(bm, pos) {
        scanned(bm, free.insert(pos as u32), pos + 1, end, pos)
    } else {
        scanned(bm, free, pos + 1, end, last)
    }
}

/// A scan of blocks `[pos, end)` adds to the free list only blocks of that
/// range whose bitmap bit is clear: a block marked full never joins it.
pub proof fn lemma_scan_adds_only_free_blocks(
    bm: Seq<u8>,
    free: Set<u32>,
    pos: int,
    end: int,
    last: int,
)
    requires
        0 <= pos,
        end <= 0x1_0000_0000,
    ensures
        forall|x: u32|
            #[trigger] scanned(bm, free, pos, end, last).0.contains(x) ==> free.contains(x) || (pos <= x
                < end && !bit_set(bm, x as int)),
    decreases end - pos,
{
    let r = scanned(bm, free, pos, end, last);
    if !(pos >= end || free.len() >= FREE_LIST_TARGET) {
        if !bit_set(bm, pos) {
            let f2 = free.insert(pos as u32);
            lemma_scan_adds_only_free_blocks(bm, f2, pos + 1, end, pos);
            assert(r == scanned(bm, f2, pos + 1, end, pos));
            assert forall|x: u32| #[trigger] r.0.contains(x) implies free.contains(x) || (pos <= x < end
                && !bit_set(bm, x as int)) by {
                assert(f2.contains(x) || (pos + 1 <= x < end && !bit_set(bm, x as int)));
                if x == pos as u32 {
                    assert(x as int == pos);
                }
            }
        } else {
            lemma_scan_adds_only_free_blocks(bm, free, pos + 1, end, last);
            assert(r == scanned(bm, free, pos + 1, end, last));
            assert forall|x: u32| #[trigger] r.0.contains(x) implies free.contains(x) || (pos <= x < end
                && !bit_set(bm, x as int)) by {
                assert(free.contains(x) || (pos + 1 <= x < end && !bit_set(bm, x as int)));
            }
        }
    }
}

/// A scan of blocks `[pos, end)` keeps every block already on the free list,
/// and misses no block of the range whose bitmap bit is clear unless the
/// list reached 128 blocks.
pub proof fn lemma_scan_misses_no_free_block(bm: Seq<u8>, free: Set<u32>, pos: int, end: int, last: int)
    requires
        0 <= pos,
        end <= 0x1_0000_0000,
    ensures
        free.subset_of(scanned(bm, free, pos, end, last).0),
        scanned(bm, free, pos, end, last).0.len() < FREE_LIST_TARGET ==> forall|x: u32|
            pos <= x < end && !bit_set(bm, x as int) ==> #[trigger] scanned(bm, free, pos, end, last).0.contains(
                x,
            ),
    decreases end - pos,
{
    let r = scanned(bm, free, pos, end, last);
    if !(pos >= end || free.len() >= FREE_LIST_TARGET) {
        if !bit_set(bm, pos) {
            let f2 = free.insert(pos as u32);
            lemma_scan_misses_no_free_block(bm, f2, pos + 1, end, pos);
            assert(r == scanned(bm, f2, pos + 1, end, pos));
            assert((pos as u32) as int == pos);
            assert(f2.contains(pos as u32));
        } else {
            lemma_scan_misses_no_free_block(bm, free, pos + 1, end, last);
            assert(r == scanned(bm, free, pos + 1, end, last));
        }
    }
}

/// Insert `x` into the ascending `v` at its place (nothing when it is
/// there already).
fn insert_sorted(v: &mut Vec<u32>, x: u32)
    requires
        increasing_u32(old(v)@),
    ensures
        increasing_u32(final(v)@),
        final(v)@.to_set() == old(v)@.to_set().insert(x),
        final(v)@.len() == old(v)@.len() + if old(v)@.contains(x) {
            0int
        } else {
            1int
        },
{
    let mut p: usize = 0;
    while p < v.len() && v[p] < x
        invariant
            p <= v@.len(),
            forall|j: int| 0 <= j < p ==> v@[j] < x,
        decreases v@.len() - p,
    {
        p += 1;
    }
    if p < v.len() && v[p] == x {
        assert(v@.contains(x));
        assert(v@.to_set().insert(x) =~= v@.to_set());
        return;
    }
    let ghost before = v@;
    proof {
        assert(!before.contains(x)) by {
            if before.contains(x) {
                let j = choose|j: int| 0 <= j < before.len() && before[j] == x;
                if j >= p {
                    assert(before[p as int] <= before[j]);
                }
            }
        }
    }
    v.insert(p, x);
    proof {
        assert forall|i: int, j: int| 0 <= i < j < v@.len() implies v@[i] < v@[j] by {
            if j < p {
                assert(v@[i] == before[i] && v@[j] == before[j]);
            } else if j == p {
                assert(v@[i] == before[i]);
            } else if i < p {
                assert(v@[i] == before[i]);
                assert(v@[j] == before[j - 1]);
                if p < before.len() {
                    assert(before[p as int] > x);
                    assert(before[j - 1] >= before[p as int]);
                }
            } else if i == p {
                assert(v@[j] == before[j - 1]);
                assert(before[p as int] > x);
                assert(before[j - 1] >= before[p as int]);
            } else {
                assert(v@[i] == before[i - 1] && v@[j] == before[j - 1]);
            }
        }
        assert forall|y: u32| v@.to_set().contains(y) <==> before.to_set().insert(x).contains(y) by {
            if v@.contains(y) {
                let j = choose|j: int| 0 <= j < v@.len() && v@[j] == y;
                if j < p {
                    assert(before[j] == y);
                } else if j > p {
                    assert(before[j - 1] == y);
                }
            }
            if before.contains(y) {
                let j = choose|j: int| 0 <= j < before.len() && before[j] == y;
                if j < p {
                    assert(v@[j] == y);
                } else {
                    assert(v@[j + 1] == y);
                }
            }
            if y == x {
                assert(v@[p as int] == x);
            }
        }
        assert(v@.to_set() =~= before.to_set().insert(x));
    }
}

proof fn lemma_increasing_unique(s: Seq<u32>)
    requires
        increasing_u32(s),
    ensures
        s.no_duplicates(),
        s.to_set().len() == s.len(),
        s.to_set().finite(),
{
    assert(s.no_duplicates()) by {
        assert forall|i: int, j: int| 0 <= i < s.len() && 0 <= j < s.len() && i != j implies s[i] != s[j] by {
            if i < j {
                assert(s[i] < s[j]);
            } else {
                assert(s[j] < s[i]);
            }
        }
    }
    s.unique_seq_to_set();
}

/// The allocation bitmap and its free list.
pub struct BlockBitmap {
    bitmap: Vec<u8>,
    free_blocks: Vec<u32>,
    last_scan_pos: usize,
}

impl BlockBitmap {
    /// The bitmap bytes.
    pub closed spec fn bits(&self) -> Seq<u8> {
        self.bitmap@
    }

    /// The free list, ascending.
    pub closed spec fn free(&self) -> Seq<u32> {
        self.free_blocks@
    }

    /// Where the next scan for free blocks starts.
    pub closed spec fn scan_pos(&self) -> int {
        self.last_scan_pos as int
    }

    /// The free list is sorted, without repeats, and holds at most 128
    /// blocks; the bitmap addresses at most 2^32 blocks.
    pub closed spec fn wf(&self) -> bool {
        &&& increasing_u32(self.free_blocks@)
        &&& self.free_blocks@.len() <= FREE_LIST_TARGET
        &&& self.bitmap@.len() <= 0x2000_0000
    }

    /// The state for a bitmap read from (or created for) a data file of
    /// `initial_data_blocks` blocks: the free list holds the first up to 128
    /// of those blocks not marked full.
    pub fn new(bitmap: Vec<u8>, initial_data_blocks: u64) -> (s: Self)
        requires
            bitmap@.len() <= 0x2000_0000,
        ensures
            s.wf(),
            s.bits() == bitmap@,
            s.free() == first_free(bitmap@, 0, (initial_data_blocks as u32) as int, FREE_LIST_TARGET as nat),
            s.scan_pos() == if s.free().len() > 0 {
                s.free().last() as int
            } else {
                0
            },
    {
        #[verifier::truncate]
        let n = initial_data_blocks as u32;
        let mut free_blocks: Vec<u32> = Vec::new();
        let mut i: u32 = 0;
        while i < n
            invariant_except_break
                i <= n,
                free_blocks@.len() < FREE_LIST_TARGET,
                free_blocks@ + first_free(bitmap@, i as int, n as int, (FREE_LIST_TARGET - free_blocks@.len()) as nat)
                    == first_free(bitmap@, 0, n as int, FREE_LIST_TARGET as nat),
                forall|j: int| 0 <= j < free_blocks@.len() ==> free_blocks@[j] < i,
                increasing_u32(free_blocks@),
            ensures
                free_blocks@ == first_free(bitmap@, 0, n as int, FREE_LIST_TARGET as nat),
                increasing_u32(free_blocks@),
                free_blocks@.len() <= FREE_LIST_TARGET,
            decreases n - i,
        {
            let ghost before = free_blocks@;
            if !is_bit_set(bitmap.as_slice(), i) {
                free_blocks.push(i);
                assert(before + first_free(bitmap@, i as int, n as int, (FREE_LIST_TARGET - before.len()) as nat)
                    =~= free_blocks@ + first_free(bitmap@, i + 1, n as int, (FREE_LIST_TARGET - free_blocks@.len()) as nat));
                if free_blocks.len() >= FREE_LIST_TARGET {
                    assert(first_free(bitmap@, i + 1, n as int, 0) =~= Seq::<u32>::empty());
                    assert(free_blocks@ + Seq::<u32>::empty() =~= free_blocks@);
                    break;
                }
            }
            i += 1;
        }
        proof {
            if i == n && free_blocks@.len() < FREE_LIST_TARGET {
                assert(free_blocks@ + first_free(bitmap@, n as int, n as int, (FREE_LIST_TARGET - free_blocks@.len()) as nat)
                    =~= free_blocks@);
            }
        }
        let last_scan_pos: usize = if free_blocks.len() > 0 {
            free_blocks[free_blocks.len() - 1] as usize
        } else {
            0
        };
        BlockBitmap { bitmap, free_blocks, last_scan_pos }
    }

    /// Hand out the first block of the free list, if any.
    pub fn take_free(&mut self) -> (r: Option<u32>)
        requires
            old(self).wf(),
        ensures
            final(self).wf(),
            final(self).bits() == old(self).bits(),
            final(self).scan_pos() == old(self).scan_pos(),
            old(self).free().len() == 0 ==> r is None && final(self).free() == old(self).free(),
            old(self).free().len() > 0 ==> r == Some(old(self).free()[0]) && final(self).free()
                == old(self).free().drop_first(),
    {
        if self.free_blocks.len() == 0 {
            return None;
        }
        let b = self.free_blocks.remove(0);
        assert(self.free_blocks@ =~= old(self).free().drop_first());
        Some(b)
    }

    /// Make room in the bitmap for the blocks `[start, start + 128)` just
    /// added to the data file: zero bytes are appended when the bitmap is too
    /// short. Returns whether it grew (and must be written out).
    pub fn grow_for(&mut self, start: u32) -> (grew: bool)
        requires
            old(self).wf(),
            start + FREE_LIST_TARGET <= u32::MAX,
        ensures
            final(self).wf(),
            final(self).free() == old(self).free(),
            final(self).scan_pos() == old(self).scan_pos(),
            ({
                let needed = (start + FREE_LIST_TARGET + 7) / 8;
                &&& grew == (needed > old(self).bits().len())
                &&& final(self).bits() == if grew {
                    old(self).bits() + Seq::new((needed - old(self).bits().len()) as nat, |i: int| 0u8)
                } else {
                    old(self).bits()
                }
            }),
    {
        let end = (start + FREE_LIST_TARGET as u32) as usize;
        let needed = end / 8 + if end % 8 == 0 { 0 } else { 1 };
        if needed > self.bitmap.len() {
            let old_len = self.bitmap.len();
            self.bitmap.resize(needed, 0u8);
            assert(self.bitmap@ =~= old(self).bits() + Seq::new((needed - old_len) as nat, |i: int| 0u8)) by {
                assert forall|i: int| old_len <= i < needed implies self.bitmap@[i] == 0u8 by {
                    assert(cloned::<u8>(0u8, self.bitmap@[i]));
                }
            }
            true
        } else {
            false
        }
    }

    /// Put the blocks `[start, start + 128)` just added to the data file on
    /// the (empty) free list and hand out the first of them.
    pub fn fill_from(&mut self, start: u32) -> (r: u32)
        requires
            old(self).wf(),
            old(self).free().len() == 0,
            start + FREE_LIST_TARGET <= u32::MAX,
        ensures
            final(self).wf(),
            r == start,
            final(self).bits() == old(self).bits(),
            final(self).free() == Seq::new(127, |i: int| (start + 1 + i) as u32),
            final(self).scan_pos() == start + FREE_LIST_TARGET,
    {
        let count = FREE_LIST_TARGET as u32;
        let mut i = start;
        while i < start + count
            invariant
                start <= i <= start + count,
                count == FREE_LIST_TARGET,
                start + count <= u32::MAX,
                self.free_blocks@ == Seq::new((i - start) as nat, |j: int| (start + j) as u32),
                self.bitmap@ == old(self).bits(),
            decreases start + count - i,
        {
            self.free_blocks.push(i);
            assert(self.free_blocks@ =~= Seq::new((i + 1 - start) as nat, |j: int| (start + j) as u32));
            i += 1;
        }
        self.last_scan_pos = (start + count) as usize;
        let r = self.free_blocks.remove(0);
        assert(self.free_blocks@ =~= Seq::new(127, |i: int| (start + 1 + i) as u32));
        r
    }

    /// Mark block `idx` full and take it off the free list (the bitmap must
    /// then be written out, and a scan refills the list).
    pub fn mark_full_bits(&mut self, idx: u32)
        requires
            old(self).wf(),
        ensures
            final(self).wf(),
            bit_assigned(old(self).bits(), final(self).bits(), idx as int, true),
            final(self).free() == sorted_u32(old(self).free().to_set().remove(idx)),
            final(self).scan_pos() == old(self).scan_pos(),
    {
        set_bit(&mut self.bitmap, idx, true);
        let ghost before = self.free_blocks@;
        let mut kept: Vec<u32> = Vec::new();
        let mut i: usize = 0;
        while i < self.free_blocks.len()
            invariant
                i <= before.len(),
                before == self.free_blocks@,
                increasing_u32(before),
                increasing_u32(kept@),
                kept@.len() <= i,
                kept@.to_set() == before.take(i as int).to_set().remove(idx),
            decreases before.len() - i,
        {
            let b = self.free_blocks[i];
            proof {
                assert(before.take(i + 1) =~= before.take(i as int).push(b));
                before.take(i as int).lemma_push_to_set_commute(b);
            }
            if b != idx {
                let ghost k0 = kept@;
                proof {
                    assert forall|p: int| 0 <= p < k0.len() implies k0[p] < b by {
                        assert(k0.to_set().contains(k0[p]));
                        assert(before.take(i as int).to_set().contains(k0[p]));
                        let m = choose|m: int| 0 <= m < i && before.take(i as int)[m] == k0[p];
                        assert(before[m] < before[i as int]);
                    }
                }
                kept.push(b);
                proof {
                    k0.lemma_push_to_set_commute(b);
                    assert forall|p: int, q: int| 0 <= p < q < kept@.len() implies kept@[p] < kept@[q] by {
                        if q < kept@.len() - 1 {
                            assert(kept@[p] == k0[p] && kept@[q] == k0[q]);
                        } else {
                            assert(kept@[p] == k0[p]);
                        }
                    }
                    assert(kept@.to_set() =~= before.take(i + 1).to_set().remove(idx));
                }
            } else {
                assert(kept@.to_set() =~= before.take(i + 1).to_set().remove(idx));
            }
            i += 1;
        }
        proof {
            assert(before.take(before.len() as int) =~= before);
            lemma_is_sorted_u32(kept@, before.to_set().remove(idx));
        }
        self.free_blocks = kept;
    }

    /// Mark block `idx` free again. Returns `false`, changing nothing, when
    /// it is not marked full; otherwise the block joins the free list at its
    /// place (the list then keeps its first 128) and the bitmap must be
    /// written out.
    pub fn mark_free_bits(&mut self, idx: u32) -> (changed: bool)
        requires
            old(self).wf(),
        ensures
            final(self).wf(),
            final(self).scan_pos() == old(self).scan_pos(),
            changed == bit_set(old(self).bits(), idx as int),
            !changed ==> final(self).bits() == old(self).bits() && final(self).free() == old(self).free(),
            changed ==> bit_assigned(old(self).bits(), final(self).bits(), idx as int, false),
            changed ==> final(self).free() == first_n(
                sorted_u32(old(self).free().to_set().insert(idx)),
                FREE_LIST_TARGET as int,
            ),
    {
        if !is_bit_set(self.bitmap.as_slice(), idx) {
            return false;
        }
        set_bit(&mut self.bitmap, idx, false);
        let mut list: Vec<u32> = Vec::new();
        std::mem::swap(&mut list, &mut self.free_blocks);
        insert_sorted(&mut list, idx);
        proof {
            lemma_is_sorted_u32(list@, old(self).free().to_set().insert(idx));
        }
        let ghost full = list@;
        if list.len() > FREE_LIST_TARGET {
            list.pop();
            assert(list@ =~= full.take(FREE_LIST_TARGET as int));
        }
        self.free_blocks = list;
        true
    }

    /// Refill the free list by scanning the bitmap from where the last scan
    /// stopped: each block not marked full joins the list at its place,
    /// until it holds 128 blocks.
    pub fn scan_for_free_blocks(&mut self)
        requires
            old(self).wf(),
        ensures
            final(self).wf(),
            final(self).bits() == old(self).bits(),
            ({
                let (s, last) = scanned(
                    old(self).bits(),
                    old(self).free().to_set(),
                    old(self).scan_pos(),
                    (old(self).bits().len() * 8) as int,
                    old(self).scan_pos(),
                );
                final(self).free() == sorted_u32(s) && final(self).free().to_set() == s
                    && final(self).scan_pos() == last
            }),
            forall|x: u32|
                #[trigger] final(self).free().contains(x) && !old(self).free().contains(x) ==> old(
                    self,
                ).scan_pos() <= x && !bit_set(final(self).bits(), x as int),
            forall|x: u32| #[trigger] old(self).free().contains(x) ==> final(self).free().contains(x),
            final(self).free().len() < FREE_LIST_TARGET ==> forall|x: u32|
                old(self).scan_pos() <= x < final(self).bits().len() * 8 && !bit_set(final(self).bits(), x as int)
                    ==> #[trigger] final(self).free().contains(x),
    {
        let total: u64 = (self.bitmap.len() as u64) * 8;
        let mut block_idx: u64 = self.last_scan_pos as u64;
        let ghost s0 = self.free_blocks@.to_set();
        let ghost p0 = self.last_scan_pos as int;
        proof {
            lemma_increasing_unique(self.free_blocks@);
        }
        while block_idx < total
            invariant_except_break
                self.wf(),
                self.bitmap@ == old(self).bits(),
                total == self.bitmap@.len() * 8,
                p0 <= block_idx,
                scanned(self.bitmap@, self.free_blocks@.to_set(), block_idx as int, total as int, self.last_scan_pos as int)
                    == scanned(self.bitmap@, s0, p0, total as int, p0),
            ensures
                self.wf(),
                self.bitmap@ == old(self).bits(),
                (self.free_blocks@.to_set(), self.last_scan_pos as int) == scanned(self.bitmap@, s0, p0, total as int, p0),
            decreases total - block_idx,
        {
            proof {
                lemma_increasing_unique(self.free_blocks@);
            }
            if self.free_blocks.len() >= FREE_LIST_TARGET {
                break;
            }
            let b = block_idx as u32;
            if !is_bit_set(self.bitmap.as_slice(), b) {
                let mut list: Vec<u32> = Vec::new();
                std::mem::swap(&mut list, &mut self.free_blocks);
                insert_sorted(&mut list, b);
                self.free_blocks = list;
                self.last_scan_pos = block_idx as usize;
            }
            block_idx += 1;
        }
        proof {
            lemma_is_sorted_u32(self.free_blocks@, self.free_blocks@.to_set());
            lemma_scan_adds_only_free_blocks(self.bitmap@, s0, p0, total as int, p0);
            assert forall|x: u32|
                #[trigger] self.free_blocks@.contains(x) && !old(self).free().contains(x) implies p0 <= x
                && !bit_set(self.bitmap@, x as int) by {
                assert(self.free_blocks@.to_set().contains(x));
                assert(scanned(self.bitmap@, s0, p0, total as int, p0).0.contains(x));
                assert(!s0.contains(x));
            }
            lemma_scan_misses_no_free_block(self.bitmap@, s0, p0, total as int, p0);
            lemma_increasing_unique(self.free_blocks@);
            assert forall|x: u32| #[trigger] old(self).free().contains(x) implies self.free_blocks@.contains(x) by {
                assert(s0.contains(x));
                assert(self.free_blocks@.to_set().contains(x));
            }
            if self.free_blocks@.len() < FREE_LIST_TARGET {
                assert forall|x: u32|
                    p0 <= x < self.bitmap@.len() * 8 && !bit_set(self.bitmap@, x as int) implies #[trigger] self.free_blocks@.contains(
                    x,
                ) by {
                    assert(scanned(self.bitmap@, s0, p0, total as int, p0).0.contains(x));
                    assert(self.free_blocks@.to_set().contains(x));
                }
            }
        }
    }

    /// Number of blocks on the free list.
    pub fn free_block_count(&self) -> (r: usize)
        ensures
            r == self.free().len(),
    {
        self.free_blocks.len()
    }

    /// The free list, ascending.
    pub fn free_list(&self) -> (r: &[u32])
        ensures
            r@ == self.free(),
    {
        self.free_blocks.as_slice()
    }

    /// The bitmap bytes, to be written to the file.
    pub fn bytes(&self) -> (r: &[u8])
        ensures
            r@ == self.bits(),
    {
        self.bitmap.as_slice()
    }
}

} // verus!
