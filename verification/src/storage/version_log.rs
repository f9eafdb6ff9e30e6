//! The version log (`.vlog`) file format: archived vertex versions, with a
//! sparse index.
//!
//! Version 2 layout:
//!
//! ```text
//! HEADER:  magic "BGVL" (4) | version (u32) | count (u32) | interval (u32) | index_count (u32)
//! INDEX:   index_count × [entry_idx (u32) | file_offset (u64) | first_vertex_id (u64)]
//! ENTRIES: [vertex_id (u64) | version (u64) | payload_len (u32) | payload]
//! ```
//!
//! All integers are little-endian. Version 1 files have no index: the
//! count follows the version and the entries follow the count. A payload is
//! an archived version record, kept here as its encoded bytes.
use vstd::bytes::*;
use vstd::prelude::*;
use crate::storage::codec::{push_slice, push_u32, push_u64};
use crate::storage::redo_log::copy_range;

verus! {

/// Magic bytes of a version log file: "BGVL".
pub const VLOG_MAGIC: [u8; 4] = [0x42, 0x47, 0x56, 0x4C];

pub const VLOG_VERSION: u32 = 2;

/// An index entry is recorded every this many data entries.
pub const DEFAULT_INDEX_INTERVAL: u32 = 64;

/// A single entry of a version log: a vertex version and its encoded
/// record.
#[derive(Debug, Clone)]
pub struct VlogEntry {
    pub vertex_id: u64,
    pub version: u64,
    pub record: Vec<u8>,
}

/// An entry by its contents: (vertex_id, version, record bytes).
pub type VlogEntryView = (u64, u64, Seq<u8>);

impl View for VlogEntry {
    type V = VlogEntryView;

    open spec fn view(&self) -> VlogEntryView {
        (self.vertex_id, self.version, self.record@)
    }
}

/// A sparse index entry pointing to a location in the vlog file.
#[derive(Debug, Clone, Copy, PartialEq, Eq, Structural)]
pub struct VlogIndexEntry {
    /// 0-based entry index in the data section.
    pub entry_idx: u32,
    /// Byte offset from the start of the file to this entry.
    pub file_offset: u64,
    /// The vertex_id of the first entry at this location.
    pub first_vertex_id: u64,
}

/// Statistics from a version log write.
#[derive(Debug, Clone, Copy, PartialEq, Eq, Structural)]
pub struct VlogStats {
    pub entries_written: usize,
    pub file_size_bytes: u64,
    pub files_created: usize,
    pub index_entries: usize,
}

impl Default for VlogStats {
    fn default() -> (s: Self)
        ensures
            s == (VlogStats { entries_written: 0, file_size_bytes: 0, files_created: 0, index_entries: 0 }),
    {
        VlogStats { entries_written: 0, file_size_bytes: 0, files_created: 0, index_entries: 0 }
    }
}

/// Why a version log file cannot be read.
#[derive(Debug, Clone, Copy, PartialEq, Eq, Structural)]
pub enum VlogError {
    /// Fewer than the 20 bytes of a version 2 header.
    TooSmall,
    /// The file does not start with "BGVL".
    BadMagic,
    /// A version other than 1 or 2.
    UnsupportedVersion(u32),
    /// A version 1 file without its count.
    V1TooSmall,
    /// A version 2 entry whose payload runs past the end of the file.
    TruncatedPayload,
    /// The byte range of a sparse index entry runs past the end of the file.
    RangePastEnd,
}

pub open spec fn u32_at(b: Seq<u8>, at: int) -> u32 {
    spec_u32_from_le_bytes(b.subrange(at, at + 4))
}

pub open spec fn u64_at(b: Seq<u8>, at: int) -> u64 {
    spec_u64_from_le_bytes(b.subrange(at, at + 8))
}

/// The data entries of a version 2 file starting at `b`: `None` when one
/// runs past the end; fewer than 20 bytes left end the section.
pub open spec fn entries_v2(b: Seq<u8>) -> Option<Seq<VlogEntryView>>
    decreases b.len(),
{
    if b.len() < 20 {
        Some(Seq::empty())
    } else {
        let plen = u32_at(b, 16) as int;
        if 20 + plen > b.len() {
            None
        } else {
            match entries_v2(b.skip(20 + plen)) {
                None => None,
                Some(rest) => Some(seq![(u64_at(b, 0), u64_at(b, 8), b.subrange(20, 20 + plen))] + rest),
            }
        }
    }
}

/// The data entries of a version 1 file starting at `b`; an entry that runs
/// past the end ends the section.
pub open spec fn entries_v1(b: Seq<u8>) -> Seq<VlogEntryView>
    decreases b.len(),
{
    if b.len() < 20 {
        Seq::empty()
    } else {
        let plen = u32_at(b, 16) as int;
        if 20 + plen > b.len() {
            Seq::empty()
        } else {
            seq![(u64_at(b, 0), u64_at(b, 8), b.subrange(20, 20 + plen))] + entries_v1(b.skip(20 + plen))
        }
    }
}

/// Up to `n` index entries at the start of `b`, as many as whole 20-byte
/// records fit.
pub open spec fn index_entries(b: Seq<u8>, n: nat) -> Seq<VlogIndexEntry>
    decreases n,
{
    if n == 0 || b.len() < 20 {
        Seq::empty()
    } else {
        seq![VlogIndexEntry { entry_idx: u32_at(b, 0), file_offset: u64_at(b, 4), first_vertex_id: u64_at(b, 12) }]
            + index_entries(b.skip(20), (n - 1) as nat)
    }
}

/// What reading a version log file gives: its entries and its sparse
/// index, or why it cannot be read.
pub open spec fn parsed_vlog(data: Seq<u8>) -> Result<(Seq<VlogEntryView>, Seq<VlogIndexEntry>), VlogError> {
    if data.len() < 20 {
        Err(VlogError::TooSmall)
    } else if data.subrange(0, 4) != VLOG_MAGIC@ {
        Err(VlogError::BadMagic)
    } else {
        let version = u32_at(data, 4);
        if version == 1 {
            Ok((entries_v1(data.skip(12)), Seq::empty()))
        } else if version != 2 {
            Err(VlogError::UnsupportedVersion(version))
        } else {
            let index = index_entries(data.skip(20), u32_at(data, 16) as nat);
            match entries_v2(data.skip(20 + 20 * (index.len() as int))) {
                None => Err(VlogError::TruncatedPayload),
                Some(es) => Ok((es, index)),
            }
        }
    }
}

fn read_u32(b: &[u8], at: usize) -> (x: u32)
    requires
        at + 4 <= b.len(),
    ensures
        x == u32_at(b@, at as int),
{
    u32_from_le_bytes(&b[at..at + 4])
}

fn read_u64(b: &[u8], at: usize) -> (x: u64)
    requires
        at + 8 <= b.len(),
    ensures
        x == u64_at(b@, at as int),
{
    u64_from_le_bytes(&b[at..at + 8])
}

proof fn lemma_at_skip(b: Seq<u8>, off: int, k: int)
    requires
        0 <= off,
        0 <= k,
        off + k + 8 <= b.len(),
    ensures
        u32_at(b.skip(off), k) == u32_at(b, off + k),
        u64_at(b.skip(off), k) == u64_at(b, off + k),
{
    assert(b.skip(off).subrange(k, k + 4) =~= b.subrange(off + k, off + k + 4));
    assert(b.skip(off).subrange(k, k + 8) =~= b.subrange(off + k, off + k + 8));
}

proof fn lemma_u32_at_skip(b: Seq<u8>, off: int, k: int)
    requires
        0 <= off,
        0 <= k,
        off + k + 4 <= b.len(),
    ensures
        u32_at(b.skip(off), k) == u32_at(b, off + k),
{
    assert(b.skip(off).subrange(k, k + 4) =~= b.subrange(off + k, off + k + 4));
}

/// The data entries of a version 2 file from byte `off` of `data`.
fn read_entries_v2(data: &[u8], off: usize) -> (r: Option<Vec<VlogEntry>>)
    requires
        off <= data@.len(),
    ensures
        match (r, entries_v2(data@.skip(off as int))) {
            (Some(v), Some(es)) => v@.map_values(|e: VlogEntry| e@) == es,
            (None, None) => true,
            _ => false,
        },
{
    let mut entries: Vec<VlogEntry> = Vec::new();
    let mut pos = off;
    let ghost all = entries_v2(data@.skip(pos as int));
    while pos <= data.len() && data.len() - pos >= 20
        invariant
            pos <= data@.len(),
            all == entries_v2(data@.skip(off as int)),
            data@.len() == data.len(),
            all == match entries_v2(data@.skip(pos as int)) {
                None => None,
                Some(rest) => Some(entries@.map_values(|e: VlogEntry| e@) + rest),
            },
        decreases data@.len() - pos,
    {
        let ghost b = data@.skip(pos as int);
        let ghost ev = entries@.map_values(|e: VlogEntry| e@);
        proof {
            lemma_at_skip(data@, pos as int, 0);
            lemma_at_skip(data@, pos as int, 8);
            lemma_u32_at_skip(data@, pos as int, 16);
        }
        let vertex_id = read_u64(data, pos);
        let version = read_u64(data, pos + 8);
        let plen = read_u32(data, pos + 16) as usize;
        if data.len() - pos - 20 < plen {
            return None;
        }
        let record = copy_range(data, pos + 20, plen);
        assert(record@ =~= b.subrange(20, 20 + plen));
        assert(b.skip(20 + plen) =~= data@.skip(pos + 20 + plen));
        entries.push(VlogEntry { vertex_id, version, record });
        proof {
            assert(entries@.map_values(|e: VlogEntry| e@) =~= ev.push((vertex_id, version, record@)));
            match entries_v2(data@.skip(pos + 20 + plen)) {
                None => {},
                Some(rest) => {
                    assert(ev + (seq![(vertex_id, version, record@)] + rest) =~= ev.push(
                        (vertex_id, version, record@),
                    ) + rest);
                },
            }
        }
        pos = pos + 20 + plen;
    }
    proof {
        assert(entries_v2(data@.skip(pos as int)) == Some(Seq::<VlogEntryView>::empty()));
        assert(entries@.map_values(|e: VlogEntry| e@) + Seq::<VlogEntryView>::empty() =~= entries@.map_values(
            |e: VlogEntry| e@,
        ));
    }
    Some(entries)
}

/// The data entries of a version 1 file from byte `off` of `data`.
fn read_entries_v1(data: &[u8], off: usize) -> (r: Vec<VlogEntry>)
    requires
        off <= data@.len(),
    ensures
        r@.map_values(|e: VlogEntry| e@) == entries_v1(data@.skip(off as int)),
{
    let mut entries: Vec<VlogEntry> = Vec::new();
    let mut pos = off;
    let ghost all = entries_v1(data@.skip(pos as int));
    while pos <= data.len() && data.len() - pos >= 20
        invariant
            pos <= data@.len(),
            all == entries_v1(data@.skip(off as int)),
            data@.len() == data.len(),
            all == entries@.map_values(|e: VlogEntry| e@) + entries_v1(data@.skip(pos as int)),
        decreases data@.len() - pos,
    {
        let ghost b = data@.skip(pos as int);
        let ghost ev = entries@.map_values(|e: VlogEntry| e@);
        proof {
            lemma_at_skip(data@, pos as int, 0);
            lemma_at_skip(data@, pos as int, 8);
            lemma_u32_at_skip(data@, pos as int, 16);
        }
        let vertex_id = read_u64(data, pos);
        let version = read_u64(data, pos + 8);
        let plen = read_u32(data, pos + 16) as usize;
        if data.len() - pos - 20 < plen {
            assert(ev + entries_v1(b) =~= ev);
            return entries;
        }
        let record = copy_range(data, pos + 20, plen);
        assert(record@ =~= b.subrange(20, 20 + plen));
        assert(b.skip(20 + plen) =~= data@.skip(pos + 20 + plen));
        entries.push(VlogEntry { vertex_id, version, record });
        assert(entries@.map_values(|e: VlogEntry| e@) =~= ev.push((vertex_id, version, record@)));
        assert(ev + entries_v1(b) =~= ev.push((vertex_id, version, record@)) + entries_v1(
            data@.skip(pos + 20 + plen),
        ));
        pos = pos + 20 + plen;
    }
    assert(entries@.map_values(|e: VlogEntry| e@) + entries_v1(data@.skip(pos as int)) =~= entries@.map_values(
        |e: VlogEntry| e@,
    ));
    entries
}

/// Read the entries and sparse index of a version log file.
pub fn read_vlog_with_index(data: &[u8]) -> (r: Result<(Vec<VlogEntry>, Vec<VlogIndexEntry>), VlogError>)
    ensures
        match (r, parsed_vlog(data@)) {
            (Ok((es, idx)), Ok((ses, sidx))) => es@.map_values(|e: VlogEntry| e@) == ses && idx@ == sidx,
            (Err(e), Err(se)) => e == se,
            _ => false,
        },
{
    if data.len() < 20 {
        return Err(VlogError::TooSmall);
    }
    if data[0] != 0x42 || data[1] != 0x47 || data[2] != 0x56 || data[3] != 0x4C {
        proof {
            if data@.subrange(0, 4) == VLOG_MAGIC@ {
                assert(data@.subrange(0, 4)[0] == VLOG_MAGIC@[0]);
                assert(data@.subrange(0, 4)[1] == VLOG_MAGIC@[1]);
                assert(data@.subrange(0, 4)[2] == VLOG_MAGIC@[2]);
                assert(data@.subrange(0, 4)[3] == VLOG_MAGIC@[3]);
            }
        }
        return Err(VlogError::BadMagic);
    }
    assert(data@.subrange(0, 4) =~= VLOG_MAGIC@);
    let version = read_u32(data, 4);
    if version == 1 {
        let es = read_entries_v1(data, 12);
        return Ok((es, Vec::new()));
    }
    if version != 2 {
        return Err(VlogError::UnsupportedVersion(version));
    }
    let index_count = read_u32(data, 16);
    let mut index: Vec<VlogIndexEntry> = Vec::new();
    let mut off: usize = 20;
    let mut k: u32 = 0;
    let ghost want = index_entries(data@.skip(20), index_count as nat);
    assert(data@.skip(20).skip(0) =~= data@.skip(20));
    while k < index_count
        invariant_except_break
            k <= index_count,
            off == 20 + 20 * index@.len(),
            index@.len() == k,
            off <= data@.len(),
            data@.len() == data.len(),
            want == index@ + index_entries(data@.skip(off as int), (index_count - k) as nat),
        ensures
            off == 20 + 20 * index@.len(),
            off <= data@.len(),
            want == index@,
        decreases index_count - k,
    {
        if data.len() - off < 20 {
            assert(index_entries(data@.skip(off as int), (index_count - k) as nat) =~= Seq::<VlogIndexEntry>::empty());
            assert(want =~= index@);
            break;
        }
        let ghost b = data@.skip(off as int);
        proof {
            lemma_u32_at_skip(data@, off as int, 0);
            lemma_at_skip(data@, off as int, 4);
            lemma_at_skip(data@, off as int, 12);
        }
        let entry_idx = read_u32(data, off);
        let file_offset = read_u64(data, off + 4);
        let first_vertex_id = read_u64(data, off + 12);
        let ghost before = index@;
        index.push(VlogIndexEntry { entry_idx, file_offset, first_vertex_id });
        assert(b.skip(20) =~= data@.skip(off + 20));
        assert(want =~= index@ + index_entries(data@.skip(off + 20), (index_count - k - 1) as nat));
        off = off + 20;
        k = k + 1;
    }
    proof {
        if k == index_count {
            assert(index_entries(data@.skip(off as int), 0) =~= Seq::<VlogIndexEntry>::empty());
        }
    }
    match read_entries_v2(data, off) {
        None => Err(VlogError::TruncatedPayload),
        Some(es) => Ok((es, index)),
    }
}

/// Read all entries of a version log file.
pub fn read_vlog(data: &[u8]) -> (r: Result<Vec<VlogEntry>, VlogError>)
    ensures
        match (r, parsed_vlog(data@)) {
            (Ok(es), Ok((ses, _))) => es@.map_values(|e: VlogEntry| e@) == ses,
            (Err(e), Err(se)) => e == se,
            _ => false,
        },
{
    match read_vlog_with_index(data) {
        Ok((es, _)) => Ok(es),
        Err(e) => Err(e),
    }
}


// ── Write ────────────────────────────────────────────────────────────────────

/// The bytes of one data entry.
pub open spec fn entry_bytes(e: VlogEntryView) -> Seq<u8> {
    spec_u64_to_le_bytes(e.0) + spec_u64_to_le_bytes(e.1) + spec_u32_to_le_bytes(e.2.len() as u32) + e.2
}

/// The bytes of the data section holding `es`.
pub open spec fn entry_section(es: Seq<VlogEntryView>) -> Seq<u8>
    decreases es.len(),
{
    if es.len() == 0 {
        Seq::empty()
    } else {
        entry_bytes(es[0]) + entry_section(es.drop_first())
    }
}

/// The bytes of one index entry.
pub open spec fn index_entry_bytes(e: VlogIndexEntry) -> Seq<u8> {
    spec_u32_to_le_bytes(e.entry_idx) + spec_u64_to_le_bytes(e.file_offset) + spec_u64_to_le_bytes(
        e.first_vertex_id,
    )
}

/// The bytes of the index section holding `idx`.
pub open spec fn index_section(idx: Seq<VlogIndexEntry>) -> Seq<u8>
    decreases idx.len(),
{
    if idx.len() == 0 {
        Seq::empty()
    } else {
        index_entry_bytes(idx[0]) + index_section(idx.drop_first())
    }
}

/// The bytes of a version 2 file holding `es` with sparse index `idx`.
pub open spec fn vlog_file(es: Seq<VlogEntryView>, idx: Seq<VlogIndexEntry>) -> Seq<u8> {
    VLOG_MAGIC@ + spec_u32_to_le_bytes(VLOG_VERSION) + spec_u32_to_le_bytes(es.len() as u32)
        + spec_u32_to_le_bytes(DEFAULT_INDEX_INTERVAL) + spec_u32_to_le_bytes(idx.len() as u32)
        + index_section(idx) + entry_section(es)
}

/// `x + n`, wrapping at the top of `u64`.
pub open spec fn wrap_add(x: u64, n: u64) -> u64 {
    if x + n > u64::MAX {
        (x + n - 0x1_0000_0000_0000_0000) as u64
    } else {
        (x + n) as u64
    }
}

/// The estimated file offset of entry `s`: `base`, advanced by the
/// estimated size (20 + `est[j]`) of each entry before it.
pub open spec fn est_offset(est: Seq<usize>, base: u64, s: int) -> u64
    decreases s,
{
    if s <= 0 {
        base
    } else {
        wrap_add(est_offset(est, base, s - 1), (20 + est[s - 1]) as u64)
    }
}

/// The number of index entries for `n` data entries: one every 64.
pub open spec fn index_count(n: int) -> int {
    (n + 63) / 64
}

/// The sparse index of a file holding `es`, whose records have estimated
/// encoded sizes `est`: entry `64 m` is indexed, at its estimated offset.
pub open spec fn sparse_index(es: Seq<VlogEntryView>, est: Seq<usize>) -> Seq<VlogIndexEntry> {
    let k = index_count(es.len() as int);
    let base = (20 + 20 * k) as u64;
    Seq::new(
        k as nat,
        |m: int|
            VlogIndexEntry {
                entry_idx: (64 * m) as u32,
                file_offset: est_offset(est, base, 64 * m),
                first_vertex_id: es[64 * m].0,
            },
    )
}

/// Encode the entries of a new version log file; `est_sizes[i]` is the
/// estimated encoded size of the record of `entries[i]`, which places the
/// sparse index entries. Returns the file's bytes and its sparse index.
pub fn encode_vlog(entries: &[VlogEntry], est_sizes: &[usize]) -> (r: (Vec<u8>, Vec<VlogIndexEntry>))
    requires
        est_sizes@.len() == entries@.len(),
        forall|i: int| 0 <= i < est_sizes@.len() ==> est_sizes@[i] + 20 <= usize::MAX,
    ensures
        r.1@ == sparse_index(entries@.map_values(|e: VlogEntry| e@), est_sizes@),
        r.0@ == vlog_file(entries@.map_values(|e: VlogEntry| e@), r.1@),
{
    let ghost es = entries@.map_values(|e: VlogEntry| e@);
    let n = entries.len();
    let k: usize = n / 64 + if n % 64 == 0 { 0 } else { 1 };
    assert(k == index_count(n as int));
    let base: u64 = 20 + 20 * (k as u64);
    // Sparse index, with estimated offsets.
    let mut index: Vec<VlogIndexEntry> = Vec::new();
    let mut running: u64 = base;
    let mut i: usize = 0;
    while i < n
        invariant
            i <= n,
            n == entries@.len(),
            n == est_sizes@.len(),
            k == index_count(n as int),
            base == (20 + 20 * k) as u64,
            es == entries@.map_values(|e: VlogEntry| e@),
            forall|j: int| 0 <= j < est_sizes@.len() ==> est_sizes@[j] + 20 <= usize::MAX,
            running == est_offset(est_sizes@, base, i as int),
            index@.len() == index_count(i as int),
            forall|m: int|
                0 <= m < index@.len() ==> #[trigger] index@[m] == sparse_index(es, est_sizes@)[m],
        decreases n - i,
    {
        if i % 64 == 0 {
            proof {
                assert(index_count(i + 1) == index_count(i as int) + 1);
                assert(64 * index@.len() == i);
            }
            index.push(VlogIndexEntry { entry_idx: i as u32, file_offset: running, first_vertex_id: entries[i].vertex_id });
        } else {
            assert(index_count(i + 1) == index_count(i as int));
        }
        let size = (20 + est_sizes[i]) as u64;
        running = running.wrapping_add(size);
        i += 1;
    }
    assert(index@ =~= sparse_index(es, est_sizes@));
    // Header, index and entries.
    let mut buf: Vec<u8> = Vec::new();
    push_slice(&mut buf, VLOG_MAGIC.as_slice());
    push_u32(&mut buf, VLOG_VERSION);
    #[verifier::truncate]
    let count32 = n as u32;
    push_u32(&mut buf, count32);
    push_u32(&mut buf, DEFAULT_INDEX_INTERVAL);
    #[verifier::truncate]
    let index32 = index.len() as u32;
    push_u32(&mut buf, index32);
    let ghost head = buf@;
    let mut m: usize = 0;
    assert(index@.skip(0) =~= index@);
    while m < index.len()
        invariant
            m <= index@.len(),
            buf@ + index_section(index@.skip(m as int)) == head + index_section(index@),
        decreases index@.len() - m,
    {
        let e = index[m];
        let ghost before = buf@;
        push_u32(&mut buf, e.entry_idx);
        push_u64(&mut buf, e.file_offset);
        push_u64(&mut buf, e.first_vertex_id);
        proof {
            assert(index@.skip(m as int).drop_first() =~= index@.skip(m + 1));
            assert(index@.skip(m as int)[0] == e);
            assert(buf@ =~= before + index_entry_bytes(e));
            assert(before + index_section(index@.skip(m as int)) =~= buf@ + index_section(index@.skip(m + 1)));
        }
        m += 1;
    }
    assert(buf@ + index_section(index@.skip(m as int)) =~= buf@);
    let ghost mid = buf@;
    let mut j: usize = 0;
    assert(es.skip(0) =~= es);
    while j < n
        invariant
            j <= n,
            n == entries@.len(),
            es == entries@.map_values(|e: VlogEntry| e@),
            buf@ + entry_section(es.skip(j as int)) == mid + entry_section(es),
        decreases n - j,
    {
        let e = &entries[j];
        let ghost before = buf@;
        push_u64(&mut buf, e.vertex_id);
        push_u64(&mut buf, e.version);
        #[verifier::truncate]
        let len32 = e.record.len() as u32;
        push_u32(&mut buf, len32);
        push_slice(&mut buf, e.record.as_slice());
        proof {
            assert(es.skip(j as int).drop_first() =~= es.skip(j + 1));
            assert(es.skip(j as int)[0] == e@);
            assert(buf@ =~= before + entry_bytes(e@));
            assert(before + entry_section(es.skip(j as int)) =~= buf@ + entry_section(es.skip(j + 1)));
        }
        j += 1;
    }
    assert(buf@ + entry_section(es.skip(j as int)) =~= buf@);
    proof {
        assert(index@.skip(0) =~= index@);
        assert(es.skip(0) =~= es);
        assert(buf@ =~= vlog_file(es, index@));
    }
    (buf, index)
}


proof fn lemma_index_section_len(idx: Seq<VlogIndexEntry>)
    ensures
        index_section(idx).len() == 20 * idx.len(),
    decreases idx.len(),
{
    if idx.len() > 0 {
        lemma_auto_spec_u32_to_from_le_bytes();
        lemma_auto_spec_u64_to_from_le_bytes();
        lemma_index_section_len(idx.drop_first());
        assert(index_entry_bytes(idx[0]).len() == 20);
    }
}

proof fn lemma_read_index(idx: Seq<VlogIndexEntry>, rest: Seq<u8>)
    ensures
        index_entries(index_section(idx) + rest, idx.len()) == idx,
    decreases idx.len(),
{
    if idx.len() > 0 {
        lemma_auto_spec_u32_to_from_le_bytes();
        lemma_auto_spec_u64_to_from_le_bytes();
        let e = idx[0];
        let b = index_section(idx) + rest;
        let tail = index_section(idx.drop_first()) + rest;
        assert(b =~= index_entry_bytes(e) + tail);
        assert(b.subrange(0, 4) =~= spec_u32_to_le_bytes(e.entry_idx));
        assert(b.subrange(4, 12) =~= spec_u64_to_le_bytes(e.file_offset));
        assert(b.subrange(12, 20) =~= spec_u64_to_le_bytes(e.first_vertex_id));
        assert(b.skip(20) =~= tail);
        lemma_read_index(idx.drop_first(), rest);
        assert(idx =~= seq![e] + idx.drop_first());
    }
}

#[verifier::spinoff_prover]
#[verifier::rlimit(40)]
proof fn lemma_read_entries(es: Seq<VlogEntryView>)
    requires
        forall|i: int| 0 <= i < es.len() ==> (#[trigger] es[i]).2.len() < 0x1_0000_0000,
    ensures
        entries_v2(entry_section(es)) == Some(es),
    decreases es.len(),
{
    if es.len() > 0 {
        lemma_auto_spec_u32_to_from_le_bytes();
        lemma_auto_spec_u64_to_from_le_bytes();
        let e = es[0];
        let rest = es.drop_first();
        assert forall|i: int| 0 <= i < rest.len() implies (#[trigger] rest[i]).2.len() < 0x1_0000_0000 by {
            assert(rest[i] == es[i + 1]);
        }
        let b = entry_section(es);
        let n = e.2.len() as int;
        assert((e.2.len() as u32) == n);
        assert(b =~= entry_bytes(e) + entry_section(rest));
        assert(b.subrange(0, 8) =~= spec_u64_to_le_bytes(e.0));
        assert(b.subrange(8, 16) =~= spec_u64_to_le_bytes(e.1));
        assert(b.subrange(16, 20) =~= spec_u32_to_le_bytes(e.2.len() as u32));
        assert(b.subrange(20, 20 + n) =~= e.2);
        assert(b.skip(20 + n) =~= entry_section(rest));
        lemma_read_entries(rest);
        assert(es =~= seq![(e.0, e.1, e.2)] + rest);
    }
}

/// Reading a version 2 file gives back the entries and sparse index it was
/// written with.
pub proof fn lemma_vlog_roundtrip(es: Seq<VlogEntryView>, idx: Seq<VlogIndexEntry>)
    requires
        es.len() < 0x1_0000_0000,
        idx.len() < 0x1_0000_0000,
        forall|i: int| 0 <= i < es.len() ==> (#[trigger] es[i]).2.len() < 0x1_0000_0000,
    ensures
        parsed_vlog(vlog_file(es, idx)) == Ok::<(Seq<VlogEntryView>, Seq<VlogIndexEntry>), VlogError>((es, idx)),
{
    lemma_auto_spec_u32_to_from_le_bytes();
    let d = vlog_file(es, idx);
    let body = index_section(idx) + entry_section(es);
    assert(d =~= VLOG_MAGIC@ + spec_u32_to_le_bytes(VLOG_VERSION) + spec_u32_to_le_bytes(es.len() as u32)
        + spec_u32_to_le_bytes(DEFAULT_INDEX_INTERVAL) + spec_u32_to_le_bytes(idx.len() as u32) + body);
    assert(d.subrange(0, 4) =~= VLOG_MAGIC@);
    assert(d.subrange(4, 8) =~= spec_u32_to_le_bytes(VLOG_VERSION));
    assert(d.subrange(16, 20) =~= spec_u32_to_le_bytes(idx.len() as u32));
    assert((idx.len() as u32) == idx.len());
    assert(d.skip(20) =~= body);
    lemma_read_index(idx, entry_section(es));
    lemma_index_section_len(idx);
    assert(d.skip(20 + 20 * (idx.len() as int)) =~= entry_section(es));
    lemma_read_entries(es);
}


// ── Sparse index lookup ──────────────────────────────────────────────────────

/// The index is sorted by first vertex ID.
pub open spec fn index_sorted(idx: Seq<VlogIndexEntry>) -> bool {
    forall|i: int, j: int| 0 <= i <= j < idx.len() ==> idx[i].first_vertex_id <= idx[j].first_vertex_id
}

/// The number of leading index entries whose first vertex comes before
/// `target`.
pub open spec fn lower_bound(idx: Seq<VlogIndexEntry>, target: u64) -> int
    decreases idx.len(),
{
    if idx.len() == 0 || idx[0].first_vertex_id >= target {
        0
    } else {
        1 + lower_bound(idx.drop_first(), target)
    }
}

/// Where a lookup of `target` starts in a sorted index: the first entry
/// whose first vertex is `target` when there is one, else the last entry
/// whose first vertex comes before `target`; `None` when every entry comes
/// after it.
pub open spec fn start_position(idx: Seq<VlogIndexEntry>, target: u64) -> Option<int> {
    let lb = lower_bound(idx, target);
    if lb < idx.len() && idx[lb].first_vertex_id == target {
        Some(lb)
    } else if lb == 0 {
        None
    } else {
        Some(lb - 1)
    }
}

proof fn lemma_lower_bound(idx: Seq<VlogIndexEntry>, target: u64, k: int)
    requires
        0 <= k <= idx.len(),
        forall|i: int| 0 <= i < k ==> idx[i].first_vertex_id < target,
        k == idx.len() || idx[k].first_vertex_id >= target,
    ensures
        lower_bound(idx, target) == k,
    decreases k,
{
    if k > 0 {
        lemma_lower_bound(idx.drop_first(), target, k - 1);
    }
}

/// The binary search for `target` between positions `lo` and `hi`: the
/// position it settles on.
pub open spec fn search_lo(idx: Seq<VlogIndexEntry>, target: u64, lo: int, hi: int) -> int
    decreases hi - lo,
{
    if lo < hi {
        let mid = lo + (hi - lo) / 2;
        if idx[mid].first_vertex_id < target {
            search_lo(idx, target, mid + 1, hi)
        } else {
            search_lo(idx, target, lo, mid)
        }
    } else {
        lo
    }
}

/// The position in the sparse index where a lookup of `target` starts: the
/// binary search settles on a position `lo`; the lookup starts there when
/// that entry's first vertex is `target`, else just before it, and nowhere
/// when `lo` is the first position. On a sorted index this is
/// `start_position`.
pub open spec fn search_position(idx: Seq<VlogIndexEntry>, target: u64) -> Option<int> {
    let lo = search_lo(idx, target, 0, idx.len() as int);
    if lo < idx.len() && idx[lo].first_vertex_id == target {
        Some(lo)
    } else if lo == 0 {
        None
    } else {
        Some(lo - 1)
    }
}

proof fn lemma_search_lo_bounds(idx: Seq<VlogIndexEntry>, target: u64, lo: int, hi: int)
    requires
        0 <= lo <= hi <= idx.len(),
    ensures
        lo <= search_lo(idx, target, lo, hi) <= hi,
        index_sorted(idx) && (forall|i: int| 0 <= i < lo ==> idx[i].first_vertex_id < target) && (forall|
            i: int,
        |
            hi <= i < idx.len() ==> idx[i].first_vertex_id >= target) ==> search_lo(idx, target, lo, hi)
            == lower_bound(idx, target),
    decreases hi - lo,
{
    if lo < hi {
        let mid = lo + (hi - lo) / 2;
        if idx[mid].first_vertex_id < target {
            lemma_search_lo_bounds(idx, target, mid + 1, hi);
        } else {
            lemma_search_lo_bounds(idx, target, lo, mid);
        }
    } else if index_sorted(idx) && (forall|i: int| 0 <= i < lo ==> idx[i].first_vertex_id < target) && (
    forall|i: int| hi <= i < idx.len() ==> idx[i].first_vertex_id >= target) {
        lemma_lower_bound(idx, target, lo);
    }
}

/// On a sorted index the search starts where `start_position` says.
pub proof fn lemma_search_position_sorted(idx: Seq<VlogIndexEntry>, target: u64)
    requires
        index_sorted(idx),
    ensures
        search_position(idx, target) == start_position(idx, target),
{
    lemma_search_lo_bounds(idx, target, 0, idx.len() as int);
}

/// The position in the sparse index where a lookup of `target` starts (see
/// `search_position`).
pub fn index_position(index: &[VlogIndexEntry], target: u64) -> (r: Option<usize>)
    ensures
        match (r, search_position(index@, target)) {
            (Some(p), Some(q)) => p == q && p < index@.len(),
            (None, None) => true,
            _ => false,
        },
{
    let mut lo: usize = 0;
    let mut hi: usize = index.len();
    proof {
        lemma_search_lo_bounds(index@, target, 0, index@.len() as int);
    }
    while lo < hi
        invariant
            lo <= hi <= index@.len(),
            search_lo(index@, target, lo as int, hi as int) == search_lo(index@, target, 0, index@.len() as int),
        decreases hi - lo,
    {
        let mid = lo + (hi - lo) / 2;
        if index[mid].first_vertex_id < target {
            lo = mid + 1;
        } else {
            hi = mid;
        }
    }
    if lo < index.len() && index[lo].first_vertex_id == target {
        Some(lo)
    } else if lo == 0 {
        None
    } else {
        Some(lo - 1)
    }
}

/// The entries of `es` for vertex `target`, in order.
pub open spec fn entries_of_vertex(es: Seq<VlogEntryView>, target: u64) -> Seq<VlogEntryView>
    decreases es.len(),
{
    if es.len() == 0 {
        es
    } else {
        let r = entries_of_vertex(es.drop_last(), target);
        if es.last().0 == target {
            r.push(es.last())
        } else {
            r
        }
    }
}

/// Copies of the entries of `all` for vertex `target`, in order.
fn filter_vertex(all: &Vec<VlogEntry>, target: u64) -> (r: Vec<VlogEntry>)
    ensures
        r@.map_values(|e: VlogEntry| e@) == entries_of_vertex(all@.map_values(|e: VlogEntry| e@), target),
{
    let ghost av = all@.map_values(|e: VlogEntry| e@);
    let mut out: Vec<VlogEntry> = Vec::new();
    let mut i: usize = 0;
    while i < all.len()
        invariant
            i <= all@.len(),
            av == all@.map_values(|e: VlogEntry| e@),
            out@.map_values(|e: VlogEntry| e@) == entries_of_vertex(av.take(i as int), target),
        decreases all@.len() - i,
    {
        proof {
            assert(av.take(i + 1).drop_last() =~= av.take(i as int));
            assert(av.take(i + 1).last() == av[i as int]);
        }
        if all[i].vertex_id == target {
            let ghost before = out@.map_values(|e: VlogEntry| e@);
            out.push(all[i].clone_entry());
            assert(out@.map_values(|e: VlogEntry| e@) =~= before.push(av[i as int]));
        }
        i += 1;
    }
    assert(av.take(av.len() as int) =~= av);
    out
}

/// The entries for vertex `target` among those encoded in `buf` (a byte
/// range of a file's data section, read as far as whole entries go).
pub fn scan_range_for_vertex(buf: &[u8], target: u64) -> (r: Vec<VlogEntry>)
    ensures
        r@.map_values(|e: VlogEntry| e@) == entries_of_vertex(entries_v1(buf@), target),
{
    let all = read_entries_v1(buf, 0);
    assert(buf@.skip(0) =~= buf@);
    filter_vertex(&all, target)
}

/// Where the bytes that index entry `p` points to end: at the next entry's
/// offset, or at the end of the file (`len`) for the last one.
pub open spec fn range_end(idx: Seq<VlogIndexEntry>, p: int, len: int) -> int {
    if p + 1 < idx.len() {
        idx[p + 1].file_offset as int
    } else {
        len
    }
}

/// What a lookup that starts at index position `p` of the file `data` gives.
pub open spec fn lookup_outcome(
    data: Seq<u8>,
    idx: Seq<VlogIndexEntry>,
    p: Option<int>,
    target: u64,
    r: Result<Vec<VlogEntry>, VlogError>,
) -> bool {
    match p {
        None => r matches Ok(v) && v@.len() == 0,
        Some(p) => if range_end(idx, p, data.len() as int) <= data.len() {
            r matches Ok(v) && v@.map_values(|e: VlogEntry| e@) == entries_of_vertex(
                entries_v1(data.subrange(idx[p].file_offset as int, range_end(idx, p, data.len() as int))),
                target,
            )
        } else {
            r == Err::<Vec<VlogEntry>, VlogError>(VlogError::RangePastEnd)
        },
    }
}

/// Whether the byte range where a lookup of `target` starts is ordered:
/// its offset is at most where it ends.
pub open spec fn start_range_ordered(idx: Seq<VlogIndexEntry>, target: u64, len: int) -> bool {
    search_position(idx, target) matches Some(p) ==> idx[p].file_offset <= range_end(idx, p, len)
}

/// Look up the entries of vertex `target` in the version log file `data`.
/// Without a sparse index every entry is scanned. Otherwise the index
/// gives the position to start at (see `index_position`), and only the
/// entries in the byte range of that index entry are scanned; a range that
/// runs past the end of the file is an error.
pub fn lookup_vertex_in_vlog(data: &[u8], target: u64) -> (r: Result<Vec<VlogEntry>, VlogError>)
    requires
        parsed_vlog(data@) matches Ok((_, idx)) ==> start_range_ordered(idx, target, data@.len() as int),
    ensures
        match parsed_vlog(data@) {
            Err(e) => r == Err::<Vec<VlogEntry>, VlogError>(e),
            Ok((es, idx)) => if idx.len() == 0 {
                r matches Ok(v) && v@.map_values(|e: VlogEntry| e@) == entries_of_vertex(es, target)
            } else {
                lookup_outcome(data@, idx, search_position(idx, target), target, r)
            },
        },
{
    let (all, index) = match read_vlog_with_index(data) {
        Ok(x) => x,
        Err(e) => {
            return Err(e);
        },
    };
    if index.len() == 0 {
        return Ok(filter_vertex(&all, target));
    }
    let pos = index_position(index.as_slice(), target);
    match pos {
        None => Ok(Vec::new()),
        Some(p) => {
            let start = index[p].file_offset;
            let dlen = data.len() as u64;
            let end: u64 = if p + 1 < index.len() {
                index[p + 1].file_offset
            } else {
                dlen
            };
            proof {
                let ghost sidx = parsed_vlog(data@)->Ok_0.1;
                assert(index@ == sidx);
            }
            assert(start <= end);
            if end > dlen {
                Err(VlogError::RangePastEnd)
            } else {
                let buf = &data[start as usize..end as usize];
                Ok(scan_range_for_vertex(buf, target))
            }
        },
    }
}

impl VlogEntry {
    /// A copy of the entry.
    pub fn clone_entry(&self) -> (r: VlogEntry)
        ensures
            r@ == self@,
    {
        let mut record: Vec<u8> = Vec::new();
        push_slice(&mut record, self.record.as_slice());
        VlogEntry { vertex_id: self.vertex_id, version: self.version, record }
    }
}

} // verus!
