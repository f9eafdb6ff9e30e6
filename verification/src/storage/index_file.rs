//! Fixed-size index records for vertices, edges and tokens, and the
//! block-level logic of the index file that stores them.
//!
//! Vertex and edge records span two consecutive 64-byte chunks (compact
//! fields, then a 64-byte NUL-terminated name); token records fill one chunk.
use crate::storage::codec::{copy_into, get_u16, get_u32, get_u64, push_slice, push_u16, push_u32, push_u64};
use crate::storage::block_allocator::{alloc_outcome, is_set, lemma_alloc_in_block, BlockAllocator};
use crate::storage::codec::read_range;
use crate::storage::types::{
    block_status_byte, block_status_of_byte, chunk_type_byte, chunk_type_of_byte, data_status_byte,
    data_status_of_byte, timestamp_us, BlockHeader, ChunkType, DataStatus, BLOCK_SIZE,
};
use vstd::bytes::*;
use vstd::prelude::*;
use vstd::string::StringSliceAdditionalSpecFns;
use vstd::utf8::{decode_utf8, valid_utf8};

verus! {

/// Number of chunks used by vertex/edge index records.
pub const INDEX_RECORD_CHUNKS: u8 = 2;

/// The position of the first NUL byte of `s`, or `s.len()` when there is none.
pub open spec fn nul_position(s: Seq<u8>) -> int
    decreases s.len(),
{
    if s.len() == 0 {
        0
    } else if s[0] == 0 {
        0
    } else {
        1 + nul_position(s.drop_first())
    }
}

/// The text that a NUL-terminated byte field holds: its bytes up to the first
/// NUL, decoded as UTF-8, or the empty text when they are not valid UTF-8.
pub open spec fn nul_terminated_text(s: Seq<u8>) -> Seq<char> {
    let b = s.subrange(0, nul_position(s));
    if valid_utf8(b) {
        decode_utf8(b)
    } else {
        Seq::empty()
    }
}

/// The contents of a `max + 1`-byte name field set from `text`: its first
/// `min(len, max)` UTF-8 bytes, then zeros.
pub open spec fn name_field(text: Seq<u8>, size: int, max: int) -> Seq<u8> {
    let n = if text.len() < max {
        text.len() as int
    } else {
        max
    };
    text.subrange(0, n) + Seq::new((size - n) as nat, |i: int| 0u8)
}

proof fn lemma_nul_position(s: Seq<u8>, i: int)
    requires
        0 <= i <= s.len(),
        forall|j: int| 0 <= j < i ==> s[j] != 0,
        i == s.len() || s[i] == 0,
    ensures
        nul_position(s) == i,
    decreases s.len(),
{
    if s.len() > 0 && i > 0 {
        lemma_nul_position(s.drop_first(), i - 1);
    }
}

/// The bytes of `name` up to the first NUL (all of them when there is none).
fn nul_prefix<const N: usize>(name: &[u8; N]) -> (r: &[u8])
    ensures
        r@ == name@.subrange(0, nul_position(name@)),
{
    let mut end: usize = 0;
    while end < N && name[end] != 0
        invariant
            end <= N,
            name@.len() == N,
            forall|j: int| 0 <= j < end ==> name@[j] != 0,
        decreases N - end,
    {
        end += 1;
    }
    proof {
        lemma_nul_position(name@, end as int);
    }
    let s = name.as_slice();
    &s[0..end]
}

/// `std::str::from_utf8`: `Some` exactly when `bytes` is valid UTF-8, and
/// then the text that the bytes encode.
#[verifier::external_body]
fn str_from_utf8(bytes: &[u8]) -> (r: Option<&str>)
    ensures
        r is Some <==> valid_utf8(bytes@),
        r matches Some(s) ==> s@ == decode_utf8(bytes@),
{
    std::str::from_utf8(bytes).ok()
}

/// The text of a NUL-terminated byte field.
fn text_of<const N: usize>(name: &[u8; N]) -> (r: &str)
    ensures
        r@ == nul_terminated_text(name@),
{
    let b = nul_prefix(name);
    match str_from_utf8(b) {
        Some(s) => s,
        None => {
            let e = "";
            proof {
                reveal_strlit("");
            }
            e
        },
    }
}

/// A `N`-byte field holding the first `min(len, max)` bytes of `name`, then
/// zeros.
fn field_from_str<const N: usize>(name: &str, max: usize) -> (r: [u8; N])
    requires
        max < N,
    ensures
        r@ == name_field(name.spec_bytes(), N as int, max as int),
{
    let mut buf = [0u8; N];
    let bytes = name.as_bytes();
    let len = if bytes.len() < max {
        bytes.len()
    } else {
        max
    };
    let mut i: usize = 0;
    while i < len
        invariant
            i <= len,
            len <= max < N,
            len <= bytes@.len(),
            buf@.len() == N,
            forall|j: int| 0 <= j < i ==> buf@[j] == bytes@[j],
            forall|j: int| i <= j < N ==> buf@[j] == 0,
        decreases len - i,
    {
        buf[i] = bytes[i];
        i += 1;
    }
    assert(buf@ =~= name_field(name.spec_bytes(), N as int, max as int));
    buf
}

// ── Vertex index record ──────────────────────────────────────────────────────

/// Index record for a vertex (128 bytes = 2 chunks).
#[derive(Clone, Debug, PartialEq)]
pub struct VertexIndexRecord {
    pub chunk_type: ChunkType,
    pub vertex_id: u32,
    pub data_block_idx: u32,
    pub data_chunk_offset: u8,
    pub data_len: u16,
    pub status: DataStatus,
    pub version: u16,
    pub ctime: u64,
    pub mtime: u64,
    pub atime: u64,
    pub rank: u32,
    /// 64-byte NUL-terminated name. Truncated if > 63 bytes.
    pub name: [u8; 64],
}

/// The 43 bytes of the first chunk that encode a vertex record's fields:
/// `[0]` type, `[1..5]` id, `[5..9]` block, `[9]` chunk offset, `[10..12]`
/// data length, `[12]` status, `[13..15]` version, `[15..23]` ctime,
/// `[23..31]` mtime, `[31..39]` atime, `[39..43]` rank.
pub open spec fn vertex_record_bytes(r: VertexIndexRecord) -> Seq<u8> {
    seq![chunk_type_byte(r.chunk_type)] + spec_u32_to_le_bytes(r.vertex_id) + spec_u32_to_le_bytes(
        r.data_block_idx,
    ) + seq![r.data_chunk_offset] + spec_u16_to_le_bytes(r.data_len) + seq![
        data_status_byte(r.status),
    ] + spec_u16_to_le_bytes(r.version) + spec_u64_to_le_bytes(r.ctime) + spec_u64_to_le_bytes(
        r.mtime,
    ) + spec_u64_to_le_bytes(r.atime) + spec_u32_to_le_bytes(r.rank)
}

/// `r` is the vertex record that the 128 bytes `b` decode to.
pub open spec fn vertex_record_decodes(r: VertexIndexRecord, b: Seq<u8>) -> bool {
    &&& r.chunk_type == chunk_type_of_byte(b[0])
    &&& r.vertex_id == spec_u32_from_le_bytes(b.subrange(1, 5))
    &&& r.data_block_idx == spec_u32_from_le_bytes(b.subrange(5, 9))
    &&& r.data_chunk_offset == b[9]
    &&& r.data_len == spec_u16_from_le_bytes(b.subrange(10, 12))
    &&& r.status == data_status_of_byte(b[12])
    &&& r.version == spec_u16_from_le_bytes(b.subrange(13, 15))
    &&& r.ctime == spec_u64_from_le_bytes(b.subrange(15, 23))
    &&& r.mtime == spec_u64_from_le_bytes(b.subrange(23, 31))
    &&& r.atime == spec_u64_from_le_bytes(b.subrange(31, 39))
    &&& r.rank == spec_u32_from_le_bytes(b.subrange(39, 43))
    &&& r.name@ == b.subrange(64, 128)
}

impl VertexIndexRecord {
    /// A record for a vertex created at time `now`.
    pub fn new_at(vertex_id: u32, data_block_idx: u32, data_chunk_offset: u8, data_len: u16, now: u64) -> (r: Self)
        ensures
            r.chunk_type == ChunkType::Vertex,
            r.vertex_id == vertex_id,
            r.data_block_idx == data_block_idx,
            r.data_chunk_offset == data_chunk_offset,
            r.data_len == data_len,
            r.status == DataStatus::Normal,
            r.version == 1,
            r.ctime == now,
            r.mtime == now,
            r.atime == now,
            r.rank == 1,
            r.name@ == seq![0u8; 64],
    {
        let name = [0u8; 64];
        assert(name@ =~= seq![0u8; 64]);
        Self {
            chunk_type: ChunkType::Vertex,
            vertex_id,
            data_block_idx,
            data_chunk_offset,
            data_len,
            status: DataStatus::Normal,
            version: 1,
            ctime: now,
            mtime: now,
            atime: now,
            rank: 1,
            name,
        }
    }

    /// A record for a vertex created now: as `new_at` with one timestamp in
    /// ctime, mtime and atime.
    pub fn new(vertex_id: u32, data_block_idx: u32, data_chunk_offset: u8, data_len: u16) -> (r: Self)
        ensures
            r.chunk_type == ChunkType::Vertex,
            r.vertex_id == vertex_id,
            r.data_block_idx == data_block_idx,
            r.data_chunk_offset == data_chunk_offset,
            r.data_len == data_len,
            r.status == DataStatus::Normal,
            r.version == 1,
            r.mtime == r.ctime,
            r.atime == r.ctime,
            r.rank == 1,
            r.name@ == seq![0u8; 64],
    {
        Self::new_at(vertex_id, data_block_idx, data_chunk_offset, data_len, timestamp_us())
    }

    /// Set the name field from a string (truncated to 63 bytes + NUL).
    pub fn set_name(&mut self, name: &str)
        ensures
            final(self).name@ == name_field(name.spec_bytes(), 64, 63),
            *final(self) == (VertexIndexRecord { name: final(self).name, ..*old(self) }),
    {
        self.name = field_from_str(name, 63);
    }

    /// The name: the bytes up to the first NUL, decoded as UTF-8 (empty when
    /// they are not valid UTF-8).
    pub fn get_name(&self) -> (r: &str)
        ensures
            r@ == nul_terminated_text(self.name@),
    {
        text_of(&self.name)
    }

    /// Encode into two consecutive 64-byte chunks; bytes 43..64 keep their
    /// value.
    pub fn encode(&self, buf: &mut [u8; 128])
        ensures
            final(buf)@ == vertex_record_bytes(*self) + old(buf)@.subrange(43, 64) + self.name@,
    {
        let mut v: Vec<u8> = Vec::new();
        v.push(self.chunk_type.to_u8());
        push_u32(&mut v, self.vertex_id);
        push_u32(&mut v, self.data_block_idx);
        v.push(self.data_chunk_offset);
        push_u16(&mut v, self.data_len);
        v.push(self.status.to_u8());
        push_u16(&mut v, self.version);
        push_u64(&mut v, self.ctime);
        push_u64(&mut v, self.mtime);
        push_u64(&mut v, self.atime);
        push_u32(&mut v, self.rank);
        proof {
            lemma_auto_spec_u16_to_from_le_bytes();
            lemma_auto_spec_u32_to_from_le_bytes();
            lemma_auto_spec_u64_to_from_le_bytes();
            assert(v@ =~= vertex_record_bytes(*self));
        }
        let ghost orig = buf@;
        copy_into(buf, 0, v.as_slice());
        copy_into(buf, 64, self.name.as_slice());
        assert(buf@ =~= vertex_record_bytes(*self) + orig.subrange(43, 64) + self.name@);
    }

    /// Decode from two consecutive 64-byte chunks.
    pub fn decode(buf: &[u8; 128]) -> (r: Self)
        ensures
            vertex_record_decodes(r, buf@),
    {
        let mut name = [0u8; 64];
        let mut i: usize = 0;
        while i < 64
            invariant
                i <= 64,
                forall|j: int| 0 <= j < i ==> name@[j] == buf@[64 + j],
            decreases 64 - i,
        {
            name[i] = buf[64 + i];
            i += 1;
        }
        assert(name@ =~= buf@.subrange(64, 128));
        Self {
            chunk_type: ChunkType::from_u8(buf[0]),
            vertex_id: get_u32(buf, 1),
            data_block_idx: get_u32(buf, 5),
            data_chunk_offset: buf[9],
            data_len: get_u16(buf, 10),
            status: DataStatus::from_u8(buf[12]),
            version: get_u16(buf, 13),
            ctime: get_u64(buf, 15),
            mtime: get_u64(buf, 23),
            atime: get_u64(buf, 31),
            rank: get_u32(buf, 39),
            name,
        }
    }

    /// Mark record as deleted (soft-delete for history queries).
    pub fn mark_deleted(&mut self)
        ensures
            *final(self) == (VertexIndexRecord { status: DataStatus::Deleted, ..*old(self) }),
    {
        self.status = DataStatus::Deleted;
    }
}

/// Reading back an encoded vertex record gives the record that was written.
pub proof fn lemma_vertex_record_roundtrip(r: VertexIndexRecord, mid: Seq<u8>)
    requires
        mid.len() == 21,
    ensures
        vertex_record_decodes(r, vertex_record_bytes(r) + mid + r.name@),
{
    lemma_auto_spec_u16_to_from_le_bytes();
    lemma_auto_spec_u32_to_from_le_bytes();
    lemma_auto_spec_u64_to_from_le_bytes();
    let b = vertex_record_bytes(r) + mid + r.name@;
    assert(b.subrange(1, 5) =~= spec_u32_to_le_bytes(r.vertex_id));
    assert(b.subrange(5, 9) =~= spec_u32_to_le_bytes(r.data_block_idx));
    assert(b.subrange(10, 12) =~= spec_u16_to_le_bytes(r.data_len));
    assert(b.subrange(13, 15) =~= spec_u16_to_le_bytes(r.version));
    assert(b.subrange(15, 23) =~= spec_u64_to_le_bytes(r.ctime));
    assert(b.subrange(23, 31) =~= spec_u64_to_le_bytes(r.mtime));
    assert(b.subrange(31, 39) =~= spec_u64_to_le_bytes(r.atime));
    assert(b.subrange(39, 43) =~= spec_u32_to_le_bytes(r.rank));
    assert(b.subrange(64, 128) =~= r.name@);
}

// ── Edge index record ────────────────────────────────────────────────────────

/// Index record for an edge (128 bytes = 2 chunks).
#[derive(Clone, Debug, PartialEq)]
pub struct EdgeIndexRecord {
    pub chunk_type: ChunkType,
    pub edge_id: u32,
    pub data_block_idx: u32,
    pub data_chunk_offset: u8,
    pub data_len: u16,
    pub status: DataStatus,
    pub version: u16,
    pub ctime: u64,
    pub mtime: u64,
    pub atime: u64,
    pub rank: u32,
    pub source: u32,
    pub target: u32,
    /// 64-byte NUL-terminated name. Truncated if > 63 bytes.
    pub name: [u8; 64],
}

/// The 51 bytes of the first chunk that encode an edge record's fields: the
/// vertex layout up to `[39..43]` rank, then `[43..47]` source and `[47..51]`
/// target.
pub open spec fn edge_record_bytes(r: EdgeIndexRecord) -> Seq<u8> {
    seq![chunk_type_byte(r.chunk_type)] + spec_u32_to_le_bytes(r.edge_id) + spec_u32_to_le_bytes(
        r.data_block_idx,
    ) + seq![r.data_chunk_offset] + spec_u16_to_le_bytes(r.data_len) + seq![
        data_status_byte(r.status),
    ] + spec_u16_to_le_bytes(r.version) + spec_u64_to_le_bytes(r.ctime) + spec_u64_to_le_bytes(
        r.mtime,
    ) + spec_u64_to_le_bytes(r.atime) + spec_u32_to_le_bytes(r.rank) + spec_u32_to_le_bytes(
        r.source,
    ) + spec_u32_to_le_bytes(r.target)
}

/// `r` is the edge record that the 128 bytes `b` decode to.
pub open spec fn edge_record_decodes(r: EdgeIndexRecord, b: Seq<u8>) -> bool {
    &&& r.chunk_type == chunk_type_of_byte(b[0])
    &&& r.edge_id == spec_u32_from_le_bytes(b.subrange(1, 5))
    &&& r.data_block_idx == spec_u32_from_le_bytes(b.subrange(5, 9))
    &&& r.data_chunk_offset == b[9]
    &&& r.data_len == spec_u16_from_le_bytes(b.subrange(10, 12))
    &&& r.status == data_status_of_byte(b[12])
    &&& r.version == spec_u16_from_le_bytes(b.subrange(13, 15))
    &&& r.ctime == spec_u64_from_le_bytes(b.subrange(15, 23))
    &&& r.mtime == spec_u64_from_le_bytes(b.subrange(23, 31))
    &&& r.atime == spec_u64_from_le_bytes(b.subrange(31, 39))
    &&& r.rank == spec_u32_from_le_bytes(b.subrange(39, 43))
    &&& r.source == spec_u32_from_le_bytes(b.subrange(43, 47))
    &&& r.target == spec_u32_from_le_bytes(b.subrange(47, 51))
    &&& r.name@ == b.subrange(64, 128)
}

impl EdgeIndexRecord {
    /// A record for an edge created at time `now`.
    pub fn new_at(
        edge_id: u32,
        source: u32,
        target: u32,
        data_block_idx: u32,
        data_chunk_offset: u8,
        data_len: u16,
        now: u64,
    ) -> (r: Self)
        ensures
            r.chunk_type == ChunkType::Edge,
            r.edge_id == edge_id,
            r.source == source,
            r.target == target,
            r.data_block_idx == data_block_idx,
            r.data_chunk_offset == data_chunk_offset,
            r.data_len == data_len,
            r.status == DataStatus::Normal,
            r.version == 1,
            r.ctime == now,
            r.mtime == now,
            r.atime == now,
            r.rank == 1,
            r.name@ == seq![0u8; 64],
    {
        let name = [0u8; 64];
        assert(name@ =~= seq![0u8; 64]);
        Self {
            chunk_type: ChunkType::Edge,
            edge_id,
            data_block_idx,
            data_chunk_offset,
            data_len,
            status: DataStatus::Normal,
            version: 1,
            ctime: now,
            mtime: now,
            atime: now,
            rank: 1,
            source,
            target,
            name,
        }
    }

    /// A record for an edge created now: as `new_at` with one timestamp in
    /// ctime, mtime and atime.
    pub fn new(
        edge_id: u32,
        source: u32,
        target: u32,
        data_block_idx: u32,
        data_chunk_offset: u8,
        data_len: u16,
    ) -> (r: Self)
        ensures
            r.chunk_type == ChunkType::Edge,
            r.edge_id == edge_id,
            r.source == source,
            r.target == target,
            r.data_block_idx == data_block_idx,
            r.data_chunk_offset == data_chunk_offset,
            r.data_len == data_len,
            r.status == DataStatus::Normal,
            r.version == 1,
            r.mtime == r.ctime,
            r.atime == r.ctime,
            r.rank == 1,
            r.name@ == seq![0u8; 64],
    {
        Self::new_at(edge_id, source, target, data_block_idx, data_chunk_offset, data_len, timestamp_us())
    }

    /// Set the name field from a string (truncated to 63 bytes + NUL).
    pub fn set_name(&mut self, name: &str)
        ensures
            final(self).name@ == name_field(name.spec_bytes(), 64, 63),
            *final(self) == (EdgeIndexRecord { name: final(self).name, ..*old(self) }),
    {
        self.name = field_from_str(name, 63);
    }

    /// The name: the bytes up to the first NUL, decoded as UTF-8 (empty when
    /// they are not valid UTF-8).
    pub fn get_name(&self) -> (r: &str)
        ensures
            r@ == nul_terminated_text(self.name@),
    {
        text_of(&self.name)
    }

    /// Encode into two consecutive 64-byte chunks; bytes 51..64 keep their
    /// value.
    pub fn encode(&self, buf: &mut [u8; 128])
        ensures
            final(buf)@ == edge_record_bytes(*self) + old(buf)@.subrange(51, 64) + self.name@,
    {
        let mut v: Vec<u8> = Vec::new();
        v.push(self.chunk_type.to_u8());
        push_u32(&mut v, self.edge_id);
        push_u32(&mut v, self.data_block_idx);
        v.push(self.data_chunk_offset);
        push_u16(&mut v, self.data_len);
        v.push(self.status.to_u8());
        push_u16(&mut v, self.version);
        push_u64(&mut v, self.ctime);
        push_u64(&mut v, self.mtime);
        push_u64(&mut v, self.atime);
        push_u32(&mut v, self.rank);
        push_u32(&mut v, self.source);
        push_u32(&mut v, self.target);
        proof {
            lemma_auto_spec_u16_to_from_le_bytes();
            lemma_auto_spec_u32_to_from_le_bytes();
            lemma_auto_spec_u64_to_from_le_bytes();
            assert(v@ =~= edge_record_bytes(*self));
        }
        let ghost orig = buf@;
        copy_into(buf, 0, v.as_slice());
        copy_into(buf, 64, self.name.as_slice());
        assert(buf@ =~= edge_record_bytes(*self) + orig.subrange(51, 64) + self.name@);
    }

    /// Decode from two consecutive 64-byte chunks.
    pub fn decode(buf: &[u8; 128]) -> (r: Self)
        ensures
            edge_record_decodes(r, buf@),
    {
        let mut name = [0u8; 64];
        let mut i: usize = 0;
        while i < 64
            invariant
                i <= 64,
                forall|j: int| 0 <= j < i ==> name@[j] == buf@[64 + j],
            decreases 64 - i,
        {
            name[i] = buf[64 + i];
            i += 1;
        }
        assert(name@ =~= buf@.subrange(64, 128));
        Self {
            chunk_type: ChunkType::from_u8(buf[0]),
            edge_id: get_u32(buf, 1),
            data_block_idx: get_u32(buf, 5),
            data_chunk_offset: buf[9],
            data_len: get_u16(buf, 10),
            status: DataStatus::from_u8(buf[12]),
            version: get_u16(buf, 13),
            ctime: get_u64(buf, 15),
            mtime: get_u64(buf, 23),
            atime: get_u64(buf, 31),
            rank: get_u32(buf, 39),
            source: get_u32(buf, 43),
            target: get_u32(buf, 47),
            name,
        }
    }

    /// Mark record as deleted (soft-delete for history queries).
    pub fn mark_deleted(&mut self)
        ensures
            *final(self) == (EdgeIndexRecord { status: DataStatus::Deleted, ..*old(self) }),
    {
        self.status = DataStatus::Deleted;
    }
}

/// Reading back an encoded edge record gives the record that was written.
pub proof fn lemma_edge_record_roundtrip(r: EdgeIndexRecord, mid: Seq<u8>)
    requires
        mid.len() == 13,
    ensures
        edge_record_decodes(r, edge_record_bytes(r) + mid + r.name@),
{
    lemma_auto_spec_u16_to_from_le_bytes();
    lemma_auto_spec_u32_to_from_le_bytes();
    lemma_auto_spec_u64_to_from_le_bytes();
    let b = edge_record_bytes(r) + mid + r.name@;
    assert(b.subrange(1, 5) =~= spec_u32_to_le_bytes(r.edge_id));
    assert(b.subrange(5, 9) =~= spec_u32_to_le_bytes(r.data_block_idx));
    assert(b.subrange(10, 12) =~= spec_u16_to_le_bytes(r.data_len));
    assert(b.subrange(13, 15) =~= spec_u16_to_le_bytes(r.version));
    assert(b.subrange(15, 23) =~= spec_u64_to_le_bytes(r.ctime));
    assert(b.subrange(23, 31) =~= spec_u64_to_le_bytes(r.mtime));
    assert(b.subrange(31, 39) =~= spec_u64_to_le_bytes(r.atime));
    assert(b.subrange(39, 43) =~= spec_u32_to_le_bytes(r.rank));
    assert(b.subrange(43, 47) =~= spec_u32_to_le_bytes(r.source));
    assert(b.subrange(47, 51) =~= spec_u32_to_le_bytes(r.target));
    assert(b.subrange(64, 128) =~= r.name@);
}

// ── Token index record ───────────────────────────────────────────────────────

/// Index record for a token (64 bytes).
#[derive(Clone, Debug, PartialEq)]
pub struct TokenIndexRecord {
    pub chunk_type: ChunkType,
    pub token_id: u32,
    pub data_block_idx: u32,
    pub data_chunk_offset: u8,
    pub data_len: u16,
    pub status: DataStatus,
    pub ctime: u64,
    /// Inline token string, NUL-terminated, max 42 bytes + NUL.
    pub token: [u8; 43],
}

/// The 64 bytes that encode a token record: `[0]` type, `[1..5]` id,
/// `[5..9]` block, `[9]` chunk offset, `[10..12]` data length, `[12]` status,
/// `[13..21]` ctime, `[21..64]` token.
pub open spec fn token_record_bytes(r: TokenIndexRecord) -> Seq<u8> {
    seq![chunk_type_byte(r.chunk_type)] + spec_u32_to_le_bytes(r.token_id) + spec_u32_to_le_bytes(
        r.data_block_idx,
    ) + seq![r.data_chunk_offset] + spec_u16_to_le_bytes(r.data_len) + seq![
        data_status_byte(r.status),
    ] + spec_u64_to_le_bytes(r.ctime) + r.token@
}

/// `r` is the token record that the 64 bytes `b` decode to.
pub open spec fn token_record_decodes(r: TokenIndexRecord, b: Seq<u8>) -> bool {
    &&& r.chunk_type == chunk_type_of_byte(b[0])
    &&& r.token_id == spec_u32_from_le_bytes(b.subrange(1, 5))
    &&& r.data_block_idx == spec_u32_from_le_bytes(b.subrange(5, 9))
    &&& r.data_chunk_offset == b[9]
    &&& r.data_len == spec_u16_from_le_bytes(b.subrange(10, 12))
    &&& r.status == data_status_of_byte(b[12])
    &&& r.ctime == spec_u64_from_le_bytes(b.subrange(13, 21))
    &&& r.token@ == b.subrange(21, 64)
}

impl TokenIndexRecord {
    /// A record for a token created at time `now`; the token text is
    /// truncated to 42 bytes.
    pub fn new_at(
        token_id: u32,
        token_str: &str,
        data_block_idx: u32,
        data_chunk_offset: u8,
        data_len: u16,
        now: u64,
    ) -> (r: Self)
        ensures
            r.chunk_type == ChunkType::Token,
            r.token_id == token_id,
            r.data_block_idx == data_block_idx,
            r.data_chunk_offset == data_chunk_offset,
            r.data_len == data_len,
            r.status == DataStatus::Normal,
            r.ctime == now,
            r.token@ == name_field(token_str.spec_bytes(), 43, 42),
    {
        Self {
            chunk_type: ChunkType::Token,
            token_id,
            data_block_idx,
            data_chunk_offset,
            data_len,
            status: DataStatus::Normal,
            ctime: now,
            token: field_from_str(token_str, 42),
        }
    }

    /// A record for a token created now.
    pub fn new(token_id: u32, token_str: &str, data_block_idx: u32, data_chunk_offset: u8, data_len: u16) -> (r: Self)
        ensures
            r.chunk_type == ChunkType::Token,
            r.token_id == token_id,
            r.data_block_idx == data_block_idx,
            r.data_chunk_offset == data_chunk_offset,
            r.data_len == data_len,
            r.status == DataStatus::Normal,
            r.token@ == name_field(token_str.spec_bytes(), 43, 42),
    {
        Self::new_at(token_id, token_str, data_block_idx, data_chunk_offset, data_len, timestamp_us())
    }

    /// The token text (up to the NUL terminator).
    pub fn token_str(&self) -> (r: &str)
        ensures
            r@ == nul_terminated_text(self.token@),
    {
        text_of(&self.token)
    }

    /// Encode into a 64-byte chunk.
    pub fn encode(&self, buf: &mut [u8; 64])
        ensures
            final(buf)@ == token_record_bytes(*self),
    {
        let mut v: Vec<u8> = Vec::new();
        v.push(self.chunk_type.to_u8());
        push_u32(&mut v, self.token_id);
        push_u32(&mut v, self.data_block_idx);
        v.push(self.data_chunk_offset);
        push_u16(&mut v, self.data_len);
        v.push(self.status.to_u8());
        push_u64(&mut v, self.ctime);
        push_slice(&mut v, self.token.as_slice());
        proof {
            lemma_auto_spec_u16_to_from_le_bytes();
            lemma_auto_spec_u32_to_from_le_bytes();
            lemma_auto_spec_u64_to_from_le_bytes();
            assert(v@ =~= token_record_bytes(*self));
        }
        copy_into(buf, 0, v.as_slice());
        assert(buf@ =~= token_record_bytes(*self));
    }

    /// Decode from a 64-byte chunk.
    pub fn decode(buf: &[u8; 64]) -> (r: Self)
        ensures
            token_record_decodes(r, buf@),
    {
        let mut token = [0u8; 43];
        let mut i: usize = 0;
        while i < 43
            invariant
                i <= 43,
                forall|j: int| 0 <= j < i ==> token@[j] == buf@[21 + j],
            decreases 43 - i,
        {
            token[i] = buf[21 + i];
            i += 1;
        }
        assert(token@ =~= buf@.subrange(21, 64));
        Self {
            chunk_type: ChunkType::from_u8(buf[0]),
            token_id: get_u32(buf, 1),
            data_block_idx: get_u32(buf, 5),
            data_chunk_offset: buf[9],
            data_len: get_u16(buf, 10),
            status: DataStatus::from_u8(buf[12]),
            ctime: get_u64(buf, 13),
            token,
        }
    }
}

/// Reading back an encoded token record gives the record that was written.
pub proof fn lemma_token_record_roundtrip(r: TokenIndexRecord)
    ensures
        token_record_decodes(r, token_record_bytes(r)),
{
    lemma_auto_spec_u16_to_from_le_bytes();
    lemma_auto_spec_u32_to_from_le_bytes();
    lemma_auto_spec_u64_to_from_le_bytes();
    let b = token_record_bytes(r);
    assert(b.subrange(1, 5) =~= spec_u32_to_le_bytes(r.token_id));
    assert(b.subrange(5, 9) =~= spec_u32_to_le_bytes(r.data_block_idx));
    assert(b.subrange(10, 12) =~= spec_u16_to_le_bytes(r.data_len));
    assert(b.subrange(13, 21) =~= spec_u64_to_le_bytes(r.ctime));
    assert(b.subrange(21, 64) =~= r.token@);
}

/// A name of at most 63 bytes with no NUL byte reads back exactly as it was
/// set.
pub proof fn lemma_name_roundtrip(text: Seq<char>)
    requires
        vstd::utf8::encode_utf8(text).len() <= 63,
        forall|i: int|
            0 <= i < vstd::utf8::encode_utf8(text).len() ==> vstd::utf8::encode_utf8(text)[i] != 0,
    ensures
        nul_terminated_text(name_field(vstd::utf8::encode_utf8(text), 64, 63)) == text,
{
    let bytes = vstd::utf8::encode_utf8(text);
    let field = name_field(bytes, 64, 63);
    assert(field.subrange(0, bytes.len() as int) =~= bytes);
    lemma_nul_position(field, bytes.len() as int);
    vstd::utf8::encode_utf8_valid_utf8(text);
    vstd::utf8::encode_utf8_decode_utf8(text);
}


/// A name longer than 63 bytes with no NUL byte among its first 63, whose
/// byte 63 starts a character (as in any ASCII name), reads back as its first
/// 63 bytes: the text read is a prefix of the name, and its UTF-8 bytes are
/// the name's first 63 bytes.
pub proof fn lemma_name_truncated(text: Seq<char>)
    requires
        vstd::utf8::encode_utf8(text).len() > 63,
        forall|i: int| 0 <= i < 63 ==> vstd::utf8::encode_utf8(text)[i] != 0,
        !vstd::utf8::is_continuation_byte(vstd::utf8::encode_utf8(text)[63]),
    ensures
        nul_terminated_text(name_field(vstd::utf8::encode_utf8(text), 64, 63)) == decode_utf8(
            vstd::utf8::encode_utf8(text).subrange(0, 63),
        ),
        vstd::utf8::encode_utf8(nul_terminated_text(name_field(vstd::utf8::encode_utf8(text), 64, 63)))
            == vstd::utf8::encode_utf8(text).subrange(0, 63),
        text == nul_terminated_text(name_field(vstd::utf8::encode_utf8(text), 64, 63)) + decode_utf8(
            vstd::utf8::encode_utf8(text).subrange(63, vstd::utf8::encode_utf8(text).len() as int),
        ),
{
    let bytes = vstd::utf8::encode_utf8(text);
    let field = name_field(bytes, 64, 63);
    let head = bytes.subrange(0, 63);
    let tail = bytes.subrange(63, bytes.len() as int);
    assert(field.subrange(0, 63) =~= head);
    lemma_nul_position(field, 63);
    vstd::utf8::encode_utf8_valid_utf8(text);
    vstd::utf8::is_char_boundary_iff_not_is_continuation_byte(bytes, 63);
    vstd::utf8::valid_utf8_split(bytes, 63);
    vstd::utf8::decode_utf8_split(bytes, 63);
    vstd::utf8::encode_utf8_decode_utf8(text);
    vstd::utf8::decode_utf8_encode_utf8(head);
}

// ── Index file blocks ────────────────────────────────────────────────────────

/// `b` with the bytes `d` written at `at`.
pub open spec fn with_bytes_at(b: Seq<u8>, at: int, d: Seq<u8>) -> Seq<u8> {
    b.subrange(0, at) + d + b.subrange(at + d.len(), b.len() as int)
}

/// A block whose header gets the cursor `off` and the bitmap `bm`; the
/// status is written back as decoded and the timestamp as it was.
pub open spec fn header_rewritten(b: Seq<u8>, bm: Seq<u8>, off: u8) -> Seq<u8> {
    seq![off] + bm + seq![block_status_byte(block_status_of_byte(b[33]))] + b.subrange(
        34,
        b.len() as int,
    )
}

/// Allocate `num_chunks` chunks for `data` in an index block: the header's
/// own cursor and bitmap drive the allocation (see `alloc_outcome`); on
/// success the header is written back and `data` goes at the chunk found,
/// whose offset is returned. Without room the block is left unchanged.
pub fn alloc_in_block(block: &mut [u8; BLOCK_SIZE], num_chunks: u8, data: &[u8]) -> (r: Option<u8>)
    requires
        1 <= num_chunks <= 2,
        data@.len() == 64 * num_chunks,
    ensures
        exists|bm: Seq<u8>, off: u8|
            alloc_outcome(old(block)@.subrange(1, 33), old(block)@[0], num_chunks, r, bm, off) && match r {
                None => final(block)@ == old(block)@,
                Some(f) => final(block)@ == with_bytes_at(
                    header_rewritten(old(block)@, bm, off),
                    f * 64,
                    data@,
                ),
            },
{
    let mut h = BlockHeader::decode(block);
    let ghost bm0 = h.bitmap@;
    let ghost off0 = h.offset;
    let r = BlockAllocator::alloc_chunks(&mut h.bitmap, &mut h.offset, num_chunks);
    match r {
        None => {
            assert(alloc_outcome(bm0, off0, num_chunks, r, h.bitmap@, h.offset));
            None
        },
        Some(f) => {
            proof {
                lemma_alloc_in_block(bm0, off0, num_chunks, f, h.bitmap@, h.offset);
                vstd::bytes::lemma_auto_spec_u64_to_from_le_bytes();
            }
            let ghost b0 = block@;
            h.encode(block);
            assert(block@ =~= header_rewritten(b0, h.bitmap@, h.offset)) by {
                assert(b0.subrange(34, 42) == spec_u64_to_le_bytes(spec_u64_from_le_bytes(b0.subrange(34, 42))));
            }
            let at = (f as usize) * 64;
            let ghost b1 = block@;
            copy_into(block, at, data);
            assert(block@ =~= with_bytes_at(b1, f * 64, data@));
            Some(f)
        },
    }
}

/// Write the 64 bytes of `data` at chunk `chunk_offset` of a block.
pub fn write_chunk_at(block: &mut [u8; BLOCK_SIZE], chunk_offset: u8, data: &[u8; 64])
    ensures
        final(block)@ == with_bytes_at(old(block)@, chunk_offset * 64, data@),
{
    copy_into(block, (chunk_offset as usize) * 64, data.as_slice());
}

/// Write the 128 bytes of `data` at chunks `chunk_offset` and
/// `chunk_offset + 1` of a block; the last chunk has no successor.
pub fn write_chunks_at(block: &mut [u8; BLOCK_SIZE], chunk_offset: u8, data: &[u8; 128])
    requires
        chunk_offset < 255,
    ensures
        final(block)@ == with_bytes_at(old(block)@, chunk_offset * 64, data@),
{
    copy_into(block, (chunk_offset as usize) * 64, data.as_slice());
}

/// The 64 bytes of chunk `chunk_offset` of a block.
pub fn read_chunk_at(block: &[u8; BLOCK_SIZE], chunk_offset: u8) -> (r: [u8; 64])
    ensures
        r@ == block@.subrange(chunk_offset * 64, chunk_offset * 64 + 64),
{
    let v = read_range(block, (chunk_offset as usize) * 64, 64);
    let mut r = [0u8; 64];
    let mut i: usize = 0;
    while i < 64
        invariant
            i <= 64,
            v@.len() == 64,
            forall|j: int| 0 <= j < i ==> r@[j] == v@[j],
        decreases 64 - i,
    {
        r[i] = v[i];
        i += 1;
    }
    assert(r@ =~= v@);
    r
}

/// The 128 bytes of chunks `chunk_offset` and `chunk_offset + 1` of a
/// block; the last chunk has no successor.
pub fn read_chunk2_at(block: &[u8; BLOCK_SIZE], chunk_offset: u8) -> (r: [u8; 128])
    requires
        chunk_offset < 255,
    ensures
        r@ == block@.subrange(chunk_offset * 64, chunk_offset * 64 + 128),
{
    let v = read_range(block, (chunk_offset as usize) * 64, 128);
    let mut r = [0u8; 128];
    let mut i: usize = 0;
    while i < 128
        invariant
            i <= 128,
            v@.len() == 128,
            forall|j: int| 0 <= j < i ==> r@[j] == v@[j],
        decreases 128 - i,
    {
        r[i] = v[i];
        i += 1;
    }
    assert(r@ =~= v@);
    r
}

/// What an allocation wrote is what reading its chunks gives back.
pub proof fn lemma_alloc_then_read(old: Seq<u8>, new: Seq<u8>, bm: Seq<u8>, off: u8, f: u8, data: Seq<u8>)
    requires
        old.len() == BLOCK_SIZE,
        bm.len() == 32,
        1 <= f,
        f * 64 + data.len() <= BLOCK_SIZE,
        new == with_bytes_at(header_rewritten(old, bm, off), f * 64, data),
    ensures
        new.subrange(f * 64, f * 64 + data.len()) == data,
{
    assert(new.subrange(f * 64, f * 64 + data.len()) =~= data);
}


/// The records a scan of block `b` finds from chunk `c` on: each chunk whose
/// bit is set and whose type byte is not zero starts a record; vertex and
/// edge records take two chunks (one when they start in the last chunk),
/// other records one. Each record is (chunk offset, its bytes).
pub open spec fn records_from(b: Seq<u8>, c: int) -> Seq<(u8, Seq<u8>)>
    decreases 256 - c,
{
    if c > 255 || c < 1 {
        Seq::empty()
    } else if !is_set(b.subrange(1, 33), c) || b[c * 64] == 0 {
        records_from(b, c + 1)
    } else if (b[c * 64] == 1 || b[c * 64] == 2) && c < 255 {
        seq![(c as u8, b.subrange(c * 64, c * 64 + 128))] + records_from(b, c + 2)
    } else {
        seq![(c as u8, b.subrange(c * 64, c * 64 + 64))] + records_from(b, c + 1)
    }
}

/// Each record that a scan from chunk `c` finds starts at an allocated chunk
/// of non-zero type, at or after `c`, and holds the whole record: both
/// chunks (128 bytes) of a vertex or edge record (type 1 or 2) that does not
/// start in the last chunk, one chunk (64 bytes) of any other.
pub proof fn lemma_scanned_records_are_whole(b: Seq<u8>, c: int)
    requires
        b.len() == BLOCK_SIZE,
    ensures
        forall|i: int|
            0 <= i < records_from(b, c).len() ==> {
                let o = (#[trigger] records_from(b, c)[i]).0 as int;
                &&& 1 <= o <= 255
                &&& c <= o
                &&& is_set(b.subrange(1, 33), o)
                &&& b[o * 64] != 0
                &&& records_from(b, c)[i].1 == b.subrange(o * 64, o * 64 + if (b[o * 64] == 1 || b[o * 64] == 2) && o < 255 {
                    128int
                } else {
                    64int
                })
            },
    decreases 256 - c,
{
    if !(c > 255 || c < 1) {
        let r = records_from(b, c);
        assert((c as u8) as int == c);
        if !is_set(b.subrange(1, 33), c) || b[c * 64] == 0 {
            lemma_scanned_records_are_whole(b, c + 1);
            assert(r == records_from(b, c + 1));
        } else {
            let next = if (b[c * 64] == 1 || b[c * 64] == 2) && c < 255 {
                c + 2
            } else {
                c + 1
            };
            lemma_scanned_records_are_whole(b, next);
            let rest = records_from(b, next);
            let first = (c as u8, b.subrange(c * 64, c * 64 + if (b[c * 64] == 1 || b[c * 64] == 2) && c < 255 {
                128int
            } else {
                64int
            }));
            assert(r == seq![first] + rest);
            assert forall|i: int| 0 <= i < r.len() implies {
                let o = (#[trigger] r[i]).0 as int;
                &&& 1 <= o <= 255
                &&& c <= o
                &&& is_set(b.subrange(1, 33), o)
                &&& b[o * 64] != 0
                &&& r[i].1 == b.subrange(o * 64, o * 64 + if (b[o * 64] == 1 || b[o * 64] == 2) && o < 255 {
                    128int
                } else {
                    64int
                })
            } by {
                if i == 0 {
                    assert(r[0] == first);
                } else {
                    assert(r[i] == rest[i - 1]);
                }
            }
        }
    }
}

/// Every allocated chunk of non-zero type from chunk `c` on is found by a
/// scan from `c`: it starts a record, or it is the second chunk of a 128-byte
/// vertex or edge record that starts just before it.
pub proof fn lemma_scan_finds_every_record(b: Seq<u8>, c: int, co: int)
    requires
        b.len() == BLOCK_SIZE,
        1 <= c <= co <= 255,
        is_set(b.subrange(1, 33), co),
        b[co * 64] != 0,
    ensures
        exists|i: int|
            0 <= i < records_from(b, c).len() && ((#[trigger] records_from(b, c)[i]).0 == co || (
            records_from(b, c)[i].0 == co - 1 && records_from(b, c)[i].1.len() == 128)),
    decreases 256 - c,
{
    let r = records_from(b, c);
    let two_chunks = (b[c * 64] == 1 || b[c * 64] == 2) && c < 255;
    assert((c as u8) as int == c);
    if !is_set(b.subrange(1, 33), c) || b[c * 64] == 0 {
        assert(c != co);
        lemma_scan_finds_every_record(b, c + 1, co);
        let i = choose|i: int|
            0 <= i < records_from(b, c + 1).len() && ((#[trigger] records_from(b, c + 1)[i]).0 == co || (
            records_from(b, c + 1)[i].0 == co - 1 && records_from(b, c + 1)[i].1.len() == 128));
        assert(r[i] == records_from(b, c + 1)[i]);
    } else if two_chunks {
        if co == c {
            assert(r[0].0 == co);
        } else if co == c + 1 {
            assert(r[0].0 == co - 1 && r[0].1.len() == 128);
        } else {
            lemma_scan_finds_every_record(b, c + 2, co);
            let rest = records_from(b, c + 2);
            let i = choose|i: int|
                0 <= i < rest.len() && ((#[trigger] rest[i]).0 == co || (rest[i].0 == co - 1
                    && rest[i].1.len() == 128));
            assert(r[i + 1] == rest[i]);
        }
    } else {
        if co == c {
            assert(r[0].0 == co);
        } else {
            lemma_scan_finds_every_record(b, c + 1, co);
            let rest = records_from(b, c + 1);
            let i = choose|i: int|
                0 <= i < rest.len() && ((#[trigger] rest[i]).0 == co || (rest[i].0 == co - 1
                    && rest[i].1.len() == 128));
            assert(r[i + 1] == rest[i]);
        }
    }
}

/// The records of an index block, in chunk order: (chunk offset, bytes).
pub fn scan_block(block: &[u8; BLOCK_SIZE]) -> (r: Vec<(u8, Vec<u8>)>)
    ensures
        r@.map_values(|e: (u8, Vec<u8>)| (e.0, e.1@)) == records_from(block@, 1),
{
    let header = BlockHeader::decode(block);
    let mut out: Vec<(u8, Vec<u8>)> = Vec::new();
    let mut chunk_off: usize = 1;
    while chunk_off <= 255
        invariant
            1 <= chunk_off <= 257,
            header.bitmap@ == block@.subrange(1, 33),
            out@.map_values(|e: (u8, Vec<u8>)| (e.0, e.1@)) + records_from(block@, chunk_off as int)
                == records_from(block@, 1),
        decreases 257 - chunk_off,
    {
        let ghost ov = out@.map_values(|e: (u8, Vec<u8>)| (e.0, e.1@));
        if !BlockAllocator::test_bit(&header.bitmap, chunk_off) {
            chunk_off += 1;
            continue;
        }
        let start = chunk_off * 64;
        let chunk_type = block[start];
        if chunk_type == 0x00 {
            chunk_off += 1;
            continue;
        }
        if (chunk_type == 0x01 || chunk_type == 0x02) && chunk_off < 255 {
            let bytes = read_range(block, start, 128);
            out.push((chunk_off as u8, bytes));
            assert(out@.map_values(|e: (u8, Vec<u8>)| (e.0, e.1@)) =~= ov.push((chunk_off as u8, bytes@)));
            assert(ov + records_from(block@, chunk_off as int) =~= ov.push((chunk_off as u8, bytes@))
                + records_from(block@, chunk_off + 2));
            chunk_off += 2;
        } else {
            let bytes = read_range(block, start, 64);
            out.push((chunk_off as u8, bytes));
            assert(out@.map_values(|e: (u8, Vec<u8>)| (e.0, e.1@)) =~= ov.push((chunk_off as u8, bytes@)));
            assert(ov + records_from(block@, chunk_off as int) =~= ov.push((chunk_off as u8, bytes@))
                + records_from(block@, chunk_off + 1));
            chunk_off += 1;
        }
    }
    assert(records_from(block@, chunk_off as int) =~= Seq::<(u8, Seq<u8>)>::empty());
    assert(out@.map_values(|e: (u8, Vec<u8>)| (e.0, e.1@)) + Seq::<(u8, Seq<u8>)>::empty() =~= out@.map_values(
        |e: (u8, Vec<u8>)| (e.0, e.1@),
    ));
    out
}

} // verus!
