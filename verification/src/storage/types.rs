//! Fundamental types for the block-based storage engine.
use crate::storage::codec::{copy_into, get_u16, get_u32, get_u64, push_slice, push_u16, push_u32, push_u64};
use vstd::bytes::*;
use vstd::prelude::*;

verus! {

/// Total size of one data/index block: 16 KB.
pub const BLOCK_SIZE: usize = 16384;

/// Size of one allocation unit within a block: 64 B.
pub const CHUNK_SIZE: usize = 64;

/// How many chunks fit in one block (16384 / 64 = 256).
pub const CHUNKS_PER_BLOCK: usize = 256;

/// The first chunk (bytes 0..64) is always the block header.
pub const BLOCK_HEADER_SIZE: usize = 64;

/// Size of the fixed data header at the start of every data record (1 chunk).
pub const DATA_HEADER_SIZE: usize = 64;

/// What kind of record lives in an index chunk.
#[derive(Clone, Copy, Debug, PartialEq, Eq, Structural)]
pub enum ChunkType {
    Empty,
    Vertex,
    Edge,
    Token,
}

/// The byte that stands for a chunk type in binary layouts.
pub open spec fn chunk_type_byte(t: ChunkType) -> u8 {
    match t {
        ChunkType::Empty => 0x00,
        ChunkType::Vertex => 0x01,
        ChunkType::Edge => 0x02,
        ChunkType::Token => 0x03,
    }
}

/// The chunk type a byte decodes to: unknown bytes decode to `Empty`.
pub open spec fn chunk_type_of_byte(v: u8) -> ChunkType {
    if v == 0x01 {
        ChunkType::Vertex
    } else if v == 0x02 {
        ChunkType::Edge
    } else if v == 0x03 {
        ChunkType::Token
    } else {
        ChunkType::Empty
    }
}

impl From<u8> for ChunkType {
    fn from(v: u8) -> (t: ChunkType) {
        ChunkType::from_u8(v)
    }
}

impl vstd::std_specs::convert::FromSpecImpl<u8> for ChunkType {
    open spec fn obeys_from_spec() -> bool {
        true
    }

    open spec fn from_spec(v: u8) -> ChunkType {
        chunk_type_of_byte(v)
    }
}

impl ChunkType {
    pub fn from_u8(v: u8) -> (t: ChunkType)
        ensures
            t == chunk_type_of_byte(v),
    {
        match v {
            0x01 => ChunkType::Vertex,
            0x02 => ChunkType::Edge,
            0x03 => ChunkType::Token,
            _ => ChunkType::Empty,
        }
    }

    pub fn to_u8(&self) -> (b: u8)
        ensures
            b == chunk_type_byte(*self),
    {
        match self {
            ChunkType::Empty => 0x00,
            ChunkType::Vertex => 0x01,
            ChunkType::Edge => 0x02,
            ChunkType::Token => 0x03,
        }
    }
}


/// Data visibility status in an index record.
#[derive(Clone, Copy, Debug, PartialEq, Eq, Structural)]
pub enum DataStatus {
    Normal,
    Deleted,
}

pub open spec fn data_status_byte(s: DataStatus) -> u8 {
    match s {
        DataStatus::Normal => 0x00,
        DataStatus::Deleted => 0x01,
    }
}

/// Byte 0x01 decodes to `Deleted`, every other byte to `Normal`.
pub open spec fn data_status_of_byte(v: u8) -> DataStatus {
    if v == 0x01 {
        DataStatus::Deleted
    } else {
        DataStatus::Normal
    }
}

impl DataStatus {
    pub fn from_u8(v: u8) -> (s: DataStatus)
        ensures
            s == data_status_of_byte(v),
    {
        if v == 0x01 {
            DataStatus::Deleted
        } else {
            DataStatus::Normal
        }
    }

    pub fn to_u8(&self) -> (b: u8)
        ensures
            b == data_status_byte(*self),
    {
        match self {
            DataStatus::Normal => 0x00,
            DataStatus::Deleted => 0x01,
        }
    }
}

impl From<u8> for DataStatus {
    fn from(v: u8) -> (s: DataStatus) {
        DataStatus::from_u8(v)
    }
}

impl vstd::std_specs::convert::FromSpecImpl<u8> for DataStatus {
    open spec fn obeys_from_spec() -> bool {
        true
    }

    open spec fn from_spec(v: u8) -> DataStatus {
        data_status_of_byte(v)
    }
}

/// Whether a cached block is clean or needs flushing.
#[derive(Clone, Copy, Debug, PartialEq, Eq, Structural)]
pub enum BlockStatus {
    Normal,
    Dirty,
}

pub open spec fn block_status_byte(s: BlockStatus) -> u8 {
    match s {
        BlockStatus::Normal => 0x00,
        BlockStatus::Dirty => 0x01,
    }
}

/// Byte 0x01 decodes to `Dirty`, every other byte to `Normal`.
pub open spec fn block_status_of_byte(v: u8) -> BlockStatus {
    if v == 0x01 {
        BlockStatus::Dirty
    } else {
        BlockStatus::Normal
    }
}

impl BlockStatus {
    pub fn from_u8(v: u8) -> (s: BlockStatus)
        ensures
            s == block_status_of_byte(v),
    {
        if v == 0x01 {
            BlockStatus::Dirty
        } else {
            BlockStatus::Normal
        }
    }

    pub fn to_u8(&self) -> (b: u8)
        ensures
            b == block_status_byte(*self),
    {
        match self {
            BlockStatus::Normal => 0x00,
            BlockStatus::Dirty => 0x01,
        }
    }
}

impl From<u8> for BlockStatus {
    fn from(v: u8) -> (s: BlockStatus) {
        BlockStatus::from_u8(v)
    }
}

impl vstd::std_specs::convert::FromSpecImpl<u8> for BlockStatus {
    open spec fn obeys_from_spec() -> bool {
        true
    }

    open spec fn from_spec(v: u8) -> BlockStatus {
        block_status_of_byte(v)
    }
}

/// Redo-log operation type.
#[derive(Clone, Copy, Debug, PartialEq, Eq, Structural)]
pub enum OpType {
    VertexCreate,
    VertexDelete,
    VertexUpdate,
    EdgeCreate,
    EdgeDelete,
    EdgeUpdate,
    TokenCreate,
    TokenUpdate,
    TokenDelete,
}

pub open spec fn op_type_byte(t: OpType) -> u8 {
    match t {
        OpType::VertexCreate => 0x00,
        OpType::VertexDelete => 0x01,
        OpType::VertexUpdate => 0x02,
        OpType::EdgeCreate => 0x03,
        OpType::EdgeDelete => 0x04,
        OpType::EdgeUpdate => 0x05,
        OpType::TokenCreate => 0x06,
        OpType::TokenUpdate => 0x07,
        OpType::TokenDelete => 0x08,
    }
}

/// The operation a byte stands for; bytes above 0x08 stand for none.
pub open spec fn op_type_of_byte(v: u8) -> Option<OpType> {
    if v == 0x00 {
        Some(OpType::VertexCreate)
    } else if v == 0x01 {
        Some(OpType::VertexDelete)
    } else if v == 0x02 {
        Some(OpType::VertexUpdate)
    } else if v == 0x03 {
        Some(OpType::EdgeCreate)
    } else if v == 0x04 {
        Some(OpType::EdgeDelete)
    } else if v == 0x05 {
        Some(OpType::EdgeUpdate)
    } else if v == 0x06 {
        Some(OpType::TokenCreate)
    } else if v == 0x07 {
        Some(OpType::TokenUpdate)
    } else if v == 0x08 {
        Some(OpType::TokenDelete)
    } else {
        None
    }
}

impl OpType {
    pub fn from_u8(v: u8) -> (r: Option<OpType>)
        ensures
            r == op_type_of_byte(v),
    {
        match v {
            0x00 => Some(OpType::VertexCreate),
            0x01 => Some(OpType::VertexDelete),
            0x02 => Some(OpType::VertexUpdate),
            0x03 => Some(OpType::EdgeCreate),
            0x04 => Some(OpType::EdgeDelete),
            0x05 => Some(OpType::EdgeUpdate),
            0x06 => Some(OpType::TokenCreate),
            0x07 => Some(OpType::TokenUpdate),
            0x08 => Some(OpType::TokenDelete),
            _ => None,
        }
    }

    pub fn to_u8(&self) -> (b: u8)
        ensures
            b == op_type_byte(*self),
    {
        match self {
            OpType::VertexCreate => 0x00,
            OpType::VertexDelete => 0x01,
            OpType::VertexUpdate => 0x02,
            OpType::EdgeCreate => 0x03,
            OpType::EdgeDelete => 0x04,
            OpType::EdgeUpdate => 0x05,
            OpType::TokenCreate => 0x06,
            OpType::TokenUpdate => 0x07,
            OpType::TokenDelete => 0x08,
        }
    }
}

impl TryFrom<u8> for OpType {
    type Error = ();

    fn try_from(v: u8) -> (r: Result<OpType, ()>) {
        match OpType::from_u8(v) {
            Some(t) => Ok(t),
            None => Err(()),
        }
    }
}

impl vstd::std_specs::convert::TryFromSpecImpl<u8> for OpType {
    open spec fn obeys_try_from_spec() -> bool {
        true
    }

    open spec fn try_from_spec(v: u8) -> Result<OpType, ()> {
        match op_type_of_byte(v) {
            Some(t) => Ok(t),
            None => Err(()),
        }
    }
}

/// Every operation type survives a trip through its byte.
pub proof fn lemma_op_type_byte_roundtrip(t: OpType)
    ensures
        op_type_of_byte(op_type_byte(t)) == Some(t),
{
}

/// Every chunk type survives a trip through its byte.
pub proof fn lemma_chunk_type_byte_roundtrip(t: ChunkType)
    ensures
        chunk_type_of_byte(chunk_type_byte(t)) == t,
{
}

// ── Block header ─────────────────────────────────────────────────────────────

/// First 64 bytes of every 16 KB data/index block.
///
/// The `bitmap` field uses 256 bits — one per chunk. Bit 0 is reserved for the
/// header chunk itself and should always be set.
#[derive(Clone, Debug)]
pub struct BlockHeader {
    /// Allocation cursor: next free 1-based chunk offset to scan from.
    pub offset: u8,
    /// 256-bit bitmap: 1 = allocated, 0 = free. Bit 0 reserved for header.
    pub bitmap: [u8; 32],
    /// Block status (Normal / Dirty).
    pub status: BlockStatus,
    /// Last-update timestamp in microseconds.
    pub timestamp: u64,
    /// Reserved for future use.
    pub padding: [u8; 22],
}

/// The 42 bytes that encode a block header:
/// `[0]` offset, `[1..33]` bitmap, `[33]` status, `[34..42]` timestamp (LE).
pub open spec fn block_header_bytes(h: BlockHeader) -> Seq<u8> {
    seq![h.offset] + h.bitmap@ + seq![block_status_byte(h.status)] + spec_u64_to_le_bytes(
        h.timestamp,
    )
}

impl BlockHeader {
    /// Encode the header into the first 42 bytes of a block buffer; the other
    /// bytes keep their value.
    pub fn encode(&self, buf: &mut [u8; BLOCK_SIZE])
        ensures
            final(buf)@ == block_header_bytes(*self) + old(buf)@.subrange(42, BLOCK_SIZE as int),
    {
        let mut v: Vec<u8> = Vec::new();
        v.push(self.offset);
        push_slice(&mut v, self.bitmap.as_slice());
        v.push(self.status.to_u8());
        push_u64(&mut v, self.timestamp);
        proof {
            lemma_auto_spec_u64_to_from_le_bytes();
            assert(v@ =~= block_header_bytes(*self));
        }
        copy_into(buf, 0, v.as_slice());
        assert(old(buf)@.subrange(0, 0) + v@ =~= v@);
    }

    /// Decode the header from the first 42 bytes of a block buffer.
    pub fn decode(buf: &[u8; BLOCK_SIZE]) -> (h: BlockHeader)
        ensures
            h.offset == buf@[0],
            h.bitmap@ == buf@.subrange(1, 33),
            h.status == block_status_of_byte(buf@[33]),
            h.timestamp == spec_u64_from_le_bytes(buf@.subrange(34, 42)),
            h.padding@ == seq![0u8; 22],
    {
        let mut bitmap = [0u8; 32];
        let mut i: usize = 0;
        while i < 32
            invariant
                i <= 32,
                forall|j: int| 0 <= j < i ==> bitmap@[j] == buf@[1 + j],
            decreases 32 - i,
        {
            bitmap[i] = buf[1 + i];
            i += 1;
        }
        assert(bitmap@ =~= buf@.subrange(1, 33));
        let padding = [0u8; 22];
        assert(padding@ =~= seq![0u8; 22]);
        BlockHeader {
            offset: buf[0],
            bitmap,
            status: BlockStatus::from_u8(buf[33]),
            timestamp: get_u64(buf, 34),
            padding,
        }
    }

    /// Create a fresh header for a newly allocated block: cursor at 1, only
    /// the header bit allocated, status `Normal`, timestamp 0.
    pub fn fresh() -> (h: BlockHeader)
        ensures
            h.offset == 1,
            h.bitmap@ == seq![1u8] + seq![0u8; 31],
            h.status == BlockStatus::Normal,
            h.timestamp == 0,
            h.padding@ == seq![0u8; 22],
    {
        let mut bitmap = [0u8; 32];
        bitmap[0] = 0x01;
        let padding = [0u8; 22];
        assert(bitmap@ =~= seq![1u8] + seq![0u8; 31]);
        assert(padding@ =~= seq![0u8; 22]);
        BlockHeader { offset: 1, bitmap, status: BlockStatus::Normal, timestamp: 0, padding }
    }
}

/// Reading back a block header gives every field that was written; the
/// padding, which is not stored, reads back as zeros.
pub proof fn lemma_block_header_roundtrip(h: BlockHeader, rest: Seq<u8>)
    ensures
        ({
            let b = block_header_bytes(h) + rest;
            &&& b[0] == h.offset
            &&& b.subrange(1, 33) == h.bitmap@
            &&& block_status_of_byte(b[33]) == h.status
            &&& spec_u64_from_le_bytes(b.subrange(34, 42)) == h.timestamp
        }),
{
    lemma_auto_spec_u64_to_from_le_bytes();
    let b = block_header_bytes(h) + rest;
    assert(b.subrange(1, 33) =~= h.bitmap@);
    assert(b.subrange(34, 42) =~= spec_u64_to_le_bytes(h.timestamp));
}

// ── Data header ──────────────────────────────────────────────────────────────

/// Fixed 64-byte header at the start of every data record in the data file.
///
/// Layout: `[0]` chunk_type, `[1]` status, `[2..4]` version, `[4..8]`
/// entity_id, `[8..16]` ctime, `[16..24]` mtime, `[24..32]` atime,
/// `[32..36]` rank, `[36..38]` payload_len (all LE), `[38..64]` padding.
#[derive(Clone, Copy, Debug, PartialEq, Eq, Structural)]
pub struct DataHeader {
    pub chunk_type: ChunkType,
    pub status: DataStatus,
    pub version: u16,
    pub entity_id: u32,
    pub ctime: u64,
    pub mtime: u64,
    pub atime: u64,
    pub rank: u32,
    pub payload_len: u16,
}

/// The 38 bytes that encode a data header.
pub open spec fn data_header_bytes(h: DataHeader) -> Seq<u8> {
    seq![chunk_type_byte(h.chunk_type), data_status_byte(h.status)] + spec_u16_to_le_bytes(
        h.version,
    ) + spec_u32_to_le_bytes(h.entity_id) + spec_u64_to_le_bytes(h.ctime) + spec_u64_to_le_bytes(
        h.mtime,
    ) + spec_u64_to_le_bytes(h.atime) + spec_u32_to_le_bytes(h.rank) + spec_u16_to_le_bytes(
        h.payload_len,
    )
}

/// The data header that a 64-byte chunk decodes to.
pub open spec fn data_header_of_bytes(b: Seq<u8>) -> DataHeader {
    DataHeader {
        chunk_type: chunk_type_of_byte(b[0]),
        status: data_status_of_byte(b[1]),
        version: spec_u16_from_le_bytes(b.subrange(2, 4)),
        entity_id: spec_u32_from_le_bytes(b.subrange(4, 8)),
        ctime: spec_u64_from_le_bytes(b.subrange(8, 16)),
        mtime: spec_u64_from_le_bytes(b.subrange(16, 24)),
        atime: spec_u64_from_le_bytes(b.subrange(24, 32)),
        rank: spec_u32_from_le_bytes(b.subrange(32, 36)),
        payload_len: spec_u16_from_le_bytes(b.subrange(36, 38)),
    }
}

/// A fresh vertex or edge header created at time `now`.
pub open spec fn fresh_entity_header(kind: ChunkType, id: u32, payload_len: u16, now: u64) -> DataHeader {
    DataHeader {
        chunk_type: kind,
        status: DataStatus::Normal,
        version: 1,
        entity_id: id,
        ctime: now,
        mtime: now,
        atime: now,
        rank: 1,
        payload_len,
    }
}

/// A fresh token header created at time `now`.
pub open spec fn fresh_token_header(id: u32, payload_len: u16, now: u64) -> DataHeader {
    DataHeader {
        chunk_type: ChunkType::Token,
        status: DataStatus::Normal,
        version: 0,
        entity_id: id,
        ctime: now,
        mtime: 0,
        atime: 0,
        rank: 0,
        payload_len,
    }
}

impl DataHeader {
    /// A vertex header created at time `now`.
    pub fn new_vertex_at(vid: u32, payload_len: u16, now: u64) -> (h: DataHeader)
        ensures
            h == fresh_entity_header(ChunkType::Vertex, vid, payload_len, now),
    {
        DataHeader {
            chunk_type: ChunkType::Vertex,
            status: DataStatus::Normal,
            version: 1,
            entity_id: vid,
            ctime: now,
            mtime: now,
            atime: now,
            rank: 1,
            payload_len,
        }
    }

    /// A vertex header stamped with the current time.
    pub fn new_vertex(vid: u32, payload_len: u16) -> (h: DataHeader)
        ensures
            h == fresh_entity_header(ChunkType::Vertex, vid, payload_len, h.ctime),
    {
        Self::new_vertex_at(vid, payload_len, timestamp_us())
    }

    /// An edge header created at time `now`.
    pub fn new_edge_at(eid: u32, payload_len: u16, now: u64) -> (h: DataHeader)
        ensures
            h == fresh_entity_header(ChunkType::Edge, eid, payload_len, now),
    {
        DataHeader {
            chunk_type: ChunkType::Edge,
            status: DataStatus::Normal,
            version: 1,
            entity_id: eid,
            ctime: now,
            mtime: now,
            atime: now,
            rank: 1,
            payload_len,
        }
    }

    /// An edge header stamped with the current time.
    pub fn new_edge(eid: u32, payload_len: u16) -> (h: DataHeader)
        ensures
            h == fresh_entity_header(ChunkType::Edge, eid, payload_len, h.ctime),
    {
        Self::new_edge_at(eid, payload_len, timestamp_us())
    }

    /// A token header created at time `now`.
    pub fn new_token_at(tid: u32, payload_len: u16, now: u64) -> (h: DataHeader)
        ensures
            h == fresh_token_header(tid, payload_len, now),
    {
        DataHeader {
            chunk_type: ChunkType::Token,
            status: DataStatus::Normal,
            version: 0,
            entity_id: tid,
            ctime: now,
            mtime: 0,
            atime: 0,
            rank: 0,
            payload_len,
        }
    }

    /// A token header stamped with the current time.
    pub fn new_token(tid: u32, payload_len: u16) -> (h: DataHeader)
        ensures
            h == fresh_token_header(tid, payload_len, h.ctime),
    {
        Self::new_token_at(tid, payload_len, timestamp_us())
    }

    /// Encode into a 64-byte chunk buffer; bytes 38..64 keep their value.
    pub fn encode(&self, buf: &mut [u8; 64])
        ensures
            final(buf)@ == data_header_bytes(*self) + old(buf)@.subrange(38, 64),
    {
        let mut v: Vec<u8> = Vec::new();
        v.push(self.chunk_type.to_u8());
        v.push(self.status.to_u8());
        push_u16(&mut v, self.version);
        push_u32(&mut v, self.entity_id);
        push_u64(&mut v, self.ctime);
        push_u64(&mut v, self.mtime);
        push_u64(&mut v, self.atime);
        push_u32(&mut v, self.rank);
        push_u16(&mut v, self.payload_len);
        proof {
            lemma_auto_spec_u16_to_from_le_bytes();
            lemma_auto_spec_u32_to_from_le_bytes();
            lemma_auto_spec_u64_to_from_le_bytes();
            assert(v@ =~= data_header_bytes(*self));
        }
        copy_into(buf, 0, v.as_slice());
        assert(old(buf)@.subrange(0, 0) + v@ =~= v@);
    }

    /// Decode from a 64-byte chunk buffer.
    pub fn decode(buf: &[u8; 64]) -> (h: DataHeader)
        ensures
            h == data_header_of_bytes(buf@),
    {
        DataHeader {
            chunk_type: ChunkType::from_u8(buf[0]),
            status: DataStatus::from_u8(buf[1]),
            version: get_u16(buf, 2),
            entity_id: get_u32(buf, 4),
            ctime: get_u64(buf, 8),
            mtime: get_u64(buf, 16),
            atime: get_u64(buf, 24),
            rank: get_u32(buf, 32),
            payload_len: get_u16(buf, 36),
        }
    }
}

/// Reading back a data header gives exactly the header that was written.
pub proof fn lemma_data_header_roundtrip(h: DataHeader, rest: Seq<u8>)
    ensures
        data_header_of_bytes(data_header_bytes(h) + rest) == h,
{
    lemma_auto_spec_u16_to_from_le_bytes();
    lemma_auto_spec_u32_to_from_le_bytes();
    lemma_auto_spec_u64_to_from_le_bytes();
    let b = data_header_bytes(h) + rest;
    assert(b.subrange(2, 4) =~= spec_u16_to_le_bytes(h.version));
    assert(b.subrange(4, 8) =~= spec_u32_to_le_bytes(h.entity_id));
    assert(b.subrange(8, 16) =~= spec_u64_to_le_bytes(h.ctime));
    assert(b.subrange(16, 24) =~= spec_u64_to_le_bytes(h.mtime));
    assert(b.subrange(24, 32) =~= spec_u64_to_le_bytes(h.atime));
    assert(b.subrange(32, 36) =~= spec_u32_to_le_bytes(h.rank));
    assert(b.subrange(36, 38) =~= spec_u16_to_le_bytes(h.payload_len));
}


// ── Data payloads ────────────────────────────────────────────────────────────

/// Token payload — maps a token ID to its references across vertices/edges.
#[derive(Clone, Debug)]
pub struct TokenPayload {
    pub id: u32,
    pub token: String,
    pub refs: Vec<TokenRef>,
}

/// A reference from a token back to a vertex or edge.
#[derive(Clone, Debug)]
pub struct TokenRef {
    /// 0 = vertex, 1 = edge.
    pub ref_type: u8,
    pub ref_id: u32,
    pub ref_version: u16,
    pub ref_frequency: u16,
    pub hits: Vec<Hit>,
}

/// A specific hit position (key + offset) within a vertex/edge attribute.
#[derive(Clone, Debug)]
pub struct Hit {
    pub hit_key: String,
    pub hit_offset: u16,
}

/// A historical snapshot of vertex or edge data at a given timestamp.
#[derive(Clone, Debug)]
pub struct HistoryRecord {
    pub timestamp: u64,
    /// Raw serialized payload bytes.
    pub data: Vec<u8>,
}

/// A 16 KB block buffer for block I/O.
pub struct AlignedBlock(pub [u8; BLOCK_SIZE]);

impl AlignedBlock {
    /// A zero-filled block.
    pub fn new() -> (b: AlignedBlock)
        ensures
            b.0@ == seq![0u8; 16384],
    {
        let b = AlignedBlock([0u8; BLOCK_SIZE]);
        assert(b.0@ =~= seq![0u8; 16384]);
        b
    }

    pub fn as_bytes(&self) -> (r: &[u8; BLOCK_SIZE])
        ensures
            r@ == self.0@,
    {
        &self.0
    }

    pub fn as_mut_bytes(&mut self) -> (r: &mut [u8; BLOCK_SIZE])
        ensures
            r@ == old(self).0@,
            final(self).0@ == final(r)@,
    {
        &mut self.0
    }
}

impl Default for AlignedBlock {
    fn default() -> (b: AlignedBlock)
        ensures
            b.0@ == seq![0u8; 16384],
    {
        Self::new()
    }
}

#[verifier::external_type_specification]
#[verifier::external_body]
pub struct ExSystemTime(std::time::SystemTime);

/// `std::time::SystemTime::now`: the wall-clock time. Nothing is promised of
/// it.
#[verifier::external_body]
fn system_time_now() -> std::time::SystemTime {
    std::time::SystemTime::now()
}

/// `SystemTime::duration_since`, from `std::time::UNIX_EPOCH`: the time
/// since the epoch, `None` when `t` lies before it. Nothing is promised of
/// which of the two comes back, nor of the duration.
#[verifier::external_body]
fn since_unix_epoch(t: &std::time::SystemTime) -> Option<core::time::Duration> {
    t.duration_since(std::time::UNIX_EPOCH).ok()
}

/// `Duration::as_micros`: the whole microseconds of `d`. Nothing is promised
/// of the value, as `Duration` is opaque here.
#[verifier::external_body]
fn duration_micros(d: &core::time::Duration) -> u128 {
    d.as_micros()
}

/// Current wall-clock time in microseconds since the Unix epoch, cut to its
/// low 64 bits; zero when the clock is before the epoch.
pub fn timestamp_us() -> u64 {
    let now = system_time_now();
    match since_unix_epoch(&now) {
        Some(d) => {
            let us = duration_micros(&d);
            us as u64
        },
        None => 0,
    }
}

} // verus!
