//! Finding the records of a data block, from which the in-memory index is
//! rebuilt at startup.
//!
//! A record starts at a chunk whose bitmap bit is set and whose first byte
//! is a vertex, edge or token chunk type: a 64-byte data header, then
//! `payload_len` bytes of payload, over `chunks_needed(64 + payload_len)`
//! chunks.
use vstd::prelude::*;
use crate::storage::block_allocator::{chunks_for, is_set, BlockAllocator};
use crate::storage::index_file::read_chunk_at;
use crate::storage::types::{
    chunk_type_of_byte, data_header_of_bytes, ChunkType, DataHeader, BLOCK_SIZE, DATA_HEADER_SIZE,
};

verus! {

/// The number of chunks a record of `total_len` bytes takes: at most 255.
pub open spec fn record_chunks(total_len: int) -> int {
    if chunks_for(total_len) < 255 {
        chunks_for(total_len)
    } else {
        255
    }
}

/// The payload of the record of `total_len` bytes starting at chunk `co` of
/// block `b`: the bytes after its header, as far as the record's chunks and
/// the block go, padded with zeros to `total_len - 64` bytes.
pub open spec fn record_payload(b: Seq<u8>, co: int, total_len: int) -> Seq<u8> {
    let start = co * 64;
    let end = (co + record_chunks(total_len)) * 64;
    let avail = if end < BLOCK_SIZE {
        end
    } else {
        BLOCK_SIZE as int
    };
    let copy_len = if avail - start < total_len {
        avail - start
    } else {
        total_len
    };
    let record = b.subrange(start, start + copy_len) + Seq::new((total_len - copy_len) as nat, |i: int| 0u8);
    record.subrange(64, total_len)
}

/// A record found in a data block.
pub struct DataRecord {
    /// The chunk the record starts at.
    pub chunk_offset: u8,
    /// Its data header.
    pub header: DataHeader,
    /// Its payload.
    pub payload: Vec<u8>,
}

/// The records of data block `b` from chunk `co` on: (chunk, header,
/// payload).
pub open spec fn data_records_from(b: Seq<u8>, co: int) -> Seq<(u8, DataHeader, Seq<u8>)>
    decreases (if co < 256 {
        256 - co
    } else {
        0
    }),
{
    if co >= 256 || co < 1 {
        Seq::empty()
    } else if !is_set(b.subrange(1, 33), co) || chunk_type_of_byte(b[co * 64]) == ChunkType::Empty {
        data_records_from(b, co + 1)
    } else {
        let h = data_header_of_bytes(b.subrange(co * 64, co * 64 + 64));
        let total_len = 64 + h.payload_len;
        proof {
            assert(chunks_for(total_len) >= 1);
        }
        seq![(co as u8, h, record_payload(b, co, total_len))] + data_records_from(
            b,
            co + record_chunks(total_len),
        )
    }
}

/// Each record that a data-block scan from chunk `c` finds starts at an
/// allocated chunk, at or after `c`, whose type byte is a vertex, edge or
/// token (1, 2 or 3); its header is that chunk's 64 bytes, and its payload
/// the bytes that follow, as far as the header's payload length says.
pub proof fn lemma_data_records_start_at_records(b: Seq<u8>, c: int)
    ensures
        forall|i: int|
            0 <= i < data_records_from(b, c).len() ==> {
                let o = (#[trigger] data_records_from(b, c)[i]).0 as int;
                let h = data_records_from(b, c)[i].1;
                &&& 1 <= o <= 255
                &&& c <= o
                &&& is_set(b.subrange(1, 33), o)
                &&& (b[o * 64] == 1 || b[o * 64] == 2 || b[o * 64] == 3)
                &&& h == data_header_of_bytes(b.subrange(o * 64, o * 64 + 64))
                &&& data_records_from(b, c)[i].2 == record_payload(b, o, 64 + h.payload_len)
            },
    decreases (if c < 256 {
        256 - c
    } else {
        0
    }),
{
    if !(c >= 256 || c < 1) {
        let r = data_records_from(b, c);
        assert((c as u8) as int == c);
        if !is_set(b.subrange(1, 33), c) || chunk_type_of_byte(b[c * 64]) == ChunkType::Empty {
            lemma_data_records_start_at_records(b, c + 1);
            assert(r == data_records_from(b, c + 1));
        } else {
            let h = data_header_of_bytes(b.subrange(c * 64, c * 64 + 64));
            let total_len = 64 + h.payload_len;
            assert(chunks_for(total_len) >= 1);
            let next = c + record_chunks(total_len);
            lemma_data_records_start_at_records(b, next);
            let rest = data_records_from(b, next);
            let first = (c as u8, h, record_payload(b, c, total_len));
            assert(r == seq![first] + rest);
            assert forall|i: int| 0 <= i < r.len() implies {
                let o = (#[trigger] r[i]).0 as int;
                let hh = r[i].1;
                &&& 1 <= o <= 255
                &&& c <= o
                &&& is_set(b.subrange(1, 33), o)
                &&& (b[o * 64] == 1 || b[o * 64] == 2 || b[o * 64] == 3)
                &&& hh == data_header_of_bytes(b.subrange(o * 64, o * 64 + 64))
                &&& r[i].2 == record_payload(b, o, 64 + hh.payload_len)
            } by {
                if i == 0 {
                    assert(r[0] == first);
                } else {
                    assert(r[i] == rest[i - 1]);
                }
            }
        }
    }
}

/// Every allocated chunk from `c` on whose type byte is a vertex, edge or
/// token (1, 2 or 3) is found by a data-block scan from `c`: it starts a
/// record, or it lies inside the chunks of a record that starts before it.
/// Only chunks of no record type are passed over.
pub proof fn lemma_data_scan_finds_every_record(b: Seq<u8>, c: int, co: int)
    requires
        1 <= c <= co <= 255,
        is_set(b.subrange(1, 33), co),
        b[co * 64] == 1 || b[co * 64] == 2 || b[co * 64] == 3,
    ensures
        exists|i: int|
            0 <= i < data_records_from(b, c).len() && ((#[trigger] data_records_from(b, c)[i]).0 == co || (
            data_records_from(b, c)[i].0 < co < data_records_from(b, c)[i].0 + record_chunks(
                64 + data_records_from(b, c)[i].1.payload_len,
            ))),
    decreases 256 - c,
{
    let r = data_records_from(b, c);
    assert((c as u8) as int == c);
    if !is_set(b.subrange(1, 33), c) || chunk_type_of_byte(b[c * 64]) == ChunkType::Empty {
        assert(c != co);
        lemma_data_scan_finds_every_record(b, c + 1, co);
        assert(r == data_records_from(b, c + 1));
    } else {
        let h = data_header_of_bytes(b.subrange(c * 64, c * 64 + 64));
        let total_len = 64 + h.payload_len;
        assert(chunks_for(total_len) >= 1);
        let next = c + record_chunks(total_len);
        let rest = data_records_from(b, next);
        let first = (c as u8, h, record_payload(b, c, total_len));
        assert(r == seq![first] + rest);
        if co < next {
            assert(r[0] == first);
        } else {
            lemma_data_scan_finds_every_record(b, next, co);
            let i = choose|i: int|
                0 <= i < rest.len() && ((#[trigger] rest[i]).0 == co || (rest[i].0 < co < rest[i].0
                    + record_chunks(64 + rest[i].1.payload_len)));
            assert(r[i + 1] == rest[i]);
        }
    }
}

/// The payload of the record of `total_len` bytes at chunk `co`.
fn copy_payload(block: &[u8; BLOCK_SIZE], co: usize, total_len: usize, chunks: usize) -> (r: Vec<u8>)
    requires
        1 <= co < 256,
        64 <= total_len <= 64 + 0xffff,
        chunks == record_chunks(total_len as int),
    ensures
        r@ == record_payload(block@, co as int, total_len as int),
{
    let start = co * 64;
    let end = (co + chunks) * 64;
    let avail = if end < BLOCK_SIZE {
        end
    } else {
        BLOCK_SIZE
    };
    let copy_len = if avail - start < total_len {
        avail - start
    } else {
        total_len
    };
    let mut record: Vec<u8> = Vec::new();
    let mut i: usize = 0;
    while i < total_len
        invariant
            i <= total_len,
            start + copy_len <= BLOCK_SIZE,
            copy_len <= total_len,
            record@.len() == i,
            forall|j: int| 0 <= j < i ==> #[trigger] record@[j] == if j < copy_len {
                block@[start + j]
            } else {
                0u8
            },
        decreases total_len - i,
    {
        if i < copy_len {
            record.push(block[start + i]);
        } else {
            record.push(0u8);
        }
        i += 1;
    }
    let ghost full = block@.subrange(start as int, start + copy_len) + Seq::new(
        (total_len - copy_len) as nat,
        |i: int| 0u8,
    );
    assert(record@ =~= full);
    let mut payload: Vec<u8> = Vec::new();
    let mut k: usize = 64;
    while k < total_len
        invariant
            64 <= k <= total_len,
            record@.len() == total_len,
            payload@ == record@.subrange(64, k as int),
        decreases total_len - k,
    {
        payload.push(record[k]);
        k += 1;
        assert(payload@ =~= record@.subrange(64, k as int));
    }
    payload
}

/// The records of a data block, in chunk order.
pub fn scan_data_block(block: &[u8; BLOCK_SIZE]) -> (r: Vec<DataRecord>)
    ensures
        r@.map_values(|d: DataRecord| (d.chunk_offset, d.header, d.payload@)) == data_records_from(
            block@,
            1,
        ),
{
    let mut out: Vec<DataRecord> = Vec::new();
    let mut co: usize = 1;
    let mut bitmap = [0u8; 32];
    let mut i: usize = 0;
    while i < 32
        invariant
            i <= 32,
            forall|j: int| 0 <= j < i ==> bitmap@[j] == block@[1 + j],
        decreases 32 - i,
    {
        bitmap[i] = block[1 + i];
        i += 1;
    }
    assert(bitmap@ =~= block@.subrange(1, 33));
    while co < 256
        invariant
            1 <= co,
            bitmap@ == block@.subrange(1, 33),
            out@.map_values(|d: DataRecord| (d.chunk_offset, d.header, d.payload@)) + data_records_from(
                block@,
                co as int,
            ) == data_records_from(block@, 1),
        decreases (if co < 256 {
            256 - co
        } else {
            0
        }),
    {
        let ghost ov = out@.map_values(|d: DataRecord| (d.chunk_offset, d.header, d.payload@));
        if !BlockAllocator::test_bit(&bitmap, co) {
            co += 1;
            continue;
        }
        let first = block[co * 64];
        if first != 0x01 && first != 0x02 && first != 0x03 {
            assert(chunk_type_of_byte(first) == ChunkType::Empty);
            co += 1;
            continue;
        }
        assert(chunk_type_of_byte(first) != ChunkType::Empty);
        let hb = read_chunk_at(block, co as u8);
        let header = DataHeader::decode(&hb);
        let total_len = DATA_HEADER_SIZE + header.payload_len as usize;
        let chunks = BlockAllocator::chunks_needed(total_len) as usize;
        assert(chunks_for(total_len as int) >= 1);
        assert(chunks >= 1);
        let payload = copy_payload(block, co, total_len, chunks);
        out.push(DataRecord { chunk_offset: co as u8, header, payload });
        proof {
            let rec = (co as u8, header, payload@);
            assert(out@.map_values(|d: DataRecord| (d.chunk_offset, d.header, d.payload@)) =~= ov.push(rec));
            assert(ov + data_records_from(block@, co as int) =~= ov.push(rec) + data_records_from(
                block@,
                co + chunks,
            ));
        }
        co += chunks;
    }
    assert(data_records_from(block@, co as int) =~= Seq::<(u8, DataHeader, Seq<u8>)>::empty());
    assert(out@.map_values(|d: DataRecord| (d.chunk_offset, d.header, d.payload@)) + Seq::<
        (u8, DataHeader, Seq<u8>),
    >::empty() =~= out@.map_values(|d: DataRecord| (d.chunk_offset, d.header, d.payload@)));
    out
}

} // verus!
