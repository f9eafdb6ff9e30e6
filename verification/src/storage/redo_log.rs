//! The redo log (write-ahead log) entry format, and the decisions of its
//! writer.
//!
//! Each entry of a redo log file is:
//!
//! | Field | Type | Size |
//! |-------|------|------|
//! | op_type | u8 | 1 |
//! | op_id | u64 (LE) | 8 |
//! | data_len | u32 (LE) | 4 |
//! | data | bytes | data_len |
//! | crc32 | u32 (LE) | 4 |
//!
//! The CRC32 covers the first four fields. A file is a sequence of entries;
//! fewer than 13 bytes left where a header would start is the end of the
//! file.
use vstd::bytes::*;
use vstd::prelude::*;
use vstd::string::StringSliceAdditionalSpecFns;
use crate::storage::codec::{push_slice, push_u32, push_u64};
use crate::storage::types::{lemma_op_type_byte_roundtrip, op_type_byte, op_type_of_byte, OpType};

verus! {

/// Default rotation threshold: 64 MB.
pub const ROTATION_THRESHOLD: u64 = 67108864;

/// Default batch size: up to 128 entries are written together.
pub const DEFAULT_BATCH_SIZE: usize = 128;

/// Bytes of an entry before its data: op_type (1) + op_id (8) + data_len (4).
pub const ENTRY_HEADER_LEN: usize = 13;

/// Bytes of an entry besides its data: the header and the CRC32 (4).
pub const ENTRY_OVERHEAD: usize = 17;

/// One step of a bit-reflected CRC-32 register: shift right by one, and
/// add the IEEE polynomial (0xEDB88320) when the bit shifted out was set.
pub open spec fn crc32_shift(c: u32) -> u32 {
    if c & 1 == 1 {
        (c >> 1u32) ^ 0xEDB8_8320u32
    } else {
        c >> 1u32
    }
}

/// The register `c` after `k` steps.
pub open spec fn crc32_shifts(c: u32, k: nat) -> u32
    decreases k,
{
    if k == 0 {
        c
    } else {
        crc32_shifts(crc32_shift(c), (k - 1) as nat)
    }
}

/// The register `c` after byte `b` goes in.
pub open spec fn crc32_byte(c: u32, b: u8) -> u32 {
    crc32_shifts(c ^ (b as u32), 8)
}

/// The register after `bytes` went in, one by one, from all ones.
pub open spec fn crc32_register(bytes: Seq<u8>) -> u32
    decreases bytes.len(),
{
    if bytes.len() == 0 {
        0xFFFF_FFFFu32
    } else {
        crc32_byte(crc32_register(bytes.drop_last()), bytes.last())
    }
}

/// The CRC-32 (IEEE) checksum of `bytes`: the final register, inverted.
pub open spec fn crc32_of(bytes: Seq<u8>) -> u32 {
    crc32_register(bytes) ^ 0xFFFF_FFFFu32
}

/// `crc32fast::hash`: the CRC-32 (IEEE) checksum of `bytes` (initial value
/// all ones, reflected polynomial 0xEDB88320, result inverted), which the
/// crate computes with tables, several bytes at a time.
#[verifier::external_body]
pub(crate) fn crc32(bytes: &[u8]) -> (c: u32)
    ensures
        c == crc32_of(bytes@),
{
    crc32fast::hash(bytes)
}

/// A single redo log entry.
#[derive(Clone, Debug)]
pub struct RedoLogEntry {
    pub op_type: OpType,
    pub op_id: u64,
    pub data: Vec<u8>,
}

/// An entry by its contents: (op_type, op_id, data).
pub type EntryView = (OpType, u64, Seq<u8>);

impl View for RedoLogEntry {
    type V = EntryView;

    open spec fn view(&self) -> EntryView {
        (self.op_type, self.op_id, self.data@)
    }
}

/// The data length as the 32-bit field stores it (truncated to its low
/// 32 bits).
pub open spec fn stored_len(n: nat) -> u32 {
    n as u32
}

/// The bytes an entry's CRC32 covers.
pub open spec fn entry_body(op: OpType, id: u64, data: Seq<u8>) -> Seq<u8> {
    seq![op_type_byte(op)] + spec_u64_to_le_bytes(id) + spec_u32_to_le_bytes(stored_len(data.len()))
        + data
}

/// The bytes of an entry.
pub open spec fn entry_bytes(op: OpType, id: u64, data: Seq<u8>) -> Seq<u8> {
    entry_body(op, id, data) + spec_u32_to_le_bytes(crc32_of(entry_body(op, id, data)))
}

/// The bytes of a sequence of entries, one after another.
pub open spec fn log_bytes(es: Seq<EntryView>) -> Seq<u8>
    decreases es.len(),
{
    if es.len() == 0 {
        Seq::empty()
    } else {
        entry_bytes(es[0].0, es[0].1, es[0].2) + log_bytes(es.drop_first())
    }
}

/// Encode a single log entry into its binary representation.
pub fn encode_entry(op_type: OpType, op_id: u64, data: &[u8]) -> (r: Vec<u8>)
    ensures
        r@ == entry_bytes(op_type, op_id, data@),
{
    let mut buf: Vec<u8> = Vec::new();
    buf.push(op_type.to_u8());
    push_u64(&mut buf, op_id);
    #[verifier::truncate]
    let len32 = data.len() as u32;
    push_u32(&mut buf, len32);
    push_slice(&mut buf, data);
    let crc = crc32(buf.as_slice());
    push_u32(&mut buf, crc);
    buf
}

/// Why a redo log file could not be read to its end.
#[derive(Clone, Copy, Debug, PartialEq, Eq, Structural)]
pub enum ReplayErrorKind {
    /// The file ends inside an entry's data or CRC32.
    Truncated,
    /// The stored CRC32 is not that of the entry's bytes.
    CrcMismatch { stored: u32, computed: u32 },
    /// The op_type byte stands for no operation.
    UnknownOpType(u8),
}

/// A replay error at entry `seq` (counted from 0 in its file).
#[derive(Clone, Copy, Debug, PartialEq, Eq, Structural)]
pub struct ReplayError {
    pub seq: u64,
    pub kind: ReplayErrorKind,
}

/// What reading an entry at the start of some bytes gives.
pub enum StepSpec {
    /// Fewer than 13 bytes: the end of the file.
    End,
    /// An entry of `len` bytes.
    Entry { op: OpType, id: u64, data: Seq<u8>, len: int },
    /// An entry that cannot be read.
    Failed(ReplayErrorKind),
}

/// Reading an entry at the start of `b`.
pub open spec fn step(b: Seq<u8>) -> StepSpec {
    if b.len() < 13 {
        StepSpec::End
    } else {
        let op_byte = b[0];
        let id = spec_u64_from_le_bytes(b.subrange(1, 9));
        let dlen = spec_u32_from_le_bytes(b.subrange(9, 13)) as int;
        if b.len() < 13 + dlen + 4 {
            StepSpec::Failed(ReplayErrorKind::Truncated)
        } else {
            let stored = spec_u32_from_le_bytes(b.subrange(13 + dlen, 17 + dlen));
            let computed = crc32_of(b.subrange(0, 13 + dlen));
            if stored != computed {
                StepSpec::Failed(ReplayErrorKind::CrcMismatch { stored, computed })
            } else {
                match op_type_of_byte(op_byte) {
                    None => StepSpec::Failed(ReplayErrorKind::UnknownOpType(op_byte)),
                    Some(op) => StepSpec::Entry { op, id, data: b.subrange(13, 13 + dlen), len: 17 + dlen },
                }
            }
        }
    }
}

/// Reading the entries of `b` one after another: the entries read, and why
/// the reading stopped short of the end, if it did.
pub open spec fn decoded(b: Seq<u8>) -> (Seq<EntryView>, Option<ReplayErrorKind>)
    decreases b.len(),
{
    match step(b) {
        StepSpec::End => (Seq::empty(), None),
        StepSpec::Failed(k) => (Seq::empty(), Some(k)),
        StepSpec::Entry { op, id, data, len } => if 0 < len <= b.len() {
            let rest = decoded(b.skip(len));
            (seq![(op, id, data)] + rest.0, rest.1)
        } else {
            (Seq::empty(), None)
        },
    }
}

/// The outcome of reading one entry.
pub enum ParseStep {
    /// The end of the file.
    End,
    /// An entry, and the position just after it.
    Entry(RedoLogEntry, usize),
    /// An entry that cannot be read.
    Failed(ReplayErrorKind),
}

/// A copy of `b[at..at + len]`.
pub(crate) fn copy_range(b: &[u8], at: usize, len: usize) -> (r: Vec<u8>)
    requires
        at + len <= b@.len(),
    ensures
        r@ == b@.subrange(at as int, at + len),
{
    let mut r: Vec<u8> = Vec::new();
    let mut i: usize = 0;
    while i < len
        invariant
            i <= len,
            at + len <= b@.len(),
            b@.len() == b.len(),
            r@ == b@.subrange(at as int, at + i),
        decreases len - i,
    {
        r.push(b[at + i]);
        i += 1;
        assert(r@ =~= b@.subrange(at as int, at + i));
    }
    r
}

/// Read the entry that starts at `pos`.
pub fn parse_entry(bytes: &[u8], pos: usize) -> (r: ParseStep)
    requires
        pos <= bytes@.len(),
    ensures
        match (r, step(bytes@.skip(pos as int))) {
            (ParseStep::End, StepSpec::End) => true,
            (ParseStep::Entry(e, next), StepSpec::Entry { op, id, data, len }) => e@ == (op, id, data)
                && next == pos + len,
            (ParseStep::Failed(k), StepSpec::Failed(k2)) => k == k2,
            _ => false,
        },
{
    let ghost b = bytes@.skip(pos as int);
    let avail = bytes.len() - pos;
    if avail < 13 {
        return ParseStep::End;
    }
    let op_byte = bytes[pos];
    assert(bytes@.subrange(pos + 1, pos + 9) =~= b.subrange(1, 9));
    assert(bytes@.subrange(pos + 9, pos + 13) =~= b.subrange(9, 13));
    let op_id = u64_from_le_bytes(&bytes[pos + 1..pos + 9]);
    let data_len = u32_from_le_bytes(&bytes[pos + 9..pos + 13]) as usize;
    if avail - 13 < data_len || avail - 13 - data_len < 4 {
        return ParseStep::Failed(ReplayErrorKind::Truncated);
    }
    let data = copy_range(bytes, pos + 13, data_len);
    let crc_at = pos + 13 + data_len;
    assert(bytes@.subrange(crc_at as int, crc_at + 4) =~= b.subrange(13 + data_len, 17 + data_len));
    let stored = u32_from_le_bytes(&bytes[crc_at..crc_at + 4]);
    let mut crc_buf: Vec<u8> = Vec::new();
    crc_buf.push(op_byte);
    push_u64(&mut crc_buf, op_id);
    push_u32(&mut crc_buf, data_len as u32);
    push_slice(&mut crc_buf, data.as_slice());
    proof {
        lemma_auto_spec_u64_to_from_le_bytes();
        lemma_auto_spec_u32_to_from_le_bytes();
        assert(crc_buf@ =~= b.subrange(0, 13 + data_len));
    }
    let computed = crc32(crc_buf.as_slice());
    if stored != computed {
        return ParseStep::Failed(ReplayErrorKind::CrcMismatch { stored, computed });
    }
    match OpType::from_u8(op_byte) {
        None => ParseStep::Failed(ReplayErrorKind::UnknownOpType(op_byte)),
        Some(op_type) => {
            assert(data@ =~= b.subrange(13, 13 + data_len));
            ParseStep::Entry(RedoLogEntry { op_type, op_id, data }, pos + 17 + data_len)
        },
    }
}


/// Read the entries of a redo log file in order, up to its end or to the
/// first entry that cannot be read; the error counts the entries read
/// before it.
pub fn decode_log(bytes: &[u8]) -> (r: (Vec<RedoLogEntry>, Option<ReplayError>))
    ensures
        r.0@.map_values(|e: RedoLogEntry| e@) == decoded(bytes@).0,
        r.1 == match decoded(bytes@).1 {
            None => None,
            Some(k) => Some(ReplayError { seq: r.0@.len() as u64, kind: k }),
        },
{
    let mut entries: Vec<RedoLogEntry> = Vec::new();
    let mut pos: usize = 0;
    assert(bytes@.skip(0) =~= bytes@);
    loop
        invariant
            pos <= bytes@.len(),
            entries@.len() <= pos,
            decoded(bytes@) == (
                entries@.map_values(|e: RedoLogEntry| e@) + decoded(bytes@.skip(pos as int)).0,
                decoded(bytes@.skip(pos as int)).1,
            ),
        decreases bytes@.len() - pos,
    {
        let ghost b = bytes@.skip(pos as int);
        match parse_entry(bytes, pos) {
            ParseStep::End => {
                assert(entries@.map_values(|e: RedoLogEntry| e@) + decoded(b).0 =~= entries@.map_values(
                    |e: RedoLogEntry| e@,
                ));
                return (entries, None);
            },
            ParseStep::Failed(k) => {
                assert(entries@.map_values(|e: RedoLogEntry| e@) + decoded(b).0 =~= entries@.map_values(
                    |e: RedoLogEntry| e@,
                ));
                let seq = entries.len() as u64;
                return (entries, Some(ReplayError { seq, kind: k }));
            },
            ParseStep::Entry(e, next) => {
                let ghost ev = e@;
                let ghost before = entries@.map_values(|e: RedoLogEntry| e@);
                assert(b.skip(next - pos) =~= bytes@.skip(next as int));
                entries.push(e);
                assert(entries@.map_values(|e: RedoLogEntry| e@) =~= before.push(ev));
                assert(before + decoded(b).0 =~= before.push(ev) + decoded(bytes@.skip(next as int)).0);
                pos = next;
            },
        }
    }
}

/// Reading the bytes of an entry followed by anything gives the entry, and
/// the reading goes on just after it.
proof fn lemma_step_entry_bytes(op: OpType, id: u64, data: Seq<u8>, rest: Seq<u8>)
    requires
        data.len() < 0x1_0000_0000,
    ensures
        step(entry_bytes(op, id, data) + rest) == (StepSpec::Entry {
            op,
            id,
            data,
            len: data.len() + 17int,
        }),
        entry_bytes(op, id, data).len() == data.len() + 17,
{
    lemma_auto_spec_u64_to_from_le_bytes();
    lemma_auto_spec_u32_to_from_le_bytes();
    lemma_op_type_byte_roundtrip(op);
    let n: int = data.len() as int;
    let body = entry_body(op, id, data);
    let b = entry_bytes(op, id, data) + rest;
    assert(stored_len(data.len()) == n);
    assert(body.len() == 13 + n);
    assert(b[0] == op_type_byte(op));
    assert(b.subrange(1, 9) =~= spec_u64_to_le_bytes(id));
    assert(b.subrange(9, 13) =~= spec_u32_to_le_bytes(stored_len(data.len())));
    assert(b.subrange(13 + n, 17 + n) =~= spec_u32_to_le_bytes(crc32_of(body)));
    assert(b.subrange(0, 13 + n) =~= body);
    assert(b.subrange(13, 13 + n) =~= data);
}

/// Reading the bytes of written entries followed by anything gives the
/// entries, in order, then what reading the rest gives: every entry written
/// before a torn or damaged tail is read back whole.
pub proof fn lemma_decode_log_bytes(es: Seq<EntryView>, tail: Seq<u8>)
    requires
        forall|i: int| 0 <= i < es.len() ==> (#[trigger] es[i]).2.len() < 0x1_0000_0000,
    ensures
        decoded(log_bytes(es) + tail) == (es + decoded(tail).0, decoded(tail).1),
    decreases es.len(),
{
    if es.len() == 0 {
        assert(log_bytes(es) + tail =~= tail);
        assert(es + decoded(tail).0 =~= decoded(tail).0);
    } else {
        let e = es[0];
        let rest = es.drop_first();
        assert forall|i: int| 0 <= i < rest.len() implies (#[trigger] rest[i]).2.len() < 0x1_0000_0000 by {
            assert(rest[i] == es[i + 1]);
        }
        lemma_decode_log_bytes(rest, tail);
        let b = log_bytes(es) + tail;
        let eb = entry_bytes(e.0, e.1, e.2);
        assert(b =~= eb + (log_bytes(rest) + tail));
        lemma_step_entry_bytes(e.0, e.1, e.2, log_bytes(rest) + tail);
        assert(b.skip(eb.len() as int) =~= log_bytes(rest) + tail);
        assert(es =~= seq![e] + rest);
        assert(es + decoded(tail).0 =~= seq![(e.0, e.1, e.2)] + (rest + decoded(tail).0));
    }
}

/// Fewer than 13 bytes read as the end of a file: nothing, and no error.
pub proof fn lemma_decode_short_tail(tail: Seq<u8>)
    requires
        tail.len() < 13,
    ensures
        decoded(tail) == (Seq::<EntryView>::empty(), None::<ReplayErrorKind>),
{
}


/// The total length of the entries of `batch`.
pub open spec fn batch_len(batch: Seq<Vec<u8>>) -> int
    decreases batch.len(),
{
    if batch.len() == 0 {
        0
    } else {
        batch_len(batch.drop_last()) + batch.last()@.len()
    }
}

/// The number of bytes a batch of encoded entries takes, or `None` when it
/// does not fit in a `u64`.
pub fn batch_bytes(batch: &Vec<Vec<u8>>) -> (r: Option<u64>)
    ensures
        match r {
            Some(n) => n == batch_len(batch@),
            None => batch_len(batch@) > u64::MAX,
        },
{
    let mut total: u64 = 0;
    let mut i: usize = 0;
    while i < batch.len()
        invariant
            i <= batch@.len(),
            total == batch_len(batch@.take(i as int)),
        decreases batch@.len() - i,
    {
        assert(batch@.take(i + 1).drop_last() =~= batch@.take(i as int));
        let n = batch[i].len() as u64;
        match total.checked_add(n) {
            Some(t) => {
                total = t;
            },
            None => {
                proof {
                    lemma_batch_len_prefix(batch@, i + 1);
                }
                return None;
            },
        }
        i += 1;
    }
    assert(batch@.take(batch@.len() as int) =~= batch@);
    Some(total)
}

/// A batch is at least as long as each of its prefixes.
proof fn lemma_batch_len_prefix(batch: Seq<Vec<u8>>, k: int)
    requires
        0 <= k <= batch.len(),
    ensures
        batch_len(batch.take(k)) <= batch_len(batch),
    decreases batch.len(),
{
    if k < batch.len() {
        assert(batch.drop_last().take(k) =~= batch.take(k));
        lemma_batch_len_prefix(batch.drop_last(), k);
    } else {
        assert(batch.take(k) =~= batch);
    }
}

/// What writing a batch does to the redo log file it goes to.
#[derive(Clone, Copy, Debug, PartialEq, Eq, Structural)]
pub struct FlushPlan {
    /// A new file is started first because the current one is too old.
    pub rotate_for_age: bool,
    /// A new file is started first because the batch would take the file
    /// over the rotation threshold.
    pub rotate_for_size: bool,
    /// The size of the file written to, once the batch is in it.
    pub new_size: u64,
}

/// Decide how a batch of `batch_entries` entries taking `batch_bytes` bytes
/// is written, to a file of `file_size` bytes that is `too_old` or not: an
/// empty batch changes nothing; otherwise a file that is too old is replaced
/// first, and then a file that the batch would take over
/// `rotation_threshold`.
pub fn plan_flush(
    file_size: u64,
    batch_entries: usize,
    batch_bytes: u64,
    rotation_threshold: u64,
    too_old: bool,
) -> (p: FlushPlan)
    requires
        file_size + batch_bytes <= u64::MAX,
    ensures
        batch_entries == 0 ==> p == (FlushPlan {
            rotate_for_age: false,
            rotate_for_size: false,
            new_size: file_size,
        }),
        batch_entries > 0 ==> {
            &&& p.rotate_for_age == too_old
            &&& p.rotate_for_size == ((if too_old {
                0
            } else {
                file_size as int
            }) + batch_bytes > rotation_threshold)
            &&& p.new_size == (if p.rotate_for_age || p.rotate_for_size {
                0
            } else {
                file_size as int
            }) + batch_bytes
        },
{
    if batch_entries == 0 {
        return FlushPlan { rotate_for_age: false, rotate_for_size: false, new_size: file_size };
    }
    let mut size = file_size;
    let rotate_for_age = too_old;
    if rotate_for_age {
        size = 0;
    }
    let rotate_for_size = size + batch_bytes > rotation_threshold;
    if rotate_for_size {
        size = 0;
    }
    FlushPlan { rotate_for_age, rotate_for_size, new_size: size + batch_bytes }
}

/// The bytes `redo_`, which every redo log file name starts with.
pub open spec fn redo_prefix() -> Seq<u8> {
    seq![0x72u8, 0x65u8, 0x64u8, 0x6fu8, 0x5fu8]
}

/// Whether a file name is that of a redo log file: its bytes start with
/// `redo_`.
pub fn is_redo_file(name: &str) -> (r: bool)
    ensures
        r == (name.spec_bytes().len() >= 5 && name.spec_bytes().subrange(0, 5) == redo_prefix()),
{
    let b = name.as_bytes();
    if b.len() < 5 {
        return false;
    }
    let r = b[0] == 0x72 && b[1] == 0x65 && b[2] == 0x64 && b[3] == 0x6f && b[4] == 0x5f;
    proof {
        if r {
            assert(b@.subrange(0, 5) =~= redo_prefix());
        } else {
            if b@.subrange(0, 5) == redo_prefix() {
                assert(b@.subrange(0, 5)[0] == 0x72u8);
                assert(b@.subrange(0, 5)[1] == 0x65u8);
                assert(b@.subrange(0, 5)[2] == 0x64u8);
                assert(b@.subrange(0, 5)[3] == 0x6fu8);
                assert(b@.subrange(0, 5)[4] == 0x5fu8);
            }
        }
    }
    r
}

} // verus!
