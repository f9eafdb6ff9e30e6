//! The combined graph and neuron write-ahead log: its entry format, reading
//! a log back, and which entries a recovery replays.
//!
//! Each entry is `type (1) | data_len (u32 LE) | data | crc32 (u32 LE)`, the
//! CRC32 covering the first three fields. Reading stops, without an error,
//! at the first entry that is torn or fails its CRC32.
use vstd::bytes::*;
use vstd::prelude::*;
use crate::storage::codec::{push_slice, push_u32};
use crate::storage::redo_log::{copy_range, crc32, crc32_of};

verus! {

pub const OP_ADD_VERTEX: u8 = 0x01;

pub const OP_REMOVE_VERTEX: u8 = 0x02;

pub const OP_ADD_EDGE: u8 = 0x03;

pub const OP_REMOVE_EDGE: u8 = 0x04;

pub const OP_UPDATE_VERTEX: u8 = 0x05;

pub const OP_UPDATE_EDGE: u8 = 0x06;

pub const OP_ADD_NEURON: u8 = 0x11;

pub const OP_REMOVE_NEURON: u8 = 0x12;

pub const OP_ADD_SYNAPSE: u8 = 0x13;

pub const OP_LINK_VERTEX: u8 = 0x14;

pub const OP_UPDATE_NEURON: u8 = 0x15;

pub const OP_CHECKPOINT: u8 = 0xFF;

/// The bytes an entry's CRC32 covers.
pub open spec fn wal_body(ty: u8, data: Seq<u8>) -> Seq<u8> {
    seq![ty] + spec_u32_to_le_bytes(data.len() as u32) + data
}

/// The bytes of an entry.
pub open spec fn wal_entry_bytes(ty: u8, data: Seq<u8>) -> Seq<u8> {
    wal_body(ty, data) + spec_u32_to_le_bytes(crc32_of(wal_body(ty, data)))
}

/// The bytes of a batch of entries, one after another.
pub open spec fn wal_batch_bytes(es: Seq<(u8, Seq<u8>)>) -> Seq<u8>
    decreases es.len(),
{
    if es.len() == 0 {
        Seq::empty()
    } else {
        wal_entry_bytes(es[0].0, es[0].1) + wal_batch_bytes(es.drop_first())
    }
}

/// Encode a single entry.
pub fn encode(entry_type: u8, data: &[u8]) -> (r: Vec<u8>)
    ensures
        r@ == wal_entry_bytes(entry_type, data@),
{
    let mut buf: Vec<u8> = Vec::new();
    buf.push(entry_type);
    #[verifier::truncate]
    let len32 = data.len() as u32;
    push_u32(&mut buf, len32);
    push_slice(&mut buf, data);
    let crc = crc32(buf.as_slice());
    push_u32(&mut buf, crc);
    buf
}

/// The bytes of a batch of entries, written together.
pub fn encode_batch(entries: &[(u8, Vec<u8>)]) -> (r: Vec<u8>)
    ensures
        r@ == wal_batch_bytes(entries@.map_values(|e: (u8, Vec<u8>)| (e.0, e.1@))),
{
    let ghost es = entries@.map_values(|e: (u8, Vec<u8>)| (e.0, e.1@));
    let mut buf: Vec<u8> = Vec::new();
    let mut i: usize = 0;
    assert(buf@ + wal_batch_bytes(es.skip(0)) =~= wal_batch_bytes(es)) by {
        assert(es.skip(0) =~= es);
    }
    while i < entries.len()
        invariant
            i <= entries@.len(),
            es == entries@.map_values(|e: (u8, Vec<u8>)| (e.0, e.1@)),
            buf@ + wal_batch_bytes(es.skip(i as int)) == wal_batch_bytes(es),
        decreases entries@.len() - i,
    {
        let e = encode(entries[i].0, entries[i].1.as_slice());
        proof {
            assert(es.skip(i as int).drop_first() =~= es.skip(i + 1));
            assert(es.skip(i as int)[0] == es[i as int]);
        }
        let ghost before = buf@;
        push_slice(&mut buf, e.as_slice());
        assert(before + wal_batch_bytes(es.skip(i as int)) =~= buf@ + wal_batch_bytes(es.skip(i + 1)));
        i += 1;
    }
    assert(buf@ + wal_batch_bytes(es.skip(i as int)) =~= buf@);
    buf
}

/// Reading one entry at the start of `b`: its type, data and length, or
/// `None` when the entry is torn or fails its CRC32 (or fewer than 9 bytes
/// are left).
pub open spec fn wal_step(b: Seq<u8>) -> Option<(u8, Seq<u8>, int)> {
    if b.len() < 9 {
        None
    } else {
        let l = spec_u32_from_le_bytes(b.subrange(1, 5)) as int;
        if 5 + l + 4 > b.len() {
            None
        } else if spec_u32_from_le_bytes(b.subrange(5 + l, 9 + l)) != crc32_of(b.subrange(0, 5 + l)) {
            None
        } else {
            Some((b[0], b.subrange(5, 5 + l), 9 + l))
        }
    }
}

/// The entries read from `b`, whose first byte is at offset `base` of the
/// log: (type, data, offset just after the entry).
pub open spec fn wal_entries(b: Seq<u8>, base: int) -> Seq<(u8, Seq<u8>, int)>
    decreases b.len(),
{
    match wal_step(b) {
        None => Seq::empty(),
        Some((t, d, n)) => if 0 < n <= b.len() {
            seq![(t, d, base + n)] + wal_entries(b.skip(n), base + n)
        } else {
            Seq::empty()
        },
    }
}

/// The entries of a log, in order: (type, data, offset just after the
/// entry); reading stops at the first torn or corrupt entry.
pub fn read_all(buf: &[u8]) -> (r: Vec<(u8, Vec<u8>, usize)>)
    ensures
        r@.map_values(|e: (u8, Vec<u8>, usize)| (e.0, e.1@, e.2 as int)) == wal_entries(buf@, 0),
{
    let mut entries: Vec<(u8, Vec<u8>, usize)> = Vec::new();
    let mut pos: usize = 0;
    assert(buf@.skip(0) =~= buf@);
    while pos <= buf.len() && buf.len() - pos >= 9
        invariant
            pos <= buf@.len(),
            buf@.len() == buf.len(),
            entries@.map_values(|e: (u8, Vec<u8>, usize)| (e.0, e.1@, e.2 as int)) + wal_entries(
                buf@.skip(pos as int),
                pos as int,
            ) == wal_entries(buf@, 0),
        decreases buf@.len() - pos,
    {
        let ghost b = buf@.skip(pos as int);
        let ghost ev = entries@.map_values(|e: (u8, Vec<u8>, usize)| (e.0, e.1@, e.2 as int));
        let ty = buf[pos];
        assert(buf@.subrange(pos + 1, pos + 5) =~= b.subrange(1, 5));
        let len = u32_from_le_bytes(&buf[pos + 1..pos + 5]) as usize;
        if buf.len() - pos - 9 < len {
            assert(ev + wal_entries(b, pos as int) =~= ev);
            return entries;
        }
        let crc_at = pos + 5 + len;
        assert(buf@.subrange(crc_at as int, crc_at + 4) =~= b.subrange(5 + len, 9 + len));
        let stored = u32_from_le_bytes(&buf[crc_at..crc_at + 4]);
        assert(buf@.subrange(pos as int, pos + 5 + len) =~= b.subrange(0, 5 + len));
        let actual = crc32(&buf[pos..pos + 5 + len]);
        if actual != stored {
            assert(ev + wal_entries(b, pos as int) =~= ev);
            return entries;
        }
        let data = copy_range(buf, pos + 5, len);
        assert(data@ =~= b.subrange(5, 5 + len));
        let next = pos + 9 + len;
        assert(b.skip(9 + len) =~= buf@.skip(next as int));
        entries.push((ty, data, next));
        assert(entries@.map_values(|e: (u8, Vec<u8>, usize)| (e.0, e.1@, e.2 as int)) =~= ev.push(
            (ty, data@, next as int),
        ));
        assert(ev + wal_entries(b, pos as int) =~= ev.push((ty, data@, next as int)) + wal_entries(
            buf@.skip(next as int),
            next as int,
        ));
        pos = next;
    }
    assert(wal_entries(buf@.skip(pos as int), pos as int) =~= Seq::<(u8, Seq<u8>, int)>::empty());
    assert(entries@.map_values(|e: (u8, Vec<u8>, usize)| (e.0, e.1@, e.2 as int)) + Seq::<
        (u8, Seq<u8>, int),
    >::empty() =~= entries@.map_values(|e: (u8, Vec<u8>, usize)| (e.0, e.1@, e.2 as int)));
    entries
}


/// The entries without their offsets.
pub open spec fn strip(s: Seq<(u8, Seq<u8>, int)>) -> Seq<(u8, Seq<u8>)> {
    s.map_values(|e: (u8, Seq<u8>, int)| (e.0, e.1))
}

proof fn lemma_wal_step_entry(ty: u8, data: Seq<u8>, rest: Seq<u8>)
    requires
        data.len() < 0x1_0000_0000,
    ensures
        wal_step(wal_entry_bytes(ty, data) + rest) == Some((ty, data, data.len() + 9int)),
        wal_entry_bytes(ty, data).len() == data.len() + 9,
{
    lemma_auto_spec_u32_to_from_le_bytes();
    let n: int = data.len() as int;
    let body = wal_body(ty, data);
    let b = wal_entry_bytes(ty, data) + rest;
    assert((data.len() as u32) == n);
    assert(b.subrange(1, 5) =~= spec_u32_to_le_bytes(data.len() as u32));
    assert(b.subrange(5 + n, 9 + n) =~= spec_u32_to_le_bytes(crc32_of(body)));
    assert(b.subrange(0, 5 + n) =~= body);
    assert(b.subrange(5, 5 + n) =~= data);
}

/// Reading back a log made of written entries followed by anything gives
/// the entries, in order, then what reading the rest gives.
pub proof fn lemma_read_batch(es: Seq<(u8, Seq<u8>)>, tail: Seq<u8>, base: int)
    requires
        forall|i: int| 0 <= i < es.len() ==> (#[trigger] es[i]).1.len() < 0x1_0000_0000,
    ensures
        strip(wal_entries(wal_batch_bytes(es) + tail, base)) == es + strip(
            wal_entries(tail, base + wal_batch_bytes(es).len()),
        ),
    decreases es.len(),
{
    if es.len() == 0 {
        assert(wal_batch_bytes(es) + tail =~= tail);
        assert(es + strip(wal_entries(tail, base)) =~= strip(wal_entries(tail, base)));
    } else {
        let e = es[0];
        let rest = es.drop_first();
        assert forall|i: int| 0 <= i < rest.len() implies (#[trigger] rest[i]).1.len() < 0x1_0000_0000 by {
            assert(rest[i] == es[i + 1]);
        }
        let eb = wal_entry_bytes(e.0, e.1);
        lemma_wal_step_entry(e.0, e.1, wal_batch_bytes(rest) + tail);
        let n = eb.len() as int;
        lemma_read_batch(rest, tail, base + n);
        let b = wal_batch_bytes(es) + tail;
        assert(b =~= eb + (wal_batch_bytes(rest) + tail));
        assert(b.skip(n) =~= wal_batch_bytes(rest) + tail);
        assert(wal_batch_bytes(es).len() == n + wal_batch_bytes(rest).len());
        let tl = strip(wal_entries(tail, base + wal_batch_bytes(es).len()));
        assert(strip(wal_entries(b, base)) =~= seq![(e.0, e.1)] + strip(
            wal_entries(wal_batch_bytes(rest) + tail, base + n),
        ));
        assert(es =~= seq![e] + rest);
        assert(es + tl =~= seq![(e.0, e.1)] + (rest + tl));
    }
}

/// An entry cut short (a torn write) reads as no entry at all.
pub proof fn lemma_torn_entry(ty: u8, data: Seq<u8>, k: int, base: int)
    requires
        data.len() < 0x1_0000_0000,
        0 <= k < wal_entry_bytes(ty, data).len(),
    ensures
        wal_entries(wal_entry_bytes(ty, data).take(k), base) == Seq::<(u8, Seq<u8>, int)>::empty(),
{
    lemma_auto_spec_u32_to_from_le_bytes();
    let b = wal_entry_bytes(ty, data).take(k);
    if k >= 9 {
        assert(b.subrange(1, 5) =~= spec_u32_to_le_bytes(data.len() as u32));
        assert((data.len() as u32) == data.len());
    }
}

/// The index just after the last checkpoint entry of `types`, or 0 when
/// there is none: where a recovery starts replaying.
pub open spec fn after_last_checkpoint(types: Seq<u8>) -> int
    decreases types.len(),
{
    if types.len() == 0 {
        0
    } else if types.last() == OP_CHECKPOINT {
        types.len() as int
    } else {
        after_last_checkpoint(types.drop_last())
    }
}

/// The types of a log's entries.
pub open spec fn entry_types(entries: Seq<(u8, Vec<u8>, usize)>) -> Seq<u8> {
    entries.map_values(|e: (u8, Vec<u8>, usize)| e.0)
}

/// Where a recovery starts replaying: just after the last checkpoint entry,
/// or at the first entry when there is none.
pub fn replay_start(entries: &[(u8, Vec<u8>, usize)]) -> (r: usize)
    ensures
        r == after_last_checkpoint(entry_types(entries@)),
        r <= entries@.len(),
        forall|i: int| r <= i < entries@.len() ==> entries@[i].0 != OP_CHECKPOINT,
{
    let ghost t = entry_types(entries@);
    let mut i: usize = entries.len();
    assert(t.take(i as int) =~= t);
    while i > 0
        invariant
            i <= entries@.len(),
            t == entry_types(entries@),
            after_last_checkpoint(t) == after_last_checkpoint(t.take(i as int)),
            forall|j: int| i <= j < entries@.len() ==> entries@[j].0 != OP_CHECKPOINT,
        decreases i,
    {
        assert(t.take(i as int).last() == entries@[i - 1].0);
        if entries[i - 1].0 == OP_CHECKPOINT {
            return i;
        }
        assert(t.take(i as int).drop_last() =~= t.take(i - 1));
        i -= 1;
    }
    0
}

/// What truncating a log after its last checkpoint does: `None` when there
/// is no checkpoint in a non-empty log (the log stays as it is), else
/// `Some(k)`: the log is rewritten with the entries from `k` on.
pub fn truncation_plan(entries: &[(u8, Vec<u8>, usize)]) -> (r: Option<usize>)
    ensures
        r == if after_last_checkpoint(entry_types(entries@)) == 0 && entries@.len() > 0 {
            None
        } else {
            Some(after_last_checkpoint(entry_types(entries@)) as usize)
        },
{
    let keep_from = replay_start(entries);
    if keep_from == 0 && entries.len() > 0 {
        None
    } else {
        Some(keep_from)
    }
}

/// What an entry type is about.
#[derive(Clone, Copy, Debug, PartialEq, Eq, Structural)]
pub enum WalOpKind {
    /// A graph mutation (0x01..=0x06).
    Graph,
    /// A neuron network mutation (0x11..=0x15).
    Neuron,
    /// A checkpoint marker.
    Checkpoint,
    /// A type no operation has.
    Unknown,
}

/// What an entry of type `ty` is about.
pub fn classify_op(ty: u8) -> (k: WalOpKind)
    ensures
        k == if 0x01 <= ty <= 0x06 {
            WalOpKind::Graph
        } else if 0x11 <= ty <= 0x15 {
            WalOpKind::Neuron
        } else if ty == OP_CHECKPOINT {
            WalOpKind::Checkpoint
        } else {
            WalOpKind::Unknown
        },
{
    if 0x01 <= ty && ty <= 0x06 {
        WalOpKind::Graph
    } else if 0x11 <= ty && ty <= 0x15 {
        WalOpKind::Neuron
    } else if ty == OP_CHECKPOINT {
        WalOpKind::Checkpoint
    } else {
        WalOpKind::Unknown
    }
}

} // verus!
