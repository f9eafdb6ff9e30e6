use bionic_graph::storage::redolog_wal::{
    classify_op, encode, encode_batch, read_all, replay_start, truncation_plan, WalOpKind,
    OP_ADD_EDGE, OP_ADD_NEURON, OP_ADD_VERTEX, OP_CHECKPOINT, OP_REMOVE_VERTEX,
};

#[test]
fn wal_entry_layout() {
    let e = encode(OP_ADD_VERTEX, b"vtx");
    assert_eq!(e.len(), 1 + 4 + 3 + 4);
    assert_eq!(e[0], OP_ADD_VERTEX);
    assert_eq!(&e[1..5], &3u32.to_le_bytes());
    assert_eq!(&e[5..8], b"vtx");
    assert_eq!(&e[8..12], &crc32fast::hash(&e[..8]).to_le_bytes());
}

#[test]
fn wal_batch_roundtrip() {
    let entries = vec![
        (OP_ADD_VERTEX, b"a".to_vec()),
        (OP_ADD_EDGE, b"bb".to_vec()),
        (OP_ADD_NEURON, Vec::new()),
    ];
    let buf = encode_batch(&entries);
    let read = read_all(&buf);
    assert_eq!(read.len(), 3);
    assert_eq!(read[0], (OP_ADD_VERTEX, b"a".to_vec(), 10));
    assert_eq!(read[1], (OP_ADD_EDGE, b"bb".to_vec(), 21));
    assert_eq!(read[2], (OP_ADD_NEURON, Vec::new(), 30));
    assert_eq!(read[2].2, buf.len());
}

#[test]
fn wal_torn_tail_is_dropped() {
    let mut buf = encode(OP_ADD_VERTEX, b"first");
    let second = encode(OP_REMOVE_VERTEX, b"second");
    buf.extend_from_slice(&second[..second.len() - 1]);
    let read = read_all(&buf);
    assert_eq!(read.len(), 1);
    assert_eq!(read[0].1, b"first".to_vec());
}

#[test]
fn wal_corrupt_entry_stops_reading() {
    let mut buf = encode(OP_ADD_VERTEX, b"first");
    let at = buf.len();
    buf.extend_from_slice(&encode(OP_ADD_EDGE, b"second"));
    buf.extend_from_slice(&encode(OP_ADD_EDGE, b"third"));
    buf[at + 6] ^= 0x01;
    let read = read_all(&buf);
    assert_eq!(read.len(), 1);
}

#[test]
fn wal_replay_starts_after_last_checkpoint() {
    let buf = encode_batch(&[
        (OP_ADD_VERTEX, b"a".to_vec()),
        (OP_CHECKPOINT, b"ckpt".to_vec()),
        (OP_ADD_EDGE, b"b".to_vec()),
        (OP_CHECKPOINT, b"ckpt".to_vec()),
        (OP_ADD_VERTEX, b"c".to_vec()),
    ]);
    let read = read_all(&buf);
    assert_eq!(read.len(), 5);
    assert_eq!(replay_start(&read), 4);
    assert_eq!(truncation_plan(&read), Some(4));
}

#[test]
fn wal_without_checkpoint() {
    let read = read_all(&encode_batch(&[(OP_ADD_VERTEX, b"a".to_vec())]));
    assert_eq!(replay_start(&read), 0);
    assert_eq!(truncation_plan(&read), None);
    assert_eq!(truncation_plan(&[]), Some(0));
}

#[test]
fn wal_op_kinds() {
    assert_eq!(classify_op(OP_ADD_VERTEX), WalOpKind::Graph);
    assert_eq!(classify_op(0x06), WalOpKind::Graph);
    assert_eq!(classify_op(OP_ADD_NEURON), WalOpKind::Neuron);
    assert_eq!(classify_op(OP_CHECKPOINT), WalOpKind::Checkpoint);
    assert_eq!(classify_op(0x07), WalOpKind::Unknown);
}
