//! Lock acquisition statistics.
use std::sync::atomic::AtomicUsize;
use std::sync::Arc;
use vstd::prelude::*;

verus! {

/// Lock acquisition counters, shared between clones.
#[derive(Debug)]
pub struct LockStats {
    pub block_reads: Arc<AtomicUsize>,
    pub block_writes: Arc<AtomicUsize>,
    pub vertex_reads: Arc<AtomicUsize>,
    pub vertex_writes: Arc<AtomicUsize>,
    pub edge_reads: Arc<AtomicUsize>,
    pub edge_writes: Arc<AtomicUsize>,
}

/// Lock statistics at a point in time.
#[derive(Clone, Copy, Debug, PartialEq, Eq, Structural)]
pub struct LockStatsSnapshot {
    pub block_reads: usize,
    pub block_writes: usize,
    pub vertex_reads: usize,
    pub vertex_writes: usize,
    pub edge_reads: usize,
    pub edge_writes: usize,
}

impl Default for LockStatsSnapshot {
    fn default() -> (s: Self)
        ensures
            s == (LockStatsSnapshot {
                block_reads: 0,
                block_writes: 0,
                vertex_reads: 0,
                vertex_writes: 0,
                edge_reads: 0,
                edge_writes: 0,
            }),
    {
        LockStatsSnapshot {
            block_reads: 0,
            block_writes: 0,
            vertex_reads: 0,
            vertex_writes: 0,
            edge_reads: 0,
            edge_writes: 0,
        }
    }
}

} // verus!
