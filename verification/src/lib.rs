//! Block-based storage engine, in-memory indexes, lock striping and firing
//! history of the Bionic-Graph knowledge graph.

pub mod lock;
pub mod neuron;
pub mod persistence;
pub mod replication;
pub mod storage;
