//! Settings of the auto-save and checkpoint background work.
use vstd::prelude::*;

verus! {

/// Configuration for the auto-save / checkpoint background thread.
#[derive(Debug, Clone)]
pub struct AutoSaveConfig {
    /// Path of the in-memory graph data file (legacy).
    pub graph_path: String,
    /// Path of the neural network data file.
    pub neural_path: String,
    /// Data directory of the disk-backed graph.
    pub disk_data_dir: String,
    /// How often to check for work (seconds).
    pub check_interval_secs: u64,
    /// How many WAL entries trigger a checkpoint (disk graph).
    pub checkpoint_interval_entries: u64,
    /// Whether to save on shutdown.
    pub save_on_shutdown: bool,
}

impl Default for AutoSaveConfig {
    fn default() -> (c: Self)
        ensures
            c.graph_path@ == "data/graph.bin"@,
            c.neural_path@ == "data/neural.bin"@,
            c.disk_data_dir@ == "data"@,
            c.check_interval_secs == 5,
            c.checkpoint_interval_entries == 1000,
            c.save_on_shutdown,
    {
        AutoSaveConfig {
            graph_path: "data/graph.bin".to_owned(),
            neural_path: "data/neural.bin".to_owned(),
            disk_data_dir: "data".to_owned(),
            check_interval_secs: 5,
            checkpoint_interval_entries: 1000,
            save_on_shutdown: true,
        }
    }
}

} // verus!
