//! Lock striping and statistics of the graph's lock manager.

pub mod lock_manager;
pub mod stripes;
