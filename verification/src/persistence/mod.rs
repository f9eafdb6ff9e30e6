//! Persistence settings.

pub mod auto_save;
