//! Filesystem integrity snapshot core: the snapshot data model, the
//! directory scanner's decision logic, the checksum engine, the diff engine,
//! and the append-only snapshot history store.

pub mod errors;
pub mod paths;
pub mod snapshot;
pub mod index_diff;
pub mod checksum;
pub mod index_scan;
pub mod codec;
pub mod history;
