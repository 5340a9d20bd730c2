//! The state of a map container in a collaborative document, with the
//! side table that tracks mergeable child containers.

pub mod types;
pub mod value;
pub mod keys;
pub mod str_map;
pub mod child_table;
pub mod map_state;
pub mod laws;
pub mod dead_containers_cache;
pub mod doc_state;
pub mod mergeable;
pub mod lww;
pub mod repopulate;
pub mod wire;
pub mod snapshot;
pub mod register_laws;
pub mod stamp_laws;
