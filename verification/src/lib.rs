//! Incremental, versioned file-backup engine.
//!
//! The library holds the verified core of the engine: the directory/file
//! history state machine (change detection, retention eviction, deletion
//! tombstoning), the content-hashing computation, the id-addressed compressed
//! artifact store, and a generic path-keyed cache utility.

use vstd::prelude::*;

pub mod backup_service;
pub mod collections;
pub mod config;
pub mod data_layer_error;
pub mod hash_svc;
pub mod history_service;
pub mod time_provider;

verus! {

} // verus!
