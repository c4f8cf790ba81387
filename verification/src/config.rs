//! Process configuration.

use vstd::prelude::*;

verus! {

/// What a run works with: the patterns to back up, where the artifacts go,
/// and how many copies of a file to retain.
#[derive(Debug)]
pub struct Config {
    pub backup_globs: Vec<String>,
    pub backup_path: String,
    pub max_copies: i32,
}

} // verus!
