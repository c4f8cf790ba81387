//! Failures of the backup artifact store.

use vstd::prelude::*;

verus! {

/// What can go wrong with an artifact: the bytes cannot be written or
/// compressed, or an id names no stored artifact.
#[derive(Debug)]
pub enum Error {
    IOError(String),
    ArtifactNotFound,
}

} // verus!
