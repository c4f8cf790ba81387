//! Failures of the history service.

use vstd::prelude::*;

use crate::data_layer_error::DataLayerError;

verus! {

/// What can go wrong while resolving history: a store failure, a bad
/// pattern, a failed path enumeration, or a configuration problem.
#[derive(Debug)]
pub enum Error {
    DataLayerError(DataLayerError),
    GlobPatternError(String),
    GlobError(String),
    ConfigError(String),
}

} // verus!
