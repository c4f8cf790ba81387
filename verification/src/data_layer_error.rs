//! Failure type surfaced by the history store.

use vstd::prelude::*;

verus! {

/// Wraps a failure of the underlying persistence layer as a plain message.
#[derive(Debug, Clone)]
pub struct DataLayerError {
    pub err: String,
}

} // verus!
