//! The query of the change-notification endpoint.
use vstd::prelude::*;

verus! {

/// The query of the watch endpoint: the mount, and the directory within it
/// (its root where none is given).
pub struct WatchQuery {
    pub mount: String,
    pub path: Option<String>,
}

} // verus!
