//! Pipeline artifacts.

use vstd::prelude::*;

verus! {

/// A file or other piece of data that tasks consume or produce.
///
/// An artifact is identified by its path alone.
#[derive(Debug, Clone)]
pub struct Artifact {
    pub path: String,
}

} // verus!
