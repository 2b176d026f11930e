//! Command-line entry point.

use vstd::prelude::*;

verus! {

/// Run operations on a pipeline.
///
/// The command takes no options yet; the binary gives it its argument parsing.
pub struct DPCLRootCommand {}

} // verus!
