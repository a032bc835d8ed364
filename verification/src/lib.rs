//! Line-oriented file buffers with verified diff, three-way merge and patch
//! algorithms.
//!
//! Files are modelled as byte sequences split into newline-terminated lines.
//! [`MMBlocks`] is an append-friendly segmented buffer, [`MMFile`] its compact
//! (single-segment) form. Diffs are minimal line-level edit scripts grouped
//! into context hunks; patches serialize hunks in the conventional
//! `@@ -a,b +c,d @@` grammar and can be re-applied, separating matched from
//! rejected hunks. Three-way merge reconciles two edit scripts against a
//! common base.

use vstd::prelude::*;

pub mod hunk;
pub mod laws;
pub mod lines;
pub mod merge;
pub mod mmblocks;
pub mod script;
pub mod mmfile;
pub mod patch;
pub mod render;
pub mod sink;

pub use mmblocks::MMBlocks;
pub use mmfile::MMFile;
pub use sink::{BoundedSink, Sink, VecSink};

verus! {

/// The failures that diff, merge and patch operations surface to the caller.
///
/// Per-hunk mismatches during patch application are not an error: they are
/// routed into the rejected output instead.
#[derive(Clone, Copy, Debug, PartialEq, Eq, Structural)]
pub enum XdiffError {
    /// Working memory for the computation cannot be addressed.
    AllocationFailure,
    /// An output consumer asked for early termination; output already
    /// delivered stands.
    CallbackAborted,
    /// A patch does not follow the hunk text grammar; nothing was applied.
    /// Patch application reports this outcome through its rejected output
    /// (the whole patch, with nothing applied) rather than through this
    /// variant, which names the kind for callers that track it.
    MalformedPatch,
}

} // verus!
