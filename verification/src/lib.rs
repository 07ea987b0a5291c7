//! Hierarchical progress reporting: nested stages with step counts,
//! reported concurrently, aggregated into a tree by a single consumer,
//! and rendered on a throttled cadence.
use vstd::prelude::*;

pub mod reporter;
pub mod sink;
pub mod tracker;

verus! {

/// Identifier of a stage, unique for the lifetime of one reporter tree.
/// The value 0 is reserved for the virtual root: it is never the id of a
/// real stage and serves only as the parent of top-level stages.
#[derive(Copy, Clone, Debug, PartialEq, Eq, Hash, Structural)]
pub struct StageId(pub usize);

/// The id of the virtual root.
pub const VIRTUAL_ROOT: usize = 0;

/// One stage lifecycle event. Every event is delivered together with a
/// target `StageId`; what the target means depends on the variant:
/// for `BeginStage` it is the parent of the new stage, for `Progress`
/// and `EndStage` it is the stage itself.
#[derive(Debug, Clone)]
pub enum ProgressReport {
    /// Declares a new stage `id` with `steps` planned units of work.
    BeginStage { id: StageId, name: String, steps: usize },
    /// One unit of work on the target stage is done.
    Progress,
    /// The target stage is finished.
    EndStage,
}

} // verus!
