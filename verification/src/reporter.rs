//! Reporter handles: per-stage capabilities that emit lifecycle events
//! into one shared sink, with thread-safe allocation of fresh stage ids.
use vstd::prelude::*;
use std::sync::Arc;
use core::sync::atomic::AtomicUsize;
use core::sync::atomic::Ordering;
use crate::StageId;
use crate::ProgressReport;

verus! {

/// The single fan-in point for events: one operation, callable
/// concurrently from many threads, that delivers an event aimed at a
/// stage. A channel sender implements it on the consumer side; the
/// unit type implements it as the no-op sink.
pub trait Update: Sync + Send {
    /// Delivers one event aimed at `id`. Fire and forget: no result.
    fn update(&self, id: StageId, event: ProgressReport);
}

/// The no-op sink, for when progress reporting is disabled: every
/// event is swallowed.
impl Update for () {
    fn update(&self, _id: StageId, _event: ProgressReport) {
    }
}

/// The state shared by every handle of one reporter tree: the id
/// counter and the configured sink.
struct ReporterData {
    stage_ids: AtomicUsize,
    callback: Box<dyn Update>,
}

impl ReporterData {
    /// Draws a fresh id by advancing the shared counter; the counter's
    /// atomic fetch-and-add hands each caller a distinct previous value
    /// (`lemma_counter_ids_distinct` states the counter model), which
    /// Verus's atomics leave unconstrained, so nothing is stated here.
    fn make_id(&self) -> StageId {
        StageId(self.stage_ids.fetch_add(1, Ordering::Relaxed))
    }

    /// Forwards one event to the configured sink.
    fn report(&self, id: StageId, r: ProgressReport) {
        self.callback.update(id, r);
    }
}

/// The value the id counter hands out on its `k`-th allocation when it
/// began at `start`: the counter only ever moves forward by one.
pub open spec fn counter_value(start: nat, k: nat) -> nat {
    start + k
}

/// Uniqueness of stage ids: any two distinct allocations from one
/// counter return distinct values, however many threads draw from it —
/// each atomic fetch-and-add observes a distinct previous value. (The
/// machine counter wraps after `usize::MAX` allocations; ids of one
/// tree stay below that.)
pub proof fn lemma_counter_ids_distinct(start: nat, i: nat, j: nat)
    requires
        i != j,
    ensures
        counter_value(start, i) != counter_value(start, j),
{
}

/// A per-stage handle: it can begin child stages, record completed
/// steps, and end its own stage, each by emitting one event through
/// the shared sink.
#[derive(Clone)]
pub struct Reporter {
    shared: Arc<ReporterData>,
    id: StageId,
}

impl Reporter {
    /// The id of the stage this handle reports for.
    pub closed spec fn stage_id(self) -> StageId {
        self.id
    }

    /// The id of the stage this handle reports for, as a value.
    pub fn id(&self) -> (r: StageId)
        ensures
            r == self.stage_id(),
    {
        self.id
    }

    /// Builds the shared state around the sink `f`, allocates the first
    /// stage id (always 1, the conventional root, with the virtual root
    /// 0 as its parent), emits its `BeginStage`, and returns the handle
    /// bound to it.
    pub fn new<U: Update + 'static>(f: U, steps: usize, name: String) -> (r: Reporter)
        ensures
            r.stage_id() == StageId(1usize),
    {
        let shared = Arc::new(ReporterData {
            stage_ids: AtomicUsize::new(2),
            callback: Box::new(f),
        });
        let id = StageId(1);
        shared.report(
            StageId(crate::VIRTUAL_ROOT),
            ProgressReport::BeginStage { id, name, steps },
        );
        Reporter { id, shared }
    }

    /// Begins a child stage under this one: allocates a fresh id, emits
    /// `BeginStage` with this handle's own id as the target (the target
    /// of a begin-event is the new stage's parent), and returns the
    /// child's handle, sharing the same underlying state.
    pub fn stage(&self, steps: usize, name: String) -> (r: Reporter) {
        let id = self.shared.make_id();
        self.shared.report(self.id, ProgressReport::BeginStage { id, name, steps });
        Reporter { id, shared: self.shared.clone() }
    }

    /// Records one completed unit of work on this stage: emits a
    /// progress event aimed at this handle's own id.
    pub fn increment(&self)
    {
        self.shared.report(self.id, ProgressReport::Progress);
    }

    /// Ends this stage: emits `EndStage` aimed at this handle's own id
    /// and consumes the handle, so a stage is ended once. Call it on
    /// every exit path of the work the stage stands for.
    pub fn end(self)
    {
        self.shared.report(self.id, ProgressReport::EndStage);
    }
}

} // verus!
