//! The decision core of the throttled consumer: after each receive
//! attempt it applies the event, and decides whether to render now, how
//! long to keep waiting inside the current coalescing window, or to shut
//! down. The loop around it — a bounded channel, a clock and a thread —
//! is the embedder's; every decision it follows is made here.
use vstd::prelude::*;
use crate::StageId;
use crate::ProgressReport;
use crate::tracker::ProgressTracker;
use crate::tracker::tracker_step;

verus! {

/// What the consumer's latest receive attempt came back with.
#[derive(Debug)]
pub enum SinkEvent {
    /// An event arrived, aimed at `target`.
    Received { target: StageId, event: ProgressReport },
    /// No event arrived before the deadline the last command set.
    TimedOut,
    /// Every producer is gone and no event is pending.
    Closed,
}

/// What the loop around the tracker must do next.
#[derive(Copy, Clone, Debug, PartialEq, Eq, Structural)]
pub enum SinkCommand {
    /// Render a snapshot now, then block for the next event with no
    /// deadline; the next arrival opens a new coalescing window.
    Render,
    /// Keep the snapshot as it is and wait for the next event, at most
    /// the given number of nanoseconds.
    WaitAtMost(u64),
    /// Shut down without rendering again.
    Stop,
}

/// Applies one receive outcome to the tracker and decides what follows.
///
/// `elapsed_ns` is the time since the current coalescing window began —
/// since the first event after the last render arrived; the caller
/// passes 0 with an event that opens a window. An arriving event is
/// applied to the tracker (exactly one `tracker_step`) and the snapshot
/// is withheld until the window closes: the wait commanded is exactly
/// what is left of the window, so a render follows no later than one
/// interval after the window opened, and no earlier than the window's
/// own end. A timeout closes the window and renders; a closed channel
/// stops the loop.
pub fn sink_step(
    tracker: &mut ProgressTracker,
    got: SinkEvent,
    interval_ns: u64,
    elapsed_ns: u64,
) -> (cmd: SinkCommand)
    ensures
        match got {
            SinkEvent::Received { target, event } => {
                &&& tracker_step(*old(tracker), *final(tracker), target.0, event)
                &&& old(tracker).wf() ==> final(tracker).wf()
                &&& cmd == (if elapsed_ns >= interval_ns {
                    SinkCommand::Render
                } else {
                    SinkCommand::WaitAtMost((interval_ns - elapsed_ns) as u64)
                })
            },
            SinkEvent::TimedOut => {
                &&& *final(tracker) == *old(tracker)
                &&& cmd == SinkCommand::Render
            },
            SinkEvent::Closed => {
                &&& *final(tracker) == *old(tracker)
                &&& cmd == SinkCommand::Stop
            },
        },
{
    match got {
        SinkEvent::Received { target, event } => {
            tracker.update(target, event);
            if elapsed_ns >= interval_ns {
                SinkCommand::Render
            } else {
                SinkCommand::WaitAtMost(interval_ns - elapsed_ns)
            }
        },
        SinkEvent::TimedOut => SinkCommand::Render,
        SinkEvent::Closed => SinkCommand::Stop,
    }
}

} // verus!
