use progress_tree::StageId;
use progress_tree::ProgressReport;
use progress_tree::sink::SinkCommand;
use progress_tree::sink::SinkEvent;
use progress_tree::sink::sink_step;
use progress_tree::tracker::ProgressTracker;

const INTERVAL: u64 = 1_000_000_000;

fn begin_event(id: usize, name: &str, steps: usize) -> ProgressReport {
    ProgressReport::BeginStage { id: StageId(id), name: name.to_string(), steps }
}

#[test]
fn first_event_opens_a_full_window() {
    let mut t = ProgressTracker::default();
    let got = SinkEvent::Received { target: StageId(0), event: begin_event(1, "build", 2) };
    let cmd = sink_step(&mut t, got, INTERVAL, 0);
    assert_eq!(cmd, SinkCommand::WaitAtMost(INTERVAL));
    assert!(t.record(StageId(1)).is_some(), "the event was applied");
}

#[test]
fn event_inside_window_waits_out_the_rest() {
    // E1 at t = 0, E2 at t = 0.3 x interval: both are applied within one
    // coalescing window, and the remaining wait ends the window exactly
    // one interval after E1.
    let mut t = ProgressTracker::default();
    let e1 = SinkEvent::Received { target: StageId(0), event: begin_event(1, "build", 2) };
    assert_eq!(sink_step(&mut t, e1, INTERVAL, 0), SinkCommand::WaitAtMost(INTERVAL));
    let e2 = SinkEvent::Received { target: StageId(1), event: ProgressReport::Progress };
    let cmd = sink_step(&mut t, e2, INTERVAL, 3 * INTERVAL / 10);
    assert_eq!(cmd, SinkCommand::WaitAtMost(INTERVAL - 3 * INTERVAL / 10));
    assert_eq!(t.record(StageId(1)).unwrap().count, 1, "E2 was applied before any render");
}

#[test]
fn window_expiry_renders() {
    let mut t = ProgressTracker::default();
    let cmd = sink_step(&mut t, SinkEvent::TimedOut, INTERVAL, INTERVAL);
    assert_eq!(cmd, SinkCommand::Render);
}

#[test]
fn late_event_renders_at_once() {
    let mut t = ProgressTracker::default();
    let got = SinkEvent::Received { target: StageId(0), event: begin_event(1, "build", 1) };
    let cmd = sink_step(&mut t, got, INTERVAL, INTERVAL);
    assert_eq!(cmd, SinkCommand::Render);
}

#[test]
fn closed_channel_stops_the_loop() {
    let mut t = ProgressTracker::default();
    let cmd = sink_step(&mut t, SinkEvent::Closed, INTERVAL, 0);
    assert_eq!(cmd, SinkCommand::Stop);
}
