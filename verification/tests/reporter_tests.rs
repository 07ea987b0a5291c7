use crossbeam_channel::Receiver;
use crossbeam_channel::Sender;
use progress_tree::StageId;
use progress_tree::ProgressReport;
use progress_tree::reporter::Reporter;
use progress_tree::reporter::Update;
use progress_tree::tracker::ProgressTracker;
use progress_tree::tracker::Row;

struct ChannelSink {
    tx: Sender<(StageId, ProgressReport)>,
}

impl Update for ChannelSink {
    fn update(&self, id: StageId, event: ProgressReport) {
        self.tx.send((id, event)).unwrap();
    }
}

fn recording_sink() -> (ChannelSink, Receiver<(StageId, ProgressReport)>) {
    let (tx, rx) = crossbeam_channel::unbounded();
    (ChannelSink { tx }, rx)
}

fn drain_into(rx: &Receiver<(StageId, ProgressReport)>, tracker: &mut ProgressTracker) {
    while let Ok((target, event)) = rx.try_recv() {
        tracker.update(target, event);
    }
}

#[test]
fn new_emits_begin_against_virtual_root() {
    let (sink, rx) = recording_sink();
    let root = Reporter::new(sink, 4, "build".to_string());
    let (target, event) = rx.try_recv().unwrap();
    assert_eq!(target, StageId(0));
    match event {
        ProgressReport::BeginStage { id, name, steps } => {
            assert_eq!(id, StageId(1));
            assert_eq!(name, "build");
            assert_eq!(steps, 4);
        }
        other => panic!("expected a begin event, got {:?}", other),
    }
    root.end();
}

#[test]
fn stage_targets_the_parent_and_increment_targets_itself() {
    let (sink, rx) = recording_sink();
    let root = Reporter::new(sink, 1, "build".to_string());
    let child = root.stage(2, "compile".to_string());
    child.increment();
    let _ = rx.try_recv().unwrap(); // the root's begin
    let (target, event) = rx.try_recv().unwrap();
    assert_eq!(target, StageId(1), "a begin-event's target is the new stage's parent");
    let child_id = match event {
        ProgressReport::BeginStage { id, .. } => id,
        other => panic!("expected a begin event, got {:?}", other),
    };
    let (target, event) = rx.try_recv().unwrap();
    assert_eq!(target, child_id, "a progress event's target is the stage itself");
    assert!(matches!(event, ProgressReport::Progress));
    child.end();
    let (target, event) = rx.try_recv().unwrap();
    assert_eq!(target, child_id, "an end-event's target is the stage itself");
    assert!(matches!(event, ProgressReport::EndStage));
    root.end();
}

#[test]
fn allocated_ids_are_pairwise_distinct() {
    let (sink, rx) = recording_sink();
    let root = Reporter::new(sink, 3, "build".to_string());
    let a = root.stage(1, "a".to_string());
    let b = a.stage(1, "b".to_string());
    let c = root.stage(1, "c".to_string());
    let mut ids = Vec::new();
    while let Ok((_, event)) = rx.try_recv() {
        if let ProgressReport::BeginStage { id, .. } = event {
            ids.push(id);
        }
    }
    assert_eq!(ids.len(), 4);
    for i in 0..ids.len() {
        for j in 0..ids.len() {
            if i != j {
                assert_ne!(ids[i], ids[j]);
            }
        }
    }
    b.end();
    a.end();
    c.end();
    root.end();
}

#[test]
fn no_op_sink_swallows_everything() {
    let root = Reporter::new((), 2, "quiet".to_string());
    let child = root.stage(1, "still quiet".to_string());
    child.increment();
    child.end();
    root.increment();
    root.end();
}

#[test]
fn scenario_build_with_one_compile_child() {
    // Root with one declared step, standing for one child stage; the
    // child does three steps of its own, then ends: the final snapshot
    // is the build line at 1/1, with the compile line pruned away.
    let (sink, rx) = recording_sink();
    let root = Reporter::new(sink, 1, "build".to_string());
    let child = root.stage(3, "compile".to_string());
    child.increment();
    child.increment();
    child.increment();
    let child_id = child.id();
    child.end();
    let mut tracker = ProgressTracker::default();
    drain_into(&rx, &mut tracker);
    assert_eq!(
        tracker.render(),
        vec![Row { id: StageId(1), depth: 0, name: "build".to_string(), count: 1, total: 1 }],
    );
    // the compile record is still there with its final numbers
    let rec = tracker.record(child_id).unwrap();
    assert_eq!(rec.count, 3);
    assert_eq!(rec.total, 3);
    root.end();
}
