use bytewhiffer::outcome::{
    completion_step, event_is_current, prepare_outcome, CompletionPoll, CompletionStep,
    PreparedOutcome,
};
use bytewhiffer::scanner::{Entry, ScanEvent, ScanOutcome, ScanProgress};
use std::path::PathBuf;
use std::sync::atomic::AtomicBool;

#[test]
fn completions_publish_only_for_the_running_generation() {
    assert_eq!(completion_step(4, CompletionPoll::Received(4), false), CompletionStep::Publish);
    assert_eq!(completion_step(4, CompletionPoll::Received(3), true), CompletionStep::Discard);
    assert_eq!(completion_step(4, CompletionPoll::Empty, true), CompletionStep::Wait);
    assert_eq!(completion_step(4, CompletionPoll::Disconnected, false), CompletionStep::Wait);
    assert_eq!(
        completion_step(4, CompletionPoll::Disconnected, true),
        CompletionStep::PublishPanicked
    );
}

#[test]
fn events_of_other_generations_are_not_current() {
    let event = ScanEvent::Discovered {
        scan_id: 9,
        path: PathBuf::from("x"),
        size: 1,
        is_dir: false,
    };
    assert!(event_is_current(&event, 9));
    assert!(!event_is_current(&event, 8));
}

#[test]
fn prepared_outcomes_follow_the_engine_and_the_cancel_flag() {
    let entry = || Entry {
        name: "root".to_string(),
        path: PathBuf::from("root"),
        size: 0,
        is_dir: true,
        children: Vec::new(),
    };
    let progress = ScanProgress::default();
    let running = AtomicBool::new(false);
    let cancelled = AtomicBool::new(true);
    assert!(matches!(
        prepare_outcome(ScanOutcome::Success(entry()), &progress, &running),
        PreparedOutcome::Success(_)
    ));
    assert!(matches!(
        prepare_outcome(ScanOutcome::Success(entry()), &progress, &cancelled),
        PreparedOutcome::Cancelled
    ));
    assert!(matches!(
        prepare_outcome(ScanOutcome::Panicked, &progress, &running),
        PreparedOutcome::Panicked
    ));
}
