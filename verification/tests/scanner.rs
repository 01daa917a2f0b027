use bytewhiffer::scanner::{
    live_event_channel, Entry, ScanContext, ScanEvent, ScanProgress, LIVE_EVENT_CAPACITY,
};
use std::path::PathBuf;

fn entry(name: &str, size: u64, children: Vec<Entry>) -> Entry {
    Entry {
        name: name.to_string(),
        path: PathBuf::from(name),
        size,
        is_dir: !children.is_empty(),
        children,
    }
}

#[test]
fn sort_children_recursive_orders_every_level_largest_first() {
    let mut tree = entry(
        "root",
        60,
        vec![
            entry("a", 10, vec![]),
            entry("b", 40, vec![entry("x", 1, vec![]), entry("y", 39, vec![])]),
            entry("c", 10, vec![]),
        ],
    );
    tree.sort_children_recursive();
    let names: Vec<&str> = tree.children.iter().map(|c| c.name.as_str()).collect();
    // Equal sizes keep their original order.
    assert_eq!(names, vec!["b", "a", "c"]);
    assert_eq!(tree.children[0].children[0].name, "y");
    assert_eq!(tree.child_count(), 3);
}

#[test]
fn clone_copies_the_whole_tree() {
    let tree = entry("root", 3, vec![entry("a", 1, vec![]), entry("b", 2, vec![])]);
    let copy = tree.clone();
    assert_eq!(copy.name, "root");
    assert_eq!(copy.children.len(), 2);
    assert_eq!(copy.children[1].size, 2);
    assert_eq!(copy.path, tree.path);
}

#[test]
fn events_are_stamped_with_the_context_generation() {
    let (tx, rx) = live_event_channel();
    let ctx = ScanContext::new().with_scan_id(7).with_events(tx);
    ctx.emit(ScanEvent::Discovered {
        scan_id: 0,
        path: PathBuf::from("a"),
        size: 5,
        is_dir: false,
    });
    let got = rx.try_recv().unwrap();
    assert_eq!(got.scan_id(), 7);
    let ui = ctx.ui_handle();
    assert_eq!(ui.scan_id, 7);
    assert!(ui.events.is_none());
    assert!(!ui.is_cancelled());
    ctx.cancel.store(true, std::sync::atomic::Ordering::Relaxed);
    assert!(ui.is_cancelled());
}

#[test]
fn live_channel_holds_a_bounded_backlog() {
    let (tx, rx) = live_event_channel();
    let ctx = ScanContext::new().with_events(tx);
    for i in 0..(LIVE_EVENT_CAPACITY + 10) {
        ctx.emit(ScanEvent::Discovered {
            scan_id: 0,
            path: PathBuf::from(format!("f{i}")),
            size: 1,
            is_dir: false,
        });
    }
    let mut received = 0;
    while rx.try_recv().is_ok() {
        received += 1;
    }
    assert_eq!(received, LIVE_EVENT_CAPACITY);
}

#[test]
fn progress_tracks_completion_and_conversion() {
    let progress = ScanProgress::default();
    assert!(!progress.is_complete());
    progress.mark_complete();
    assert!(progress.is_complete());
    progress.mark_incomplete();
    assert!(!progress.is_complete());

    assert!(!progress.conversion_started());
    progress.start_conversion(3);
    progress.conversion_node_finished();
    assert_eq!(progress.conversion_counts(), (3, 1));
    assert!(progress.conversion_started());
    assert!(!progress.conversion_complete());
    progress.finish_conversion();
    assert!(progress.conversion_complete());
}

#[test]
fn with_scan_id_restamps_an_event() {
    let event = ScanEvent::Discovered {
        scan_id: 1,
        path: PathBuf::from("p"),
        size: 2,
        is_dir: true,
    };
    let restamped = event.with_scan_id(9);
    assert_eq!(restamped.scan_id(), 9);
    match restamped {
        ScanEvent::Discovered { path, size, is_dir, .. } => {
            assert_eq!(path, PathBuf::from("p"));
            assert_eq!(size, 2);
            assert!(is_dir);
        }
    }
}
