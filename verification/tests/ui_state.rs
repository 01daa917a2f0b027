use bytewhiffer::display_tree::DisplayNode;
use bytewhiffer::insights::{
    CleanupCandidate, CleanupCategory, CleanupClassification, CleanupConfidence,
};
use bytewhiffer::scanner::Availability;
use bytewhiffer::ui_state::{
    action_target_from_cleanup_candidate, collapse_chain, focus_for, make_action_target,
    largest_dir_child, next_scan_id, next_tree_identity, repair_focus_after_removal, turbo_state,
    DebugShot, DebugShotMode, ShotAction, TurboState, focus_after_rescan,
};
use std::path::{Path, PathBuf};

fn names(list: &[&str]) -> Vec<String> {
    list.iter().map(|s| s.to_string()).collect()
}

#[test]
fn debug_shot_starts_idle() {
    let shot = DebugShot::new(PathBuf::from("out.png"), PathBuf::from("C:\\"), DebugShotMode::Drill);
    assert_eq!(shot.out, PathBuf::from("out.png"));
    assert_eq!(shot.scan, PathBuf::from("C:\\"));
    assert_eq!(shot.mode, DebugShotMode::Drill);
    assert!(!shot.started && !shot.drilled && !shot.requested);
    assert_eq!(shot.frames_after_done, 0);
}

#[test]
fn turbo_state_follows_availability_and_elevation() {
    assert_eq!(turbo_state(None, false), TurboState::Promptable);
    assert_eq!(turbo_state(None, true), TurboState::Active);
    assert_eq!(turbo_state(Some(Availability::Available), false), TurboState::Active);
    assert_eq!(
        turbo_state(Some(Availability::RequiresElevation), true),
        TurboState::Promptable
    );
    assert_eq!(
        turbo_state(Some(Availability::UnsupportedFilesystem), false),
        TurboState::Disabled
    );
    assert_eq!(
        turbo_state(Some(Availability::NotApplicable), true),
        TurboState::WarnUnsupported
    );
}

#[test]
fn focus_for_a_file_stops_at_its_parent() {
    let base = names(&["root", "a"]);
    assert_eq!(
        focus_for(&base, &names(&["b", "c.txt"]), false),
        names(&["root", "a", "b"])
    );
    assert_eq!(
        focus_for(&base, &names(&["b", "c"]), true),
        names(&["root", "a", "b", "c"])
    );
    assert_eq!(focus_for(&base, &[], false), base);
}

#[test]
fn action_target_names_come_from_the_trail_then_the_path() {
    let t = make_action_target(names(&["dir", "file.bin"]), PathBuf::from("scan/target"), false);
    assert_eq!(t.display_name, "file.bin");
    assert_eq!(t.trail, names(&["dir", "file.bin"]));
    assert!(!t.is_dir);

    let t = make_action_target(Vec::new(), PathBuf::from("scan").join("target"), true);
    assert_eq!(t.display_name, "target");
}

#[test]
fn cleanup_candidate_targets_are_relative_to_the_scan_root() {
    let candidate = CleanupCandidate {
        name: "node_modules".to_string(),
        trail: names(&["web", "node_modules"]),
        path: PathBuf::from("scan/web/node_modules"),
        is_dir: true,
        size: 10,
        classification: CleanupClassification {
            category: CleanupCategory::DependencyCache,
            reason: "test candidate",
            confidence: CleanupConfidence::Medium,
        },
    };
    let t = action_target_from_cleanup_candidate(&names(&["projects"]), &candidate);
    assert_eq!(t.trail, names(&["projects", "web", "node_modules"]));
    assert_eq!(t.path, PathBuf::from("scan/web/node_modules"));
    assert_eq!(t.display_name, "node_modules");
    assert!(t.is_dir);
}

#[test]
fn collapse_chain_walks_single_directory_runs() {
    let mut root = DisplayNode::new("root".to_owned(), PathBuf::from("root"), 0, true);
    root.insert(Path::new("a/b/c/x.bin"), 1, false);
    root.insert(Path::new("a/b/c/y.bin"), 1, false);
    let a = root.find(&names(&["a"])).unwrap();
    let (chain, end) = collapse_chain(a);
    assert_eq!(chain, vec!["a", "b", "c"]);
    assert_eq!(end.name, "c");
    assert_eq!(end.children.len(), 2);

    let (chain, end) = collapse_chain(&root);
    assert_eq!(chain, vec!["root", "a", "b", "c"]);
    assert_eq!(end.name, "c");
}

#[test]
fn focus_is_repaired_after_removal() {
    let mut root = DisplayNode::new("root".to_owned(), PathBuf::from("root"), 0, true);
    root.insert(Path::new("a/b/c.bin"), 1, false);
    root.insert(Path::new("keep/d.bin"), 1, false);
    assert!(root.remove(&names(&["a", "b"])));

    let repaired = repair_focus_after_removal(names(&["a", "b"]), &names(&["a", "b"]), Some(&root));
    assert_eq!(repaired, names(&["a"]));

    let repaired = repair_focus_after_removal(names(&["keep"]), &names(&["a", "b"]), Some(&root));
    assert_eq!(repaired, names(&["keep"]));

    let repaired = repair_focus_after_removal(names(&["gone", "deeper"]), &names(&["x"]), Some(&root));
    assert!(repaired.is_empty());

    let repaired = repair_focus_after_removal(names(&["keep"]), &names(&["keep"]), None);
    assert!(repaired.is_empty());
}

#[test]
fn scan_ids_skip_zero_and_the_running_generation() {
    assert_eq!(next_scan_id(1, None), (1, 2));
    assert_eq!(next_scan_id(0, None), (1, 2));
    assert_eq!(next_scan_id(5, Some(5)), (6, 7));
    assert_eq!(next_scan_id(u64::MAX, None), (u64::MAX, 1));
    assert_eq!(next_scan_id(u64::MAX, Some(u64::MAX)), (1, 2));
    assert_eq!(next_scan_id(0, Some(1)), (2, 3));
}

#[test]
fn tree_identity_never_returns_to_zero() {
    assert_eq!(next_tree_identity(0), 1);
    assert_eq!(next_tree_identity(41), 42);
    assert_eq!(next_tree_identity(u64::MAX), 1);
}

#[test]
fn ids_skip_zero_and_advance_across_generations() {
    let (first, next) = next_scan_id(1, None);
    let (second, _) = next_scan_id(next, None);
    assert_ne!(first, 0);
    assert!(second > first);
}

fn drill_tree() -> DisplayNode {
    let mut root = DisplayNode::new("root".to_owned(), PathBuf::from("root"), 0, true);
    root.insert(Path::new("a/x.bin"), 30, false);
    root.insert(Path::new("b/y.bin"), 30, false);
    root.insert(Path::new("big.bin"), 90, false);
    root
}

#[test]
fn largest_dir_child_takes_the_last_of_equal_sizes() {
    let root = drill_tree();
    assert_eq!(largest_dir_child(&root), Some("b".to_string()));
    let files_only = DisplayNode::new("f".to_owned(), PathBuf::from("f"), 0, true);
    assert_eq!(largest_dir_child(&files_only), None);
}

#[test]
fn final_capture_starts_waits_three_frames_then_saves() {
    let root = drill_tree();
    let mut shot = DebugShot::new(PathBuf::from("o.png"), PathBuf::from("s"), DebugShotMode::Final);
    assert!(matches!(shot.step(false, None, false, None), ShotAction::StartScan));
    assert!(shot.started);
    assert!(matches!(shot.step(false, Some(10), true, None), ShotAction::Wait));
    assert!(matches!(shot.step(false, None, false, Some(&root)), ShotAction::Wait));
    assert!(matches!(shot.step(false, None, false, Some(&root)), ShotAction::Wait));
    assert!(matches!(shot.step(false, None, false, Some(&root)), ShotAction::RequestScreenshot));
    assert!(shot.requested);
    assert!(matches!(shot.step(false, None, false, Some(&root)), ShotAction::Wait));
    assert!(matches!(shot.step(true, None, false, Some(&root)), ShotAction::SaveAndClose));
}

#[test]
fn live_capture_waits_for_five_hundred_files() {
    let mut shot = DebugShot::new(PathBuf::from("o.png"), PathBuf::from("s"), DebugShotMode::Live);
    shot.step(false, None, false, None);
    assert!(matches!(shot.step(false, Some(500), true, None), ShotAction::Wait));
    assert!(matches!(shot.step(false, Some(501), true, None), ShotAction::RequestScreenshot));
    assert!(matches!(shot.step(false, Some(900), true, None), ShotAction::Wait));
    assert_eq!(shot.frames_after_done, 0);
}

#[test]
fn drill_capture_focuses_the_largest_directory_first() {
    let root = drill_tree();
    let mut shot = DebugShot::new(PathBuf::from("o.png"), PathBuf::from("s"), DebugShotMode::Drill);
    shot.step(false, None, false, None);
    match shot.step(false, None, false, Some(&root)) {
        ShotAction::Focus(trail) => assert_eq!(trail, names(&["b"])),
        other => panic!("expected a focus, got {other:?}"),
    }
    assert!(shot.drilled);
    assert!(matches!(shot.step(false, None, false, Some(&root)), ShotAction::Wait));
    assert_eq!(shot.frames_after_done, 1);
}

#[test]
fn rescan_keeps_a_focus_that_still_resolves() {
    let root = drill_tree();
    assert_eq!(focus_after_rescan(&root, names(&["a"])), names(&["a"]));
    assert!(focus_after_rescan(&root, names(&["gone"])).is_empty());
}
