use bytewhiffer::insights::{
    classify_cleanup_candidate, extension_of, CleanupCategory, CleanupClassification,
    CleanupConfidence, InsightNode,
};
use bytewhiffer::scanner::Entry;
use std::path::PathBuf;

fn file(name: &str, size: u64) -> Entry {
    Entry {
        name: name.to_string(),
        path: PathBuf::from(name),
        size,
        is_dir: false,
        children: Vec::new(),
    }
}

fn dir(name: &str, children: Vec<Entry>) -> Entry {
    let size = children.iter().map(|c| c.size).sum();
    Entry {
        name: name.to_string(),
        path: PathBuf::from(name),
        size,
        is_dir: true,
        children,
    }
}

#[test]
fn extension_totals_sum_and_sort_largest_first() {
    let tree = dir(
        "root",
        vec![
            file("a.rs", 100),
            file("b.rs", 50),
            file("c.txt", 30),
            dir("sub", vec![file("d.rs", 10), file("Makefile", 5)]),
        ],
    );
    let view = InsightNode::from_entry(&tree);
    let totals = view.extension_totals();
    assert_eq!(
        totals,
        vec![
            ("rs".to_string(), 160),
            ("txt".to_string(), 30),
            (String::new(), 5),
        ]
    );
}

#[test]
fn extension_totals_are_case_insensitive() {
    let tree = dir("root", vec![file("a.PNG", 10), file("b.png", 5)]);
    let totals = InsightNode::from_entry(&tree).extension_totals();
    assert_eq!(totals, vec![("png".to_string(), 15)]);
}

#[test]
fn leaderboard_ranks_by_size_and_carries_trail() {
    let tree = dir(
        "root",
        vec![
            file("small.txt", 10),
            dir("big", vec![file("huge.bin", 900)]),
            file("mid.txt", 100),
        ],
    );
    let board = InsightNode::from_entry(&tree).leaderboard(3);
    let names: Vec<&str> = board.iter().map(|e| e.name.as_str()).collect();
    assert_eq!(
        names[0..2].iter().collect::<std::collections::HashSet<_>>(),
        ["big", "huge.bin"].iter().collect()
    );
    assert!(board.iter().all(|e| e.size >= 100));
    let huge = board.iter().find(|e| e.name == "huge.bin").unwrap();
    assert_eq!(huge.trail, vec!["big".to_string(), "huge.bin".to_string()]);
    assert!(!huge.is_dir);
}

#[test]
fn leaderboard_truncates_to_n() {
    let tree = dir(
        "root",
        (0..10).map(|i| file(&format!("f{i}.dat"), i)).collect(),
    );
    assert_eq!(InsightNode::from_entry(&tree).leaderboard(3).len(), 3);
}

#[test]
fn blizzard_catches_many_small_children_and_skips_normal_dirs() {
    let clutter = dir(
        "node_modules",
        (0..150).map(|i| file(&format!("m{i}.js"), 1024)).collect(),
    );
    let normal = dir(
        "media",
        (0..3)
            .map(|i| file(&format!("v{i}.mp4"), 500_000_000))
            .collect(),
    );
    let tree = dir("root", vec![clutter, normal]);
    let flags = InsightNode::from_entry(&tree).blizzard_flags();
    assert_eq!(flags.len(), 1);
    assert_eq!(flags[0].name, "node_modules");
    assert_eq!(flags[0].child_count, 150);
    assert_eq!(flags[0].avg_child_size, 1024);
}

#[test]
fn blizzard_skips_dir_with_high_count_but_large_average() {
    let big = dir(
        "assets",
        (0..120)
            .map(|i| file(&format!("a{i}.bin"), 10 * 1024 * 1024))
            .collect(),
    );
    let tree = dir("root", vec![big]);
    assert!(InsightNode::from_entry(&tree).blizzard_flags().is_empty());
}

#[test]
fn cleanup_candidates_return_structured_matches_and_skip_unrelated() {
    let tree = dir(
        "root",
        vec![
            dir("node_modules", vec![file("index.js", 100)]),
            dir("target", vec![file("app", 5000)]),
            dir(".cache", vec![file("index", 4000)]),
            dir("src", vec![file("main.rs", 200)]),
            file("setup_v2.exe", 9000),
            file("game.msi", 8000),
            file("photo.jpg", 300),
        ],
    );
    let candidates = InsightNode::from_entry(&tree).cleanup_candidates();
    let names: Vec<&str> = candidates.iter().map(|entry| entry.name.as_str()).collect();

    assert_eq!(
        names,
        vec!["setup_v2.exe", "game.msi", "target", ".cache", "node_modules"]
    );
    assert!(!candidates
        .iter()
        .any(|entry| entry.name == "src" || entry.name == "photo.jpg"));

    let node_modules = candidates
        .iter()
        .find(|entry| entry.name == "node_modules")
        .unwrap();
    assert_eq!(
        node_modules.classification,
        CleanupClassification {
            category: CleanupCategory::DependencyCache,
            reason: "A package dependency directory that can be restored by its package manager.",
            confidence: CleanupConfidence::Medium,
        }
    );
    assert_eq!(
        node_modules.classification.confidence.label(),
        "Medium confidence"
    );
}

#[test]
fn cleanup_classifier_covers_high_medium_and_context_dependent_matches() {
    let high = classify_cleanup_candidate(".CACHE", true).unwrap();
    assert_eq!(high.category, CleanupCategory::BrowserCache);
    assert_eq!(high.confidence, CleanupConfidence::High);

    let medium = classify_cleanup_candidate("NODE_MODULES", true).unwrap();
    assert_eq!(medium.category, CleanupCategory::DependencyCache);
    assert_eq!(medium.confidence, CleanupConfidence::Medium);

    for (name, is_dir, category) in [
        ("build", true, CleanupCategory::BuildOutput),
        ("dist", true, CleanupCategory::BuildOutput),
        ("out", true, CleanupCategory::BuildOutput),
        ("package.msi", false, CleanupCategory::Installer),
        ("setup.exe", false, CleanupCategory::Installer),
    ] {
        let classification = classify_cleanup_candidate(name, is_dir).unwrap();
        assert_eq!(
            classification.category, category,
            "classification for {name}"
        );
        assert_eq!(
            classification.confidence,
            CleanupConfidence::ContextDependent,
            "confidence for {name}"
        );
        assert!(
            !classification.reason.to_ascii_lowercase().contains("safe"),
            "reason must remain advisory for {name}"
        );
    }
}

#[test]
fn cleanup_classifier_is_case_insensitive_and_rejects_non_matches() {
    assert!(classify_cleanup_candidate("Code Cache", true).is_some());
    assert!(classify_cleanup_candidate("INSTALLER.EXE", false).is_some());
    assert!(classify_cleanup_candidate("src", true).is_none());
    assert!(classify_cleanup_candidate("launch.exe", false).is_none());
    assert!(classify_cleanup_candidate("photo.jpg", false).is_none());
}

#[test]
fn cleanup_candidates_do_not_descend_into_matched_directories() {
    let tree = dir(
        "root",
        vec![dir(
            "node_modules",
            vec![dir("node_modules", vec![file("x.js", 10)])],
        )],
    );
    let candidates = InsightNode::from_entry(&tree).cleanup_candidates();
    assert_eq!(candidates.len(), 1);
    assert_eq!(candidates[0].trail, vec!["node_modules".to_string()]);
}

#[test]
fn extension_of_lowercases_and_ignores_dotfiles() {
    assert_eq!(extension_of("Photo.JPG"), "jpg");
    assert_eq!(extension_of("archive.tar.gz"), "gz");
    assert_eq!(extension_of(".gitignore"), "");
    assert_eq!(extension_of("Makefile"), "");
    assert_eq!(extension_of("trailing."), "");
}

#[test]
fn leaderboard_keeps_depth_first_order_among_equal_sizes() {
    let tree = dir(
        "root",
        vec![
            file("first.bin", 7),
            dir("d", vec![file("inner.bin", 7)]),
            file("last.bin", 7),
        ],
    );
    let board = InsightNode::from_entry(&tree).leaderboard(10);
    let names: Vec<&str> = board.iter().map(|e| e.name.as_str()).collect();
    assert_eq!(names, vec!["first.bin", "d", "inner.bin", "last.bin"]);
    assert_eq!(board[2].trail, vec!["d".to_string(), "inner.bin".to_string()]);
}

#[test]
fn blizzard_flags_rank_by_child_count_and_never_flag_the_focus() {
    let small = dir(
        "small",
        (0..100).map(|i| file(&format!("s{i}"), 1)).collect(),
    );
    let large = dir(
        "large",
        (0..130).map(|i| file(&format!("l{i}"), 1)).collect(),
    );
    let tree = dir("root", vec![small, large]);
    let flags = InsightNode::from_entry(&tree).blizzard_flags();
    let names: Vec<&str> = flags.iter().map(|e| e.name.as_str()).collect();
    assert_eq!(names, vec!["large", "small"]);
    assert_eq!(flags[1].child_count, 100);

    let focus = dir("focus", (0..200).map(|i| file(&format!("f{i}"), 1)).collect());
    assert!(InsightNode::from_entry(&focus).blizzard_flags().is_empty());
}

#[test]
fn labels_read_as_documented() {
    assert_eq!(CleanupConfidence::High.label(), "High confidence");
    assert_eq!(CleanupConfidence::ContextDependent.label(), "Context-dependent");
    assert_eq!(CleanupCategory::BrowserCache.label(), "Application cache");
    assert_eq!(CleanupCategory::Installer.label(), "Installer");
}

#[test]
fn file_sizes_fit_reports_whether_extension_totals_can_sum() {
    let ok = dir("root", vec![file("a.bin", 7), dir("d", vec![file("b.bin", 9)])]);
    assert!(InsightNode::from_entry(&ok).file_sizes_fit());

    let huge = Entry {
        name: "root".to_string(),
        path: PathBuf::from("root"),
        size: u64::MAX,
        is_dir: true,
        children: vec![file("a.bin", u64::MAX), file("b.bin", 1)],
    };
    assert!(!InsightNode::from_entry(&huge).file_sizes_fit());
}
