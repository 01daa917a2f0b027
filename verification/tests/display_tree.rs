use bytewhiffer::display_tree::DisplayNode;
use bytewhiffer::scanner::{Entry, ScanProgress};
use std::path::{Path, PathBuf};
use std::sync::atomic::AtomicBool;

fn file(name: impl Into<String>, path: impl Into<PathBuf>, size: u64) -> Entry {
    Entry {
        name: name.into(),
        path: path.into(),
        size,
        is_dir: false,
        children: Vec::new(),
    }
}

fn dir(name: impl Into<String>, path: impl Into<PathBuf>, children: Vec<Entry>) -> Entry {
    let size = children.iter().map(|child| child.size).sum();
    Entry {
        name: name.into(),
        path: path.into(),
        size,
        is_dir: true,
        children,
    }
}

fn equivalent(a: &DisplayNode, b: &DisplayNode) -> bool {
    a.name == b.name
        && a.path == b.path
        && a.size == b.size
        && a.is_dir == b.is_dir
        && a.descendant_count() == b.descendant_count()
        && a.children.len() == b.children.len()
        && a.children.iter().all(|child| {
            b.child_position(&child.name)
                .is_some_and(|index| equivalent(child, &b.children[index]))
        })
}

fn synthetic_tree(width: usize, depth: usize, prefix: &str) -> Entry {
    if depth == 0 {
        return file(
            format!("{}.bin", prefix),
            PathBuf::from(prefix),
            (prefix.len() as u64 + 1) * 17,
        );
    }
    let children: Vec<Entry> = (0..width)
        .map(|index| synthetic_tree(width, depth - 1, &format!("{}_{}", prefix, index)))
        .collect();
    dir(prefix, PathBuf::from(prefix), children)
}

/// Fraction of display-tree preparation finished, as the progress bar shows
/// it.
fn conversion_progress(progress: &ScanProgress) -> f32 {
    if progress.conversion_complete() {
        return 1.0;
    }
    let (total, finished) = progress.conversion_counts();
    if total == 0 {
        return 0.0;
    }
    finished.min(total) as f32 / total as f32
}

#[test]
fn owned_conversion_matches_borrowed_reference_for_wide_deep_tree() {
    let entry = synthetic_tree(7, 5, "root");
    let borrowed = DisplayNode::from_entry(&entry);
    let owned = DisplayNode::from_owned_entry(entry);

    assert!(equivalent(&owned, &borrowed));
    assert_eq!(owned.descendant_count(), 19_607);
    assert!(owned.structural_rev() > 1);
}

#[test]
fn owned_conversion_reports_exact_progress_for_a_wide_tree() {
    let entry = synthetic_tree(3, 2, "root");
    let progress = ScanProgress::default();
    let cancel = AtomicBool::new(false);

    let converted = DisplayNode::from_owned_entry_with_progress(entry, &progress, &cancel);

    assert!(converted.is_some());
    assert!(progress.conversion_started());
    assert!(progress.conversion_complete());
    assert_eq!(progress.conversion_counts(), (13, 13));
    assert_eq!(conversion_progress(&progress), 1.0);
}

#[test]
fn insertion_maintains_counts_revisions_and_deterministic_order() {
    let mut root = DisplayNode::new("root".to_owned(), PathBuf::from("root"), 0, true);
    let initial_revision = root.structural_rev();

    root.insert(Path::new("z/leaf.bin"), 10, false);
    root.insert(Path::new("a/leaf.bin"), 30, false);
    root.insert(Path::new("z/second.bin"), 20, false);

    assert_eq!(root.size, 60);
    assert_eq!(root.descendant_count(), 5);
    assert_eq!(root.children[0].name, "a");
    assert_eq!(root.children[1].name, "z");
    assert_eq!(root.children[1].children[0].name, "second.bin");
    assert!(root.structural_rev() > initial_revision);

    let z_revision = root.find(&["z".to_owned()]).unwrap().structural_rev();
    root.insert(Path::new("z/third.bin"), 1, false);
    assert!(root.find(&["z".to_owned()]).unwrap().structural_rev() > z_revision);
    assert_eq!(root.descendant_count(), 6);

    root.insert(Path::new("z/huge.bin"), 100, false);
    assert_eq!(root.children[0].name, "z");
    assert_eq!(root.children[1].name, "a");
    assert_eq!(root.descendant_count(), 7);
}

#[test]
fn removal_updates_ancestors_without_touching_unrelated_branch() {
    let mut root = DisplayNode::new("root".to_owned(), PathBuf::from("root"), 0, true);
    root.insert(Path::new("a/deep/file.bin"), 100, false);
    root.insert(Path::new("b/other.bin"), 25, false);
    let b_revision = root.find(&["b".to_owned()]).unwrap().structural_rev();

    assert!(root.remove(&["a".to_owned(), "deep".to_owned(), "file.bin".to_owned()]));
    assert_eq!(root.size, 25);
    assert_eq!(root.descendant_count(), 4);
    assert_eq!(root.children[0].name, "b");
    assert!(root.find(&["a".to_owned(), "deep".to_owned()]).is_some());
    assert_eq!(
        root.find(&["b".to_owned()]).unwrap().structural_rev(),
        b_revision
    );
    assert!(!root.remove(&["missing".to_owned()]));
}

#[test]
fn equal_sizes_order_siblings_by_name() {
    let mut root = DisplayNode::new("root".to_owned(), PathBuf::from("root"), 0, true);
    root.insert(Path::new("b.bin"), 5, false);
    root.insert(Path::new("c.bin"), 5, false);
    root.insert(Path::new("a.bin"), 5, false);
    let names: Vec<&str> = root.children.iter().map(|c| c.name.as_str()).collect();
    assert_eq!(names, vec!["a.bin", "b.bin", "c.bin"]);
}

#[test]
fn repeated_discovery_grows_the_existing_node() {
    let mut root = DisplayNode::new("root".to_owned(), PathBuf::from("root"), 0, true);
    root.insert(Path::new("x.bin"), 5, false);
    let created = root.insert_components(&["x.bin".to_owned()], 7, false);
    assert_eq!(created, 0);
    assert_eq!(root.descendant_count(), 1);
    assert_eq!(root.find(&["x.bin".to_owned()]).unwrap().size, 12);
    assert_eq!(root.size, 12);
}

#[test]
fn insert_components_reports_created_nodes() {
    let mut root = DisplayNode::new("root".to_owned(), PathBuf::from("root"), 0, true);
    let created = root.insert_components(
        &["a".to_owned(), "b".to_owned(), "c.bin".to_owned()],
        3,
        false,
    );
    assert_eq!(created, 3);
    assert_eq!(root.descendant_count(), 3);
    let leaf = root
        .find(&["a".to_owned(), "b".to_owned(), "c.bin".to_owned()])
        .unwrap();
    assert!(!leaf.is_dir);
    assert!(root.find(&["a".to_owned(), "b".to_owned()]).unwrap().is_dir);
}

#[test]
fn removed_node_cannot_be_found_and_sizes_saturate() {
    let mut root = DisplayNode::new("root".to_owned(), PathBuf::from("root"), 0, true);
    root.insert(Path::new("keep/huge.bin"), u64::MAX, false);
    root.insert(Path::new("keep/small.bin"), 10, false);
    assert_eq!(root.size, u64::MAX);
    assert!(root.remove(&["keep".to_owned(), "huge.bin".to_owned()]));
    assert!(root.find(&["keep".to_owned(), "huge.bin".to_owned()]).is_none());
    assert_eq!(root.size, 0);
    assert_eq!(root.descendant_count(), 2);
    assert!(!root.remove(&[]));
}

#[test]
fn empty_path_insert_changes_nothing() {
    let mut root = DisplayNode::new("root".to_owned(), PathBuf::from("root"), 3, true);
    let rev = root.structural_rev();
    root.insert(Path::new(""), 10, false);
    assert_eq!(root.size, 3);
    assert_eq!(root.structural_rev(), rev);
    assert_eq!(root.descendant_count(), 0);
}

#[test]
fn conversion_orders_children_largest_first() {
    let entry = dir(
        "root",
        "root",
        vec![
            file("small", "root/small", 1),
            file("big", "root/big", 9),
            file("mid", "root/mid", 5),
        ],
    );
    let tree = DisplayNode::from_owned_entry(entry);
    let names: Vec<&str> = tree.children.iter().map(|c| c.name.as_str()).collect();
    assert_eq!(names, vec!["big", "mid", "small"]);
    assert_eq!(tree.descendant_count(), 3);
}

#[test]
fn cancelled_conversion_returns_nothing() {
    let entry = synthetic_tree(2, 2, "root");
    let progress = ScanProgress::default();
    let cancel = AtomicBool::new(true);
    assert!(DisplayNode::from_owned_entry_with_progress(entry, &progress, &cancel).is_none());
    assert!(!progress.conversion_complete());
}

#[test]
fn remove_nested_leaf_propagates_size_and_repairs_index() {
    let entry = dir(
        "root",
        "root",
        vec![
            dir(
                "alpha",
                "alpha",
                vec![file("a.bin", "a.bin", 7), file("b.bin", "b.bin", 11)],
            ),
            file("sibling.bin", "sibling.bin", 13),
        ],
    );
    let mut root = DisplayNode::from_entry(&entry);

    assert!(root.remove(&["alpha".into(), "a.bin".into()]));
    assert_eq!(root.size, 24);
    assert_eq!(root.find(&["alpha".into()]).unwrap().size, 11);
    let alpha = root.find(&["alpha".into()]).unwrap();
    assert!(alpha.find(&["a.bin".into()]).is_none());
    assert_eq!(alpha.child_position("b.bin"), Some(0));
}

#[test]
fn remove_top_level_child_rebuilds_sibling_indexes() {
    let entry = dir(
        "root",
        "root",
        vec![file("first.bin", "first.bin", 5), file("second.bin", "second.bin", 9)],
    );
    let mut root = DisplayNode::from_entry(&entry);

    assert!(root.remove(&["first.bin".into()]));
    assert_eq!(root.size, 9);
    assert_eq!(root.child_position("second.bin"), Some(0));
    assert!(root.find(&["first.bin".into()]).is_none());
}

#[test]
fn missing_removal_does_not_change_tree() {
    let entry = dir(
        "root",
        "root",
        vec![dir("alpha", "alpha", vec![file("a.bin", "a.bin", 7)])],
    );
    let mut root = DisplayNode::from_entry(&entry);
    let before_size = root.size;
    let before_children: Vec<String> = root
        .children
        .iter()
        .map(|child| child.name.clone())
        .collect();

    assert!(!root.remove(&["alpha".into(), "missing.bin".into()]));
    assert_eq!(root.size, before_size);
    assert_eq!(
        root.children
            .iter()
            .map(|child| child.name.clone())
            .collect::<Vec<_>>(),
        before_children
    );
    assert_eq!(root.find(&["alpha".into()]).unwrap().size, 7);
}

#[test]
fn removal_uses_saturating_size_policy_for_large_values() {
    let entry = Entry {
        name: "root".to_owned(),
        path: PathBuf::from("root"),
        size: u64::MAX,
        is_dir: true,
        children: vec![Entry {
            name: "huge.bin".to_owned(),
            path: PathBuf::from("huge.bin"),
            size: u64::MAX,
            is_dir: false,
            children: Vec::new(),
        }],
    };
    let mut root = DisplayNode::from_entry(&entry);

    assert!(root.remove(&["huge.bin".into()]));
    assert_eq!(root.size, 0);
}

#[test]
fn insert_names_grows_the_named_path_and_ignores_an_empty_one() {
    let mut root = DisplayNode::new("root".to_owned(), PathBuf::from("root"), 0, true);
    root.insert_names(&["a".to_owned(), "b.bin".to_owned()], 4, false);
    assert_eq!(root.size, 4);
    assert_eq!(root.descendant_count(), 2);
    assert_eq!(root.find(&["a".to_owned(), "b.bin".to_owned()]).unwrap().size, 4);

    let rev = root.structural_rev();
    root.insert_names(&[], 9, false);
    assert_eq!(root.size, 4);
    assert_eq!(root.structural_rev(), rev);
}

#[test]
fn inserted_nodes_sit_at_joined_paths() {
    let mut root = DisplayNode::new("root".to_owned(), PathBuf::from("root"), 0, true);
    root.insert(Path::new("a/b.bin"), 3, false);
    let a = root.find(&["a".to_owned()]).unwrap();
    assert_eq!(a.path, PathBuf::from("root").join("a"));
    let b = root.find(&["a".to_owned(), "b.bin".to_owned()]).unwrap();
    assert_eq!(b.path, PathBuf::from("root").join("a").join("b.bin"));
}

#[test]
fn conversion_revisions_count_each_nodes_children() {
    let entry = dir(
        "root",
        "root",
        vec![
            dir("d", "d", vec![file("x", "x", 1), file("y", "y", 2)]),
            file("z", "z", 3),
        ],
    );
    let tree = DisplayNode::from_entry(&entry);
    assert_eq!(tree.structural_rev(), 3);
    assert_eq!(tree.find(&["d".to_owned()]).unwrap().structural_rev(), 3);
    assert_eq!(tree.find(&["z".to_owned()]).unwrap().structural_rev(), 1);
}

#[test]
fn insertion_adds_one_node_per_missing_component() {
    let mut root = DisplayNode::new("root".to_owned(), PathBuf::from("root"), 0, true);
    root.insert(Path::new("a/b/c.bin"), 1, false);
    assert_eq!(root.descendant_count(), 3);
    root.insert(Path::new("a/b/d.bin"), 1, false);
    assert_eq!(root.descendant_count(), 4);
    root.insert(Path::new("a/b/d.bin"), 1, false);
    assert_eq!(root.descendant_count(), 4);
}
