use bytewhiffer::scanner::mft::{DataRun, ParsedRecord, ATTR_END, REC_FIRST_ATTR_OFFSET};
use bytewhiffer::scanner::volume::{
    descend, directory_entry, drive_of, drive_prefix, extract_subtree, mft_extents, parse_mft,
    parse_slot, read_slot, tally,
};
use bytewhiffer::scanner::{Entry, ScanProgress};
use std::path::{Path, PathBuf};
use std::sync::atomic::{AtomicBool, Ordering};

fn leaf(name: &str, size: u64) -> Entry {
    Entry {
        name: name.to_string(),
        path: PathBuf::from(name),
        size,
        is_dir: false,
        children: Vec::new(),
    }
}

fn folder(name: &str, children: Vec<Entry>) -> Entry {
    let size = children.iter().map(|c| c.size).sum();
    Entry {
        name: name.to_string(),
        path: PathBuf::from(name),
        size,
        is_dir: true,
        children,
    }
}

#[test]
fn drive_prefix_reads_a_leading_letter_and_colon() {
    assert_eq!(drive_prefix("c:\\Users"), Some("C:".to_string()));
    assert_eq!(drive_prefix("D:"), Some("D:".to_string()));
    assert_eq!(drive_prefix("/home/me"), None);
    assert_eq!(drive_prefix("1:\\"), None);
    assert_eq!(drive_prefix("C"), None);
    assert_eq!(drive_prefix("é:"), None);
    assert_eq!(drive_of(Path::new("e:\\data")), Some("E:".to_string()));
    assert_eq!(drive_of(Path::new("relative")), None);
}

#[test]
fn mft_extents_scale_runs_by_cluster_size() {
    let runs = [
        DataRun { lcn: 0x0100, cluster_count: 0x18 },
        DataRun { lcn: 0x0102, cluster_count: 0x08 },
    ];
    assert_eq!(
        mft_extents(&runs, 4096),
        Some(vec![(0x0100 * 4096, 0x18 * 4096), (0x0102 * 4096, 0x08 * 4096)])
    );
    let huge = [DataRun { lcn: u64::MAX, cluster_count: 1 }];
    assert_eq!(mft_extents(&huge, 4096), None);
    assert_eq!(mft_extents(&[], 4096), Some(Vec::new()));
}

#[test]
fn descend_follows_names_ignoring_case() {
    let volume = folder(
        "C:\\",
        vec![
            folder("Users", vec![folder("Me", vec![leaf("a.txt", 5)])]),
            leaf("pagefile.sys", 100),
        ],
    );
    let me = descend(
        volume,
        &["users".to_string(), "ME".to_string()],
        PathBuf::from("C:\\users\\ME"),
    );
    assert_eq!(me.name, "Me");
    assert_eq!(me.size, 5);
    assert_eq!(me.children.len(), 1);
}

#[test]
fn descend_stands_in_an_empty_directory_for_a_missing_component() {
    let volume = folder("C:\\", vec![folder("Users", vec![])]);
    let missing = descend(
        volume,
        &["Users".to_string(), "Ghost".to_string(), "Deeper".to_string()],
        PathBuf::from("C:\\Users\\Ghost\\Deeper"),
    );
    assert_eq!(missing.name, "Ghost");
    assert_eq!(missing.path, PathBuf::from("C:\\Users\\Ghost\\Deeper"));
    assert_eq!(missing.size, 0);
    assert!(missing.is_dir);
    assert!(missing.children.is_empty());
}

#[test]
fn extract_subtree_of_the_root_is_the_whole_volume() {
    let volume = folder("C:\\", vec![leaf("a", 1), leaf("b", 2)]);
    let whole = extract_subtree(volume, Path::new("/"));
    assert_eq!(whole.name, "C:\\");
    assert_eq!(whole.size, 3);
}

#[test]
fn directory_entry_totals_files_then_subdirectories() {
    let dir = directory_entry(
        "root".to_string(),
        PathBuf::from("root"),
        vec![leaf("a", 10), leaf("b", 20)],
        vec![folder("sub", vec![leaf("c", 5)])],
    )
    .unwrap();
    assert_eq!(dir.size, 35);
    let names: Vec<&str> = dir.children.iter().map(|c| c.name.as_str()).collect();
    assert_eq!(names, vec!["a", "b", "sub"]);
    assert!(dir.is_dir);

    assert!(directory_entry(
        "big".to_string(),
        PathBuf::from("big"),
        vec![leaf("a", u64::MAX)],
        vec![leaf("b", 1)],
    )
    .is_none());
}

#[test]
fn tally_counts_directories_files_and_bytes_below_the_root() {
    let tree = folder(
        "root",
        vec![leaf("a", 100), folder("sub", vec![leaf("b", 50), folder("empty", vec![])])],
    );
    let progress = ScanProgress::default();
    tally(&tree, &progress);
    assert_eq!(progress.files_scanned.load(Ordering::Relaxed), 2);
    assert_eq!(progress.dirs_scanned.load(Ordering::Relaxed), 2);
    assert_eq!(progress.bytes_scanned.load(Ordering::Relaxed), 150);
}

/// A 1024-byte FILE record with no fixups and no attributes.
fn bare_record() -> Vec<u8> {
    let mut buf = vec![0u8; 1024];
    buf[0..4].copy_from_slice(b"FILE");
    buf[4..6].copy_from_slice(&0x30u16.to_le_bytes());
    buf[6..8].copy_from_slice(&1u16.to_le_bytes());
    buf[REC_FIRST_ATTR_OFFSET..REC_FIRST_ATTR_OFFSET + 2].copy_from_slice(&0x38u16.to_le_bytes());
    buf[0x16..0x18].copy_from_slice(&1u16.to_le_bytes());
    buf[0x38..0x3C].copy_from_slice(&ATTR_END.to_le_bytes());
    buf
}

#[test]
fn parse_mft_keeps_file_records_in_slot_order() {
    let mut mft = bare_record();
    mft.extend(vec![0u8; 1024]);
    mft.extend(bare_record());
    let cancel = AtomicBool::new(false);
    let records: Vec<ParsedRecord> = parse_mft(&mft, 1024, &cancel);
    let numbers: Vec<u64> = records.iter().map(|r| r.record_number).collect();
    assert_eq!(numbers, vec![0, 2]);
    assert!(records.iter().all(|r| r.in_use));

    assert!(parse_slot(&mft, 1, 1024, &cancel).is_none());
    assert!(parse_slot(&mft, 3, 1024, &cancel).is_none());
    assert!(parse_slot(&mft, 0, 0, &cancel).is_none());

    let cancelled = AtomicBool::new(true);
    assert!(parse_mft(&mft, 1024, &cancelled).is_empty());
}

#[test]
fn read_slot_parses_the_slot_whatever_the_cancel_flag() {
    let mut mft = bare_record();
    mft.extend(bare_record());
    let second = read_slot(&mft, 1, 1024).unwrap();
    assert_eq!(second.record_number, 1);
    assert!(read_slot(&mft, 2, 1024).is_none());
    assert!(read_slot(&mft, 0, 0).is_none());

    let cancelled = AtomicBool::new(true);
    assert!(parse_slot(&mft, 1, 1024, &cancelled).is_none());
    let running = AtomicBool::new(false);
    assert_eq!(parse_slot(&mft, 1, 1024, &running).unwrap().record_number, 1);
}
