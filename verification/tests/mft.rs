use bytewhiffer::scanner::mft::{
    apply_fixups, boot_sector_parsable, parse_boot_sector, parse_data_runs, parse_record, quote_windows_arg,
    reconstruct, resolve_availability, try_reconstruct, DataRun, FileNameEntry, ParsedRecord, ATTR_DATA, ATTR_END,
    ATTR_FILE_NAME, ATTR_LENGTH_OFF, ATTR_NAME_LENGTH_OFF, ATTR_NONRES_REAL_SIZE_OFF,
    ATTR_NON_RESIDENT_OFF, ATTR_RES_VALUE_LENGTH_OFF, ATTR_RES_VALUE_OFFSET_OFF,
    ATTR_STANDARD_INFORMATION, ATTR_TYPE_OFF, FILE_ATTR_REPARSE_POINT, FLAG_DIRECTORY, FLAG_IN_USE,
    FNAME_FLAGS, FNAME_NAME, FNAME_NAMESPACE, FNAME_NAME_LENGTH, FNAME_PARENT_REF, NAMESPACE_DOS,
    REC_BASE_RECORD_REF, REC_FIRST_ATTR_OFFSET, REC_FLAGS, REC_HARD_LINK_COUNT, REC_SIGNATURE,
    REC_USA_COUNT, REC_USA_OFFSET, ROOT_RECORD, STDINFO_FILE_ATTRIBUTES,
};
use bytewhiffer::scanner::{Availability, Entry};

const REC_SIZE: usize = 1024;
const SECTOR: usize = 512;

fn resident_attr(attr_type: u32, name_len: u8, value: &[u8]) -> Vec<u8> {
    let header_len = 0x18usize;
    let content_off = header_len;
    let raw = header_len + value.len();
    let padded = (raw + 7) & !7;
    let mut a = vec![0u8; padded];
    a[ATTR_TYPE_OFF..ATTR_TYPE_OFF + 4].copy_from_slice(&attr_type.to_le_bytes());
    a[ATTR_LENGTH_OFF..ATTR_LENGTH_OFF + 4].copy_from_slice(&(padded as u32).to_le_bytes());
    a[ATTR_NON_RESIDENT_OFF] = 0;
    a[ATTR_NAME_LENGTH_OFF] = name_len;
    a[ATTR_RES_VALUE_LENGTH_OFF..ATTR_RES_VALUE_LENGTH_OFF + 4]
        .copy_from_slice(&(value.len() as u32).to_le_bytes());
    a[ATTR_RES_VALUE_OFFSET_OFF..ATTR_RES_VALUE_OFFSET_OFF + 2]
        .copy_from_slice(&(content_off as u16).to_le_bytes());
    a[content_off..content_off + value.len()].copy_from_slice(value);
    a
}

fn nonresident_data_attr(name_len: u8, real_size: u64) -> Vec<u8> {
    let len = 0x48usize;
    let mut a = vec![0u8; len];
    a[ATTR_TYPE_OFF..ATTR_TYPE_OFF + 4].copy_from_slice(&ATTR_DATA.to_le_bytes());
    a[ATTR_LENGTH_OFF..ATTR_LENGTH_OFF + 4].copy_from_slice(&(len as u32).to_le_bytes());
    a[ATTR_NON_RESIDENT_OFF] = 1;
    a[ATTR_NAME_LENGTH_OFF] = name_len;
    a[ATTR_NONRES_REAL_SIZE_OFF..ATTR_NONRES_REAL_SIZE_OFF + 8]
        .copy_from_slice(&real_size.to_le_bytes());
    a
}

fn std_info_attr(file_attributes: u32) -> Vec<u8> {
    let mut content = vec![0u8; 0x48];
    content[STDINFO_FILE_ATTRIBUTES..STDINFO_FILE_ATTRIBUTES + 4]
        .copy_from_slice(&file_attributes.to_le_bytes());
    resident_attr(ATTR_STANDARD_INFORMATION, 0, &content)
}

fn file_name_attr(parent: u64, name: &str, namespace: u8, file_attributes: u32) -> Vec<u8> {
    let units: Vec<u16> = name.encode_utf16().collect();
    let mut content = vec![0u8; FNAME_NAME + units.len() * 2];
    content[FNAME_PARENT_REF..FNAME_PARENT_REF + 8].copy_from_slice(&parent.to_le_bytes());
    content[FNAME_FLAGS..FNAME_FLAGS + 4].copy_from_slice(&file_attributes.to_le_bytes());
    content[FNAME_NAME_LENGTH] = units.len() as u8;
    content[FNAME_NAMESPACE] = namespace;
    for (i, u) in units.iter().enumerate() {
        content[FNAME_NAME + i * 2..FNAME_NAME + i * 2 + 2].copy_from_slice(&u.to_le_bytes());
    }
    resident_attr(ATTR_FILE_NAME, 0, &content)
}

fn build_record(flags: u16, hard_links: u16, base_ref: u64, attrs: &[Vec<u8>]) -> Vec<u8> {
    let mut buf = vec![0u8; REC_SIZE];
    buf[REC_SIGNATURE..REC_SIGNATURE + 4].copy_from_slice(b"FILE");
    let usa_off = 0x30usize;
    let sectors = REC_SIZE / SECTOR;
    let usa_count = (sectors + 1) as u16;
    buf[REC_USA_OFFSET..REC_USA_OFFSET + 2].copy_from_slice(&(usa_off as u16).to_le_bytes());
    buf[REC_USA_COUNT..REC_USA_COUNT + 2].copy_from_slice(&usa_count.to_le_bytes());
    buf[REC_HARD_LINK_COUNT..REC_HARD_LINK_COUNT + 2].copy_from_slice(&hard_links.to_le_bytes());
    let first_attr = 0x38usize;
    buf[REC_FIRST_ATTR_OFFSET..REC_FIRST_ATTR_OFFSET + 2]
        .copy_from_slice(&(first_attr as u16).to_le_bytes());
    buf[REC_FLAGS..REC_FLAGS + 2].copy_from_slice(&flags.to_le_bytes());
    buf[REC_BASE_RECORD_REF..REC_BASE_RECORD_REF + 8].copy_from_slice(&base_ref.to_le_bytes());

    let mut off = first_attr;
    for a in attrs {
        buf[off..off + a.len()].copy_from_slice(a);
        off += a.len();
    }
    buf[off..off + 4].copy_from_slice(&ATTR_END.to_le_bytes());

    let usn: u16 = 0xBEEF;
    buf[usa_off..usa_off + 2].copy_from_slice(&usn.to_le_bytes());
    for i in 0..sectors {
        let tail = (i + 1) * SECTOR;
        let real = [0xAAu8, 0xBB];
        let fixup_entry = usa_off + 2 * (i + 1);
        buf[fixup_entry..fixup_entry + 2].copy_from_slice(&real);
        buf[tail - 2..tail].copy_from_slice(&usn.to_le_bytes());
    }
    buf
}

fn dir_record(hard_links: u16, parent: u64, name: &str) -> Vec<u8> {
    build_record(
        FLAG_IN_USE | FLAG_DIRECTORY,
        hard_links,
        0,
        &[std_info_attr(0), file_name_attr(parent, name, 1, 0)],
    )
}

fn file_record(hard_links: u16, parent: u64, name: &str, size: u64) -> Vec<u8> {
    build_record(
        FLAG_IN_USE,
        hard_links,
        0,
        &[
            std_info_attr(0),
            file_name_attr(parent, name, 1, 0),
            nonresident_data_attr(0, size),
        ],
    )
}

#[test]
fn parses_a_file_records_name_parent_and_size() {
    let raw = file_record(1, 5, "hello.txt", 4096);
    let mut buf = raw.clone();
    assert!(apply_fixups(&mut buf));
    let rec = parse_record(20, &buf).expect("valid FILE record");
    assert!(rec.in_use);
    assert!(!rec.is_dir);
    assert!(rec.is_base);
    assert_eq!(rec.data_size, 4096);
    let name = rec.best_name().unwrap();
    assert_eq!(name.name, "hello.txt");
    assert_eq!(name.parent, 5);
}

#[test]
fn resident_data_size_is_read_from_the_value_length() {
    let raw = build_record(
        FLAG_IN_USE,
        1,
        0,
        &[
            std_info_attr(0),
            file_name_attr(5, "tiny.txt", 1, 0),
            resident_attr(ATTR_DATA, 0, &[0u8; 42]),
        ],
    );
    let mut buf = raw.clone();
    assert!(apply_fixups(&mut buf));
    let rec = parse_record(21, &buf).unwrap();
    assert_eq!(rec.data_size, 42);
}

#[test]
fn named_data_stream_does_not_count_as_file_size() {
    let raw = build_record(
        FLAG_IN_USE,
        1,
        0,
        &[
            file_name_attr(5, "f.bin", 1, 0),
            nonresident_data_attr(0, 1000),
            nonresident_data_attr(4, 9_999_999),
        ],
    );
    let mut buf = raw.clone();
    assert!(apply_fixups(&mut buf));
    let rec = parse_record(22, &buf).unwrap();
    assert_eq!(rec.data_size, 1000);
}

#[test]
fn best_name_prefers_win32_over_dos_short_name() {
    let raw = build_record(
        FLAG_IN_USE,
        1,
        0,
        &[
            file_name_attr(5, "PROGRA~1", NAMESPACE_DOS, 0),
            file_name_attr(5, "Program Files", 1, 0),
        ],
    );
    let mut buf = raw.clone();
    assert!(apply_fixups(&mut buf));
    let rec = parse_record(23, &buf).unwrap();
    assert_eq!(rec.best_name().unwrap().name, "Program Files");
}

#[test]
fn detects_reparse_point_flag() {
    let raw = build_record(
        FLAG_IN_USE | FLAG_DIRECTORY,
        1,
        0,
        &[
            std_info_attr(FILE_ATTR_REPARSE_POINT),
            file_name_attr(5, "junction", 1, FILE_ATTR_REPARSE_POINT),
        ],
    );
    let mut buf = raw.clone();
    assert!(apply_fixups(&mut buf));
    let rec = parse_record(24, &buf).unwrap();
    assert!(rec.is_reparse);
}

#[test]
fn non_file_signature_is_rejected() {
    let mut buf = vec![0u8; REC_SIZE];
    buf[0..4].copy_from_slice(b"BAAD");
    assert!(parse_record(0, &buf).is_none());
}

#[test]
fn fixups_restore_sector_tails_and_reject_mismatch() {
    let raw = file_record(1, 5, "x", 1);
    let mut good = raw.clone();
    assert!(apply_fixups(&mut good));
    assert_eq!(&good[SECTOR - 2..SECTOR], &[0xAA, 0xBB]);

    let mut bad = raw;
    bad[SECTOR - 1] = 0x00;
    assert!(!apply_fixups(&mut bad));
}

#[test]
fn boot_sector_parses_geometry() {
    let mut boot = vec![0u8; SECTOR];
    boot[3..11].copy_from_slice(b"NTFS    ");
    boot[0x0B..0x0D].copy_from_slice(&512u16.to_le_bytes());
    boot[0x0D] = 8;
    boot[0x30..0x38].copy_from_slice(&786_432u64.to_le_bytes());
    boot[0x40] = 246u8 as i8 as u8;
    let info = parse_boot_sector(&boot).expect("valid NTFS boot sector");
    assert_eq!(info.cluster_size, 4096);
    assert_eq!(info.mft_lcn, 786_432);
    assert_eq!(info.record_size, 1024);
    assert_eq!(info.mft_byte_offset(), 786_432 * 4096);
}

#[test]
fn non_ntfs_boot_sector_is_rejected() {
    let mut boot = vec![0u8; SECTOR];
    boot[3..11].copy_from_slice(b"MSDOS5.0");
    assert!(parse_boot_sector(&boot).is_none());
}

#[test]
fn data_runs_decode_length_and_signed_offset() {
    let bytes = [0x21, 0x18, 0x00, 0x01, 0x11, 0x08, 0x02, 0x00];
    let runs = parse_data_runs(&bytes);
    assert_eq!(runs.len(), 2);
    assert_eq!(runs[0], DataRun { lcn: 0x0100, cluster_count: 0x18 });
    assert_eq!(runs[1], DataRun { lcn: 0x0102, cluster_count: 0x08 });
}

#[test]
fn data_runs_handle_negative_offset_delta() {
    let bytes = [0x11, 0x10, 0x0A, 0x11, 0x10, 0xF6, 0x00];
    let runs = parse_data_runs(&bytes);
    assert_eq!(runs.len(), 2);
    assert_eq!(runs[0].lcn, 10);
    assert_eq!(runs[1].lcn, 0);
}

fn parsed(raw: Vec<u8>, number: u64) -> ParsedRecord {
    let mut buf = raw;
    apply_fixups(&mut buf);
    parse_record(number, &buf).unwrap()
}

fn sample_volume() -> Vec<ParsedRecord> {
    vec![
        parsed(dir_record(1, 5, "."), ROOT_RECORD),
        parsed(dir_record(1, 5, "Docs"), 16),
        parsed(file_record(1, 16, "a.txt", 100), 17),
        parsed(file_record(1, 16, "report.pdf", 400), 18),
        parsed(file_record(1, 5, "b.txt", 50), 19),
    ]
}

#[test]
fn reconstruct_computes_recursive_sizes() {
    let recs = sample_volume();
    let tree = reconstruct(&recs, ROOT_RECORD, "C:\\".into(), "C:\\".into());
    assert_eq!(tree.size, 550);
    let docs = tree.children.iter().find(|c| c.name == "Docs").unwrap();
    assert_eq!(docs.size, 500);
    assert_eq!(docs.children.len(), 2);
}

#[test]
fn reconstruct_matches_a_walker_style_rollup() {
    let recs = sample_volume();
    let tree = reconstruct(&recs, ROOT_RECORD, "C:\\".into(), "C:\\".into());
    fn check(e: &Entry) -> u64 {
        if e.is_dir {
            let sum: u64 = e.children.iter().map(check).sum();
            assert_eq!(e.size, sum + 0, "dir {} size == sum of children", e.name);
            e.size
        } else {
            e.size
        }
    }
    check(&tree);
}

#[test]
fn reconstruct_then_sort_orders_children_largest_first() {
    let recs = sample_volume();
    let mut tree = reconstruct(&recs, ROOT_RECORD, "C:\\".into(), "C:\\".into());
    tree.sort_children_recursive();
    assert_eq!(tree.children[0].name, "Docs");
    assert_eq!(tree.children[1].name, "b.txt");
    let docs = &tree.children[0];
    assert_eq!(docs.children[0].name, "report.pdf");
    assert_eq!(docs.children[1].name, "a.txt");
}

#[test]
fn deleted_records_are_excluded() {
    let mut recs = sample_volume();
    recs.iter_mut().find(|r| r.record_number == 19).unwrap().in_use = false;
    let tree = reconstruct(&recs, ROOT_RECORD, "C:\\".into(), "C:\\".into());
    assert!(tree.children.iter().all(|c| c.name != "b.txt"));
    assert_eq!(tree.size, 500);
}

#[test]
fn reparse_point_directory_is_not_traversed() {
    let recs = sample_volume();
    let mut recs2 = recs.clone();
    let docs = recs2.iter_mut().find(|r| r.record_number == 16).unwrap();
    docs.is_reparse = true;
    let tree = reconstruct(&recs2, ROOT_RECORD, "C:\\".into(), "C:\\".into());
    let docs_node = tree.children.iter().find(|c| c.name == "Docs").unwrap();
    assert!(docs_node.children.is_empty());
    assert_eq!(docs_node.size, 0);
    assert_eq!(tree.size, 50);
}

#[test]
fn hard_link_size_counted_once() {
    let mut recs = sample_volume();
    let a = recs.iter_mut().find(|r| r.record_number == 17).unwrap();
    a.hard_link_count = 2;
    a.names.push(FileNameEntry { parent: 5, name: "a-link.txt".into(), namespace: 1 });
    let tree = reconstruct(&recs, ROOT_RECORD, "C:\\".into(), "C:\\".into());
    assert_eq!(tree.size, 550);
}

#[test]
fn reserved_metadata_records_are_not_emitted() {
    let mut recs = sample_volume();
    recs.push(parsed(file_record(1, 5, "$MFT", 999_999), 0));
    let tree = reconstruct(&recs, ROOT_RECORD, "C:\\".into(), "C:\\".into());
    assert!(tree.children.iter().all(|c| c.name != "$MFT"));
    assert_eq!(tree.size, 550);
}

#[test]
fn parent_cycle_does_not_infinite_loop() {
    let recs = vec![
        parsed(dir_record(1, 5, "root"), ROOT_RECORD),
        parsed(dir_record(1, 17, "A"), 16),
        parsed(dir_record(1, 16, "B"), 17),
    ];
    let tree = reconstruct(&recs, ROOT_RECORD, "C:\\".into(), "C:\\".into());
    assert_eq!(tree.name, "C:\\");
}

#[test]
fn availability_branches_three_ways() {
    assert_eq!(
        resolve_availability(false, false),
        Availability::UnsupportedFilesystem
    );
    assert_eq!(
        resolve_availability(false, true),
        Availability::UnsupportedFilesystem
    );
    assert_eq!(
        resolve_availability(true, false),
        Availability::RequiresElevation
    );
    assert_eq!(resolve_availability(true, true), Availability::Available);
}

/// Reads one double-quoted argument back the way a Windows command line
/// does.
fn unquote_windows_arg(s: &str) -> String {
    let chars: Vec<char> = s.chars().collect();
    assert_eq!(chars.first(), Some(&'"'), "must start quoted");
    let mut out = String::new();
    let mut backslashes = 0usize;
    for &c in &chars[1..] {
        match c {
            '\\' => backslashes += 1,
            '"' => {
                for _ in 0..(backslashes / 2) {
                    out.push('\\');
                }
                if backslashes % 2 == 1 {
                    out.push('"');
                    backslashes = 0;
                } else {
                    break;
                }
            }
            _ => {
                for _ in 0..backslashes {
                    out.push('\\');
                }
                backslashes = 0;
                out.push(c);
            }
        }
    }
    out
}

#[test]
fn quote_windows_arg_round_trips_drive_roots_and_paths() {
    for original in [
        r"D:\",
        r"C:\",
        r"C:\Users\me\Documents",
        r"C:\path with spaces\",
        r#"C:\weird"name\"#,
        r"D:\trailing\\",
        "plain",
    ] {
        let quoted = quote_windows_arg(original);
        assert_eq!(
            unquote_windows_arg(&quoted),
            original,
            "quoting of {original:?} produced {quoted:?}, which did not round-trip"
        );
    }
    assert_eq!(quote_windows_arg(r"D:\"), r#""D:\\""#);
}

#[test]
fn quote_windows_arg_escapes_embedded_quotes() {
    assert_eq!(quote_windows_arg(r#"a"b"#), r#""a\"b""#);
    assert_eq!(quote_windows_arg(r#"a\"b"#), r#""a\\\"b""#);
    assert_eq!(quote_windows_arg(r"a\b"), r#""a\b""#);
    assert_eq!(quote_windows_arg(""), r#""""#);
}

#[test]
fn try_reconstruct_refuses_a_volume_whose_total_overflows() {
    let recs = vec![
        parsed(dir_record(1, 5, "."), ROOT_RECORD),
        parsed(file_record(1, 5, "huge.bin", u64::MAX), 16),
        parsed(file_record(1, 5, "more.bin", 1), 17),
    ];
    assert!(try_reconstruct(&recs, ROOT_RECORD, "C:\\".into(), "C:\\".into()).is_none());

    let fits = sample_volume();
    let tree = try_reconstruct(&fits, ROOT_RECORD, "C:\\".into(), "C:\\".into()).unwrap();
    assert_eq!(tree.size, 550);
}

#[test]
fn boot_sector_geometry_codes_outside_machine_range_are_flagged() {
    let mut boot = vec![0u8; SECTOR];
    boot[3..11].copy_from_slice(b"NTFS    ");
    boot[0x0B..0x0D].copy_from_slice(&512u16.to_le_bytes());
    boot[0x0D] = 8;
    boot[0x40] = 246u8 as i8 as u8;
    assert!(boot_sector_parsable(&boot));

    // A sectors-per-cluster code of -128 asks for 2^128 sectors.
    boot[0x0D] = 0x80;
    assert!(!boot_sector_parsable(&boot));

    // Clusters of 2^49 sectors of 512 bytes fit in 64 bits; 127 such
    // clusters per record do not.
    boot[0x0D] = (-49i8) as u8;
    boot[0x40] = 127;
    assert!(!boot_sector_parsable(&boot));

    let mut other = vec![0u8; SECTOR];
    other[3..11].copy_from_slice(b"MSDOS5.0");
    assert!(boot_sector_parsable(&other));
}

#[test]
fn reconstruct_places_children_at_their_joined_paths() {
    let recs = sample_volume();
    let tree = reconstruct(&recs, ROOT_RECORD, "C:\\".into(), "C:\\".into());
    let docs = tree.children.iter().find(|c| c.name == "Docs").unwrap();
    assert_eq!(docs.path, std::path::PathBuf::from("C:\\").join("Docs"));
    let report = docs.children.iter().find(|c| c.name == "report.pdf").unwrap();
    assert_eq!(report.path, std::path::PathBuf::from("C:\\").join("Docs").join("report.pdf"));
}
