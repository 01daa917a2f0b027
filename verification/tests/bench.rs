use bytewhiffer::bench::{synth_all_cards_tree, synth_dense_tree};
use bytewhiffer::scanner::Entry;
use std::path::PathBuf;

fn total(children: &[Entry]) -> u64 {
    children.iter().map(|c| c.size).sum()
}

#[test]
fn dense_tree_has_the_documented_shape() {
    let root = synth_dense_tree();
    assert_eq!(root.name, "C:\\");
    assert!(root.is_dir);
    assert_eq!(root.path, PathBuf::from("bench"));
    assert_eq!(root.children.len(), 12);
    assert_eq!(root.children[0].name, "archive0.zip");
    assert_eq!(root.children[0].size, 1_200_000_000);
    assert_eq!(root.children[7].name, "archive7.zip");
    assert_eq!(root.children[7].size, 2_600_000_000);

    let windows = &root.children[8];
    assert_eq!(windows.name, "Windows");
    let system32 = &windows.children[0];
    assert_eq!(system32.name, "System32");
    assert_eq!(system32.children.len(), 300);
    assert_eq!(system32.children[31].name, "mod31.dll");
    assert_eq!(system32.children[31].size, 2_830_000);
    assert_eq!(system32.children[32].size, 40_000);
    assert_eq!(system32.children[241].name, "drv1.sys");
    assert_eq!(system32.children[241].size, 50_000);

    let installers = &root.children[9];
    assert_eq!(installers.name, "Installers");
    assert_eq!(installers.children[13].name, "setup13.exe");
    assert_eq!(installers.children[13].size, 1_370_000_000);

    let downloads = &root.children[10];
    assert_eq!(downloads.children.len(), 38);
    assert_eq!(downloads.children[6].name, "clip6.mp4");
    assert_eq!(downloads.children[6].size, 7_000_000);
    assert_eq!(downloads.children[30].name, "iso0.iso");

    let program_files = &root.children[11];
    assert_eq!(program_files.name, "Program Files");
    assert_eq!(program_files.children.len(), 6);
    let app5 = &program_files.children[5];
    assert_eq!(app5.name, "App5");
    assert_eq!(app5.children[2].name, "sub2");
    assert_eq!(app5.children[2].children[23].name, "res23.bin");
    assert_eq!(app5.children[2].children[23].size, 440_000);
}

#[test]
fn dense_tree_directory_sizes_are_their_childrens_totals() {
    fn check(e: &Entry) {
        if e.is_dir {
            assert_eq!(e.size, total(&e.children), "{}", e.name);
            e.children.iter().for_each(check);
        } else {
            assert!(e.children.is_empty());
        }
    }
    let root = synth_dense_tree();
    check(&root);
    let archives: u64 = (0..8u64).map(|i| 1_200_000_000 + i * 200_000_000).sum();
    assert_eq!(total(&root.children[..8]), archives);
}

#[test]
fn mosaic_is_four_hundred_near_equal_files() {
    let root = synth_all_cards_tree();
    assert_eq!(root.name, "Mosaic");
    assert_eq!(root.children.len(), 400);
    assert_eq!(root.children[6].name, "file6.dat");
    assert_eq!(root.children[6].size, 1_240_000);
    assert_eq!(root.children[7].size, 1_000_000);
    let expected: u64 = (0..400u64).map(|i| 1_000_000 + (i % 7) * 40_000).sum();
    assert_eq!(root.size, expected);
}
