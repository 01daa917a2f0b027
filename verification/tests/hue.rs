use bytewhiffer::hue::{extension_hue, file_hue, fnv1a};

#[test]
fn fnv1a_matches_the_published_vectors() {
    assert_eq!(fnv1a(b""), 0xcbf2_9ce4_8422_2325);
    assert_eq!(fnv1a(b"a"), 0xaf63_dc4c_8601_ec8c);
    assert_eq!(fnv1a(b"foobar"), 0x8594_4171_f739_67e8);
}

#[test]
fn same_extension_same_color() {
    assert_eq!(extension_hue("rs"), extension_hue("rs"));
    assert_eq!(extension_hue("RS"), extension_hue("rs"));
    assert_eq!(file_hue("a.txt"), file_hue("b.txt"));
    assert_eq!(file_hue("a.TXT"), extension_hue("txt"));
}

#[test]
fn hue_is_the_hash_modulo_360() {
    assert_eq!(extension_hue("rs"), fnv1a(b"rs") % 360);
    assert_eq!(extension_hue("Txt"), fnv1a(b"txt") % 360);
    assert!(extension_hue("zip") < 360);
}

#[test]
fn different_extensions_differ_in_hue() {
    assert_ne!(extension_hue("rs"), extension_hue("txt"));
}

#[test]
fn extensionless_files_get_a_stable_fallback() {
    assert_eq!(file_hue("Makefile"), file_hue("LICENSE"));
    assert_eq!(file_hue(".gitignore"), file_hue("README"));
    assert_eq!(file_hue("README"), extension_hue(""));
}
