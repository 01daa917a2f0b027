use bytewhiffer::util::{
    elide_middle, format_duration, format_duration_secs, format_size, format_size_precise,
};
use std::time::Duration;

#[test]
fn format_size_uses_sensible_units() {
    assert_eq!(format_size(0), "0 B");
    assert_eq!(format_size(999), "999 B");
    assert_eq!(format_size(1536), "1.5 KB");
    assert_eq!(format_size(5 * 1024 * 1024), "5.0 MB");
    assert_eq!(format_size(2 * 1024 * 1024 * 1024), "2.0 GB");
}

#[test]
fn format_duration_switches_to_minutes_past_60s() {
    assert_eq!(format_duration(Duration::from_secs(0)), "0s");
    assert_eq!(format_duration(Duration::from_secs(42)), "42s");
    assert_eq!(format_duration(Duration::from_secs(65)), "1m 05s");
    assert_eq!(format_duration(Duration::from_secs(3725)), "62m 05s");
}

#[test]
fn format_size_precise_shows_an_extra_decimal() {
    assert_eq!(format_size_precise(0), "0 B");
    assert_eq!(format_size_precise(999), "999 B");
    assert_eq!(format_size_precise(1536), "1.50 KB");
    assert_eq!(format_size_precise(5 * 1024 * 1024), "5.00 MB");
    assert_eq!(format_size_precise(2 * 1024 * 1024 * 1024), "2.00 GB");
}

#[test]
fn elide_middle_leaves_short_strings_untouched() {
    assert_eq!(elide_middle("short/path.txt", 60), "short/path.txt");
    // Exactly at the budget is still untouched.
    assert_eq!(elide_middle("abcdef", 6), "abcdef");
}

#[test]
fn elide_middle_cuts_the_middle_and_respects_the_budget() {
    let long = "SteamLibrary/steamapps/common/Wuthering Waves/Content/pakchunk70.pak";
    let out = elide_middle(long, 40);
    assert_eq!(out.chars().count(), 40);
    assert!(out.contains('…'));
    assert!(out.starts_with("SteamLibrary"));
    assert!(out.ends_with("pakchunk70.pak"));
}

#[test]
fn elide_middle_favours_the_tail_on_an_odd_budget() {
    assert_eq!(elide_middle("abcdefghij", 6), "ab…hij");
}

#[test]
fn elide_middle_handles_multibyte_without_splitting_codepoints() {
    let s = "ααααα/ββββββββββ/γγγγγ.dat";
    let out = elide_middle(s, 12);
    assert_eq!(out.chars().count(), 12);
    assert!(out.contains('…'));
}

#[test]
fn elide_middle_degenerate_budget() {
    assert_eq!(elide_middle("anything", 1), "…");
    assert_eq!(elide_middle("anything", 0), "…");
}

/// What decimal formatting of the byte count as a double gives, the way the
/// size is rendered with one or two decimals.
fn float_reference(bytes: u64, places: usize) -> String {
    const UNITS: [&str; 6] = ["B", "KB", "MB", "GB", "TB", "PB"];
    let mut value = bytes as f64;
    let mut unit = 0;
    while value >= 1024.0 && unit < UNITS.len() - 1 {
        value /= 1024.0;
        unit += 1;
    }
    if unit == 0 {
        format!("{bytes} {}", UNITS[unit])
    } else {
        format!("{value:.places$} {}", UNITS[unit])
    }
}

#[test]
fn format_size_agrees_with_decimal_formatting_of_the_double() {
    let samples: [u64; 16] = [
        0,
        1,
        1023,
        1024,
        1280,
        1331,
        1536,
        10_000,
        1_048_575,
        1_048_576,
        123_456_789,
        (1 << 53) + 1,
        (1 << 53) + 3,
        9_007_199_254_740_993,
        1 << 60,
        u64::MAX,
    ];
    for bytes in samples {
        assert_eq!(format_size(bytes), float_reference(bytes, 1), "{bytes}");
        assert_eq!(format_size_precise(bytes), float_reference(bytes, 2), "{bytes}");
    }
}

#[test]
fn format_size_rounds_ties_to_even() {
    // 1280 bytes is exactly 1.25 KB; the tie goes to the even digit.
    assert_eq!(format_size(1280), "1.2 KB");
    // 1331.2 is not representable as a byte count; 1331 B is 1.2998 KB.
    assert_eq!(format_size(1331), "1.3 KB");
    assert_eq!(format_size_precise(1035), "1.01 KB");
}

#[test]
fn format_size_caps_at_petabytes() {
    assert_eq!(format_size(u64::MAX), "16384.0 PB");
    assert_eq!(format_size(1 << 50), "1.0 PB");
    assert_eq!(format_size((1 << 50) - 1), "1024.0 TB");
}

#[test]
fn format_duration_secs_pads_seconds_past_a_minute() {
    assert_eq!(format_duration_secs(59), "59s");
    assert_eq!(format_duration_secs(60), "1m 00s");
    assert_eq!(format_duration_secs(119), "1m 59s");
    assert_eq!(format_duration_secs(600), "10m 00s");
}
