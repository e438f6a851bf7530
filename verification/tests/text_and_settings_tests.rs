use cpaste::clock::timestamp_from_epoch_millis;
use cpaste::settings::{maybe_decrypt, maybe_encrypt, strip_plain_prefixes};
use cpaste::text::{
    collapse_whitespace, format_int, format_milli, join, normalize_text, take_chars, text_utf8_len, trim,
};
use cpaste::models::default_true;

#[test]
fn normalize_trims_and_lowercases() {
    assert_eq!(normalize_text("  Hello World \n"), "hello world");
    assert_eq!(normalize_text("\u{3000}ΣΑΣ\t"), "σας");
    assert_eq!(normalize_text("   "), "");
}

#[test]
fn trim_keeps_inner_whitespace() {
    assert_eq!(trim(" a  b "), "a  b");
    assert_eq!(trim(""), "");
}

#[test]
fn take_chars_counts_chars_not_bytes() {
    assert_eq!(take_chars("héllo", 2), "hé");
    assert_eq!(take_chars("ab", 5), "ab");
}

#[test]
fn utf8_length_in_bytes() {
    assert_eq!(text_utf8_len("abc"), 3);
    assert_eq!(text_utf8_len("é"), 2);
    assert_eq!(text_utf8_len("图"), 3);
    assert_eq!(text_utf8_len("😀"), 4);
}

#[test]
fn milli_values_are_written_without_trailing_zeros() {
    assert_eq!(format_milli(80000), "80");
    assert_eq!(format_milli(98720), "98.72");
    assert_eq!(format_milli(40500), "40.5");
    assert_eq!(format_milli(1), "0.001");
    assert_eq!(format_milli(-35000), "-35");
    assert_eq!(format_milli(0), "0");
    assert_eq!(format_int(-42), "-42");
    assert_eq!(format_int(i64::MIN), "-9223372036854775808");
}

#[test]
fn join_puts_separator_between_parts() {
    let parts = vec!["a".to_string(), "b".to_string(), "c".to_string()];
    assert_eq!(join(&parts, "; "), "a; b; c");
    assert_eq!(join(&Vec::new(), "; "), "");
}

#[test]
fn plain_markers_are_stripped() {
    assert_eq!(strip_plain_prefixes("plain:plain:dark"), "dark");
    assert_eq!(strip_plain_prefixes("dark"), "dark");
    assert_eq!(strip_plain_prefixes("plain"), "plain");
    assert_eq!(strip_plain_prefixes("xplain:dark"), "xplain:dark");
    assert_eq!(strip_plain_prefixes("dark plain:"), "dark plain:");
}

#[test]
fn stored_values_read_back() {
    let stored = maybe_encrypt("theme", "plain:light");
    assert_eq!(stored, "plain:light");
    assert_eq!(maybe_decrypt("theme", &stored), "light");
    assert_eq!(maybe_decrypt("theme", "light"), "light");
}

#[test]
fn file_preview_defaults_to_true() {
    assert!(default_true());
}

#[test]
fn inner_whitespace_runs_become_one_space() {
    assert_eq!(normalize_text("  Hello   World "), "hello world");
    assert_eq!(normalize_text("a\t\tb"), "a b");
    assert_eq!(normalize_text("A\u{a0}\u{2003} B\nC"), "a b c");
    assert_eq!(collapse_whitespace(" x  y "), " x y ");
    assert_eq!(collapse_whitespace(""), "");
}

#[test]
fn epoch_readings_become_timestamps() {
    assert_eq!(timestamp_from_epoch_millis(Some(1_700_000_000_123)), 1_700_000_000_123);
    assert_eq!(timestamp_from_epoch_millis(None), 0);
    assert_eq!(timestamp_from_epoch_millis(Some((1u128 << 64) + 5)), 5);
}

#[test]
fn normalizing_twice_changes_nothing() {
    for s in ["  Hello   World ", "a\t\tB", "\n\n", "X", " a - B_c:\r\n D "] {
        let once = normalize_text(s);
        assert_eq!(normalize_text(&once), once);
        assert_eq!(once.trim(), once);
    }
}
