use dirpulse::text::display_width;
use dirpulse::text::pad_to_width;
use dirpulse::text::truncate_to_width;
use dirpulse::utils::hidden_by_name;
use dirpulse::utils::is_hidden_name;

#[test]
fn truncate_keeps_text_that_fits() {
    assert_eq!(truncate_to_width("hello", 5), "hello");
    assert_eq!(truncate_to_width("", 0), "");
}

#[test]
fn truncate_marks_a_cut_with_dots() {
    assert_eq!(truncate_to_width("hello world", 8), "hello...");
    assert_eq!(truncate_to_width("héllo wörld", 7), "héll...");
}

#[test]
fn truncate_to_three_or_less_is_all_dots() {
    assert_eq!(truncate_to_width("hello", 3), "...");
    assert_eq!(truncate_to_width("hello", 1), ".");
    assert_eq!(truncate_to_width("hello", 0), "");
}

#[test]
fn width_counts_four_byte_characters_twice() {
    assert_eq!(display_width("abc"), 3);
    assert_eq!(display_width("é"), 1);
    assert_eq!(display_width("\u{1F4E6} x"), 4);
    assert_eq!(display_width(""), 0);
}

#[test]
fn pad_fills_with_spaces() {
    assert_eq!(pad_to_width("ab", 5), "ab   ");
    assert_eq!(pad_to_width("\u{1F534}", 4), "\u{1F534}  ");
    assert_eq!(pad_to_width("abcdef", 3), "abcdef");
    assert_eq!(pad_to_width("abc", 3), "abc");
}

#[test]
fn dot_names_are_hidden() {
    assert!(is_hidden_name(".git"));
    assert!(is_hidden_name("."));
    assert!(!is_hidden_name("src"));
    assert!(!is_hidden_name(""));
    assert!(!is_hidden_name("a.b"));
}

#[test]
fn names_that_are_not_utf8_are_not_hidden() {
    assert!(!hidden_by_name(None));
    assert!(hidden_by_name(Some(".cache".to_string())));
    assert!(!hidden_by_name(Some("cache".to_string())));
}
