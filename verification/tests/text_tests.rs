use clipboard_common::config::Config;
use clipboard_common::display::display_size;
use clipboard_common::display::item_time_ago;
use clipboard_common::display::u64_to_dec;
use clipboard_common::escape::build_search_pattern;
use clipboard_common::escape::choose_escape_char;
use clipboard_common::escape::escape_pattern;
use clipboard_common::escape::needs_escaping;
use clipboard_common::text::contains_substring;
use clipboard_common::text::find_substring;
use clipboard_common::text::parse_html_clipboard;

#[test]
fn find_substring_returns_first_match() {
    assert_eq!(find_substring("hello world", "world"), Some(6));
    assert_eq!(find_substring("aaa", "aa"), Some(0));
    assert_eq!(find_substring("hello", "xyz"), None);
    assert_eq!(find_substring("short", "much longer needle"), None);
    assert_eq!(find_substring("anything", ""), Some(0));
}

#[test]
fn contains_substring_is_literal_and_case_sensitive() {
    assert!(contains_substring("done 50% of work", "50%"));
    assert!(!contains_substring("a 50x50 grid", "50%"));
    assert!(contains_substring("Rust", "Ru"));
    assert!(!contains_substring("Rust", "ru"));
}

#[test]
fn html_fragment_is_cut_between_markers() {
    let payload = "<html><!--StartFragment--><b>bold</b><!--EndFragment--></html>".to_string();
    assert_eq!(parse_html_clipboard(payload), "<b>bold</b>".to_string());
}

#[test]
fn html_without_markers_passes_through() {
    let payload = "<html><b>bold</b></html>".to_string();
    assert_eq!(parse_html_clipboard(payload.clone()), payload);
}

#[test]
fn html_with_one_marker_passes_through() {
    let payload = "<html><!--StartFragment--><b>bold</b></html>".to_string();
    assert_eq!(parse_html_clipboard(payload.clone()), payload);
}

#[test]
fn escape_char_defaults_to_backslash() {
    assert_eq!(choose_escape_char("plain 50% query"), '\\');
}

#[test]
fn escape_char_falls_back_when_backslash_occurs() {
    assert_eq!(choose_escape_char("a\\b"), '!');
    assert_eq!(choose_escape_char("a\\b!"), '@');
    assert_eq!(choose_escape_char("a\\b!@#$"), '^');
}

#[test]
fn escape_char_keeps_default_when_all_fallbacks_occur() {
    let all = "\\!@#$^&*-=+|~`/?><,";
    assert_eq!(choose_escape_char(all), '\\');
}

#[test]
fn escaping_need_is_wildcard_presence() {
    assert!(needs_escaping("50%"));
    assert!(needs_escaping("under_score"));
    assert!(!needs_escaping("plain"));
}

#[test]
fn escape_pattern_prefixes_every_wildcard() {
    assert_eq!(escape_pattern("50%", '\\'), "50\\%".to_string());
    assert_eq!(escape_pattern("a_b%", '!'), "a!_b!%".to_string());
    assert_eq!(escape_pattern("plain", '\\'), "plain".to_string());
    assert_eq!(escape_pattern("%%", '/'), "/%/%".to_string());
}

#[test]
fn search_pattern_wraps_and_escapes() {
    let (plain, esc) = build_search_pattern("plain words");
    assert_eq!(plain, "%plain words%".to_string());
    assert_eq!(esc, None);
    let (escaped, esc) = build_search_pattern("50%");
    assert_eq!(escaped, "%50\\%%".to_string());
    assert_eq!(esc, Some('\\'));
    let (escaped, esc) = build_search_pattern("a\\b_c");
    assert_eq!(escaped, "%a\\b!_c%".to_string());
    assert_eq!(esc, Some('!'));
}

#[test]
fn decimal_rendering_is_exact() {
    assert_eq!(u64_to_dec(0), "0".to_string());
    assert_eq!(u64_to_dec(7), "7".to_string());
    assert_eq!(u64_to_dec(1234567890), "1234567890".to_string());
}

#[test]
fn display_size_scales_by_thousands() {
    assert_eq!(display_size(999), "999 Bytes".to_string());
    assert_eq!(display_size(1000), "1 Kilobytes".to_string());
    assert_eq!(display_size(999_999), "999 Kilobytes".to_string());
    assert_eq!(display_size(5_000_000), "5 Megabytes".to_string());
    assert_eq!(display_size(7_200_000_000), "7 Gigabytes".to_string());
}

#[test]
fn time_ago_uses_the_coarsest_unit() {
    assert_eq!(item_time_ago(0, 30_000), "30 seconds ago".to_string());
    assert_eq!(item_time_ago(0, 90_000), "1 minutes ago".to_string());
    assert_eq!(item_time_ago(0, 7_200_000), "2 hours ago".to_string());
    assert_eq!(item_time_ago(0, 3 * 86_400_000), "3 days ago".to_string());
    assert_eq!(item_time_ago(0, 65 * 86_400_000), "2 months ago".to_string());
    assert_eq!(item_time_ago(0, 800 * 86_400_000), "2 years ago".to_string());
}

#[test]
fn time_ago_from_a_backwards_clock_shows_negative_seconds() {
    assert_eq!(item_time_ago(10_000, 5_000), "-5 seconds ago".to_string());
}

#[test]
fn config_defaults_match_the_documented_values() {
    let cfg = Config::default();
    assert!(cfg.app.logging);
    assert_eq!(cfg.app.query_return_limit, 25);
    assert_eq!(cfg.app.timedate_format, "%b %e %Y, %l:%M:%S %p".to_string());
    assert!(!cfg.app.hide_when_deleted);
    assert!(!cfg.app.always_on_top);
    assert!(cfg.stores.text.enabled);
    assert_eq!(cfg.stores.text.max_size, 5120);
    assert!(!cfg.stores.image.enabled);
    assert_eq!(cfg.stores.image.max_size, 5120);
    assert!(!cfg.stores.file.enabled);
    assert_eq!(cfg.stores.file.max_size, 5120);
}
