use chrono::{Datelike, Local, NaiveDateTime, Timelike};
use journal::calendar::DateTime;
use journal::cli::Cli;
use journal::entry::{DiffStyle, DisplayOpts, Entry};
use journal::output::{display_all, last_entries, search_output};
use journal::search::SearchOptions;

fn fixture() -> Vec<Entry> {
    Entry::parse_all(
        "[2026-07-01 08:00:00]\n\
         124/80/55 @bp @health\n\n\
         [2026-07-02 09:00:00]\n\
         unrelated tag that looks similar @bph\n\n\
         [2026-07-03 10:00:00]\n\
         reading about linux kernel internals\n\n\
         [2026-07-04 11:00:00]\n\
         the weather this month\n\n\
         [2026-07-05 12:00:00]\n\
         slept 7 hours, felt great @sleep\n\n",
    )
}

fn multiline_fixture() -> Vec<Entry> {
    Entry::parse_all(
        "[2026-07-10 08:00:00]\n\
         fm radio broadcast\n\
         unrelated line about weather\n\
         reading linux kernel internals\n\n",
    )
}

fn searchable_fixture() -> Vec<Entry> {
    Entry::parse_all("[2026-07-10 08:00:00]\nreading linux kernel internals\n\n")
}

fn plain() -> DisplayOpts<'static> {
    DisplayOpts { human: false, format: "%Y-%m-%d %H:%M", diff: DiffStyle::Short, header: true }
}

fn cli() -> Cli {
    Cli {
        text: None,
        last: None,
        tags: None,
        file: None,
        search: None,
        all: false,
        limit: None,
        lines_only: false,
        verbose: false,
        human: false,
        color: false,
        no_color: false,
        interactive: false,
        no_headers: false,
        all_tags: false,
        config: false,
    }
}

/// What a search prints, or `None` when nothing matched (exit status 1).
fn printed(entries: &[Entry], query: &str, all: bool, limit: Option<usize>, lines_only: bool, color: bool) -> Option<String> {
    let (matched, out) =
        search_output(entries, query, &SearchOptions { all, limit }, lines_only, color, &plain()).unwrap();
    if matched == 0 {
        assert_eq!(out, "");
        None
    } else {
        Some(out)
    }
}

#[test]
fn or_mode_is_default_and_matches_any_term() {
    let s = printed(&fixture(), "kernel weather", false, None, false, false).unwrap();
    assert!(s.contains("linux kernel"));
    assert!(s.contains("this month"));
    assert!(!s.contains("124/80/55"));
}

#[test]
fn and_mode_requires_all_terms_present() {
    assert_eq!(printed(&fixture(), "kernel weather", true, None, false, false), None);
}

#[test]
fn tag_term_full_word_match_excludes_lookalike_tag() {
    let s = printed(&fixture(), "@bp", false, None, false, false).unwrap();
    assert!(s.contains("124/80/55"));
    assert!(!s.contains("unrelated tag"));
}

#[test]
fn plus_joins_words_into_multiword_term() {
    let s = printed(&fixture(), "linux+kernel", false, None, false, false).unwrap();
    assert!(s.contains("linux kernel internals"));
}

#[test]
fn short_substring_matches_broadly() {
    let s = printed(&fixture(), "th", false, None, false, false).unwrap();
    assert!(s.contains("this month"));
}

#[test]
fn limit_caps_result_count() {
    let s = printed(&fixture(), "e", false, Some(1), false, false).unwrap();
    assert_eq!(s.matches("### 2026-").count(), 1);
}

#[test]
fn no_matches_exits_one_with_empty_stdout() {
    assert_eq!(printed(&fixture(), "@nonexistent", false, None, false, false), None);
}

#[test]
fn matches_are_separated_by_a_blank_line() {
    let s = printed(&fixture(), "@bp @sleep", false, None, false, false).unwrap();
    assert!(s.contains("124/80/55 @bp @health\n\n### 2026-07-05"));
}

#[test]
fn all_flag_without_search_is_a_usage_error() {
    let c = Cli { all: true, text: Some("some entry".to_string()), ..cli() };
    assert_eq!(c.validate(), Err("-a/--all can only be used with -s/--search".to_string()));
}

#[test]
fn lines_only_prints_header_then_only_matching_lines() {
    let s = printed(&multiline_fixture(), "radio kernel", false, None, true, false).unwrap();
    assert!(s.starts_with("### 2026-07-10 08:00:00\n"));
    assert!(s.contains("fm radio broadcast"));
    assert!(s.contains("reading linux kernel internals"));
    assert!(!s.contains("unrelated line about weather"));
}

#[test]
fn lines_only_with_all_flag_requires_both_terms_on_the_same_line() {
    assert_eq!(printed(&multiline_fixture(), "fm kernel", true, None, true, false), None);
}

#[test]
fn lines_only_with_all_flag_shows_the_line_containing_both_terms() {
    let s = printed(&multiline_fixture(), "radio broadcast", true, None, true, false).unwrap();
    assert!(s.contains("fm radio broadcast"));
    assert!(!s.contains("unrelated line about weather"));
    assert!(!s.contains("reading linux kernel internals"));
}

#[test]
fn lines_only_without_search_is_a_usage_error() {
    let c = Cli { lines_only: true, text: Some("some entry".to_string()), ..cli() };
    assert_eq!(c.validate(), Err("-L/--lines-only can only be used with -s/--search".to_string()));
}

#[test]
fn lines_only_output_has_no_color_codes_when_stdout_is_not_a_terminal() {
    let color = cli().highlight_enabled(false, false);
    let s = printed(&multiline_fixture(), "kernel", false, None, true, color).unwrap();
    assert!(s.contains("reading linux kernel internals"));
    assert!(!s.contains('\x1b'));
}

#[test]
fn search_output_has_no_color_codes_when_stdout_is_not_a_terminal() {
    let color = cli().highlight_enabled(false, false);
    let s = printed(&fixture(), "kernel", false, None, false, color).unwrap();
    assert!(s.contains("linux kernel"));
    assert!(!s.contains('\x1b'));
}

#[test]
fn search_output_has_no_color_codes_by_default() {
    let color = cli().highlight_enabled(false, false);
    let s = printed(&searchable_fixture(), "kernel", false, None, false, color).unwrap();
    assert!(s.contains("linux kernel"));
    assert!(!s.contains('\x1b'));
}

#[test]
fn lines_only_output_has_no_color_codes_by_default() {
    let color = cli().highlight_enabled(false, false);
    let s = printed(&searchable_fixture(), "kernel", false, None, true, color).unwrap();
    assert!(s.contains("reading linux kernel internals"));
    assert!(!s.contains('\x1b'));
}

#[test]
fn dash_dash_color_forces_highlight_even_when_piped() {
    let color = Cli { color: true, ..cli() }.highlight_enabled(false, false);
    let s = printed(&searchable_fixture(), "kernel", false, None, false, color).unwrap();
    assert!(s.contains('\x1b'));
}

#[test]
fn no_color_env_var_overrides_dash_dash_color() {
    let color = Cli { color: true, ..cli() }.highlight_enabled(true, false);
    let s = printed(&searchable_fixture(), "kernel", false, None, false, color).unwrap();
    assert!(!s.contains('\x1b'));
}

#[test]
fn default_output_shows_exact_on_disk_style_timestamp_with_no_age() {
    let entries = Entry::parse_all("[2026-07-10 08:00:00]\nslept fine\n\n");
    let s = display_all(&last_entries(&entries, 1), &plain()).unwrap();
    assert!(s.starts_with("### 2026-07-10 08:00:00\n"));
    assert!(!s.contains('('));
}

fn chrono_of(d: DateTime) -> NaiveDateTime {
    chrono::NaiveDate::from_ymd_opt(d.year, d.month, d.day)
        .unwrap()
        .and_hms_opt(d.hour, d.minute, d.second)
        .unwrap()
}

#[test]
fn human_flag_shows_configured_format_and_short_diff_by_default() {
    let now = Local::now().naive_local();
    let then = now - chrono::Duration::days(3);
    let text = format!("[{}]\nslept fine\n\n", then.format("%Y-%m-%d %H:%M:%S"));
    let entries = Entry::parse_all(&text);
    let opts = DisplayOpts { human: true, format: "%Y-%m-%d %H:%M", diff: DiffStyle::Short, header: true };
    let s = display_all(&last_entries(&entries, 1), &opts).unwrap();
    let resolved = chrono_of(entries[0].timestamp.resolved());
    assert_eq!((resolved.year(), resolved.hour()), (then.year(), then.hour()));
    assert!(s.starts_with(&format!("### {}", then.format("%Y-%m-%d %H:%M"))));
    assert!(s.contains("(3d)"));
}

#[test]
fn search_output_counts_the_matched_entries() {
    let opts = SearchOptions { all: false, limit: None };
    let (n, _) = search_output(&fixture(), "@bp @sleep", &opts, false, false, &plain()).unwrap();
    assert_eq!(n, 2);
    let (n, _) = search_output(&multiline_fixture(), "radio kernel", &opts, true, false, &plain()).unwrap();
    assert_eq!(n, 1);
}

#[test]
fn lines_only_without_headers_prints_just_the_lines() {
    let dopts = DisplayOpts { header: false, ..plain() };
    let opts = SearchOptions { all: false, limit: None };
    let (_, s) = search_output(&multiline_fixture(), "radio kernel", &opts, true, false, &dopts).unwrap();
    assert_eq!(s, "fm radio broadcast\nreading linux kernel internals\n");
}

#[test]
fn highlighting_marks_the_matched_lines_only() {
    let opts = SearchOptions { all: false, limit: None };
    let (_, s) = search_output(&multiline_fixture(), "2026 kernel", &opts, true, true, &plain()).unwrap();
    assert_eq!(s.lines().next(), Some("### 2026-07-10 08:00:00"));
    assert!(s.contains('\x1b'));
}
