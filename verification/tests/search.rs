use journal::calendar::DateTime;
use journal::entry::{Entry, Timestamp};
use journal::search::{highlight, search, search_lines, SearchOptions};

fn ts() -> Timestamp {
    Timestamp::from_datetime(DateTime::from_ymd_hms(2026, 1, 1, 0, 0, 0).unwrap())
}

/// A test entry with `tags` appended as a trailing line, the shape
/// `-t/--tags` produces.
fn e(tags: &[&str], body: &str) -> Entry {
    let full_body = if tags.is_empty() {
        body.to_string()
    } else {
        format!("{body}\n{}", tags.join(" "))
    };
    Entry::new(ts(), &full_body)
}

fn opts(all: bool, limit: Option<usize>) -> SearchOptions {
    SearchOptions { all, limit }
}

#[test]
fn or_mode_matches_any_term() {
    let entries = vec![e(&[], "fm radio"), e(&[], "linux kernel"), e(&[], "neither")];
    let results = search(&entries, "radio kernel", &opts(false, None));
    assert_eq!(results.len(), 2);
}

#[test]
fn and_mode_requires_all_terms() {
    let entries = vec![e(&[], "fm radio broadcast"), e(&[], "fm radio"), e(&[], "radio broadcast")];
    let results = search(&entries, "fm broadcast", &opts(true, None));
    assert_eq!(results.len(), 1);
    assert_eq!(results[0].body, "fm radio broadcast");
}

#[test]
fn plus_joins_words_into_one_substring_term() {
    let entries = vec![e(&[], "reading about linux kernel internals"), e(&[], "unrelated")];
    let results = search(&entries, "linux+kernel", &opts(false, None));
    assert_eq!(results.len(), 1);
}

#[test]
fn substring_matching_is_broad_by_design() {
    let entries = vec![e(&[], "the weather this month")];
    let results = search(&entries, "th", &opts(false, None));
    assert_eq!(results.len(), 1);
}

#[test]
fn tag_term_requires_full_word_match_not_substring() {
    let entries = vec![e(&["@bp"], "reading"), e(&["@bph"], "other")];
    let results = search(&entries, "@bp", &opts(false, None));
    assert_eq!(results.len(), 1);
    assert_eq!(results[0].tags(), vec!["@bp"]);
}

#[test]
fn tag_term_match_is_case_insensitive() {
    let entries = vec![e(&["@BP"], "reading")];
    let results = search(&entries, "@bp", &opts(false, None));
    assert_eq!(results.len(), 1);
}

#[test]
fn plain_term_matches_inside_tag_text_via_substring() {
    let entries = vec![e(&["@bp"], "reading")];
    let results = search(&entries, "bp", &opts(false, None));
    assert_eq!(results.len(), 1);
}

#[test]
fn limit_caps_number_of_results() {
    let entries = vec![e(&[], "match one"), e(&[], "match two"), e(&[], "match three")];
    let results = search(&entries, "match", &opts(false, Some(2)));
    assert_eq!(results.len(), 2);
}

#[test]
fn empty_query_matches_nothing() {
    let entries = vec![e(&[], "anything")];
    let results = search(&entries, "   ", &opts(false, None));
    assert!(results.is_empty());
    let results = search(&entries, "   ", &opts(true, None));
    assert!(results.is_empty());
}

#[test]
fn search_lines_or_mode_returns_only_lines_matching_any_term() {
    let entries = vec![e(&[], "fm radio\nunrelated line\nlinux kernel")];
    let results = search_lines(&entries, "radio kernel", &opts(false, None));
    assert_eq!(results.len(), 1);
    assert_eq!(results[0].1, vec!["fm radio", "linux kernel"]);
}

#[test]
fn search_lines_and_mode_requires_both_terms_on_the_same_line() {
    let entries = vec![e(&[], "fm radio\nbroadcast only")];
    let results = search_lines(&entries, "fm broadcast", &opts(true, None));
    assert!(results.is_empty());
}

#[test]
fn search_lines_and_mode_returns_the_line_with_both_terms() {
    let entries = vec![e(&[], "fm radio broadcast\nunrelated")];
    let results = search_lines(&entries, "fm broadcast", &opts(true, None));
    assert_eq!(results.len(), 1);
    assert_eq!(results[0].1, vec!["fm radio broadcast"]);
}

#[test]
fn search_lines_tag_term_requires_full_word_match_on_that_line() {
    let entries = vec![e(&[], "reading @bp today\nunrelated @bph line")];
    let results = search_lines(&entries, "@bp", &opts(false, None));
    assert_eq!(results.len(), 1);
    assert_eq!(results[0].1, vec!["reading @bp today"]);
}

#[test]
fn search_lines_excludes_entries_with_no_qualifying_line() {
    let entries = vec![e(&[], "nothing relevant here")];
    let results = search_lines(&entries, "absent", &opts(false, None));
    assert!(results.is_empty());
}

#[test]
fn search_lines_limit_caps_number_of_entries_not_lines() {
    let entries = vec![e(&[], "match one\nmatch again"), e(&[], "match two"), e(&[], "match three")];
    let results = search_lines(&entries, "match", &opts(false, Some(2)));
    assert_eq!(results.len(), 2);
}

#[test]
fn highlight_wraps_substring_case_insensitively() {
    let out = highlight("### reading about Linux kernel internals", "linux");
    assert_eq!(out, "### reading about \x1b[1;31mLinux\x1b[0m kernel internals");
}

#[test]
fn highlight_wraps_every_occurrence() {
    let out = highlight("match one, match two", "match");
    assert_eq!(out, "\x1b[1;31mmatch\x1b[0m one, \x1b[1;31mmatch\x1b[0m two");
}

#[test]
fn highlight_tag_requires_full_word_match_not_substring() {
    let out = highlight("reading @bp today, unrelated @bph entry", "@bp");
    assert_eq!(out, "reading \x1b[1;31m@bp\x1b[0m today, unrelated @bph entry");
}

#[test]
fn highlight_tag_match_is_case_insensitive() {
    let out = highlight("reading @BP today", "@bp");
    assert_eq!(out, "reading \x1b[1;31m@BP\x1b[0m today");
}

#[test]
fn highlight_merges_overlapping_ranges_from_multiple_terms() {
    let out = highlight("linux kernel internals", "kernel kern");
    assert_eq!(out, "linux \x1b[1;31mkernel\x1b[0m internals");
}

#[test]
fn highlight_returns_input_unchanged_when_nothing_matches() {
    let text = "nothing relevant here";
    assert_eq!(highlight(text, "absent"), text);
}

#[test]
fn highlight_returns_input_unchanged_for_empty_query() {
    let text = "some entry text";
    assert_eq!(highlight(text, "   "), text);
}

#[test]
fn highlight_merges_adjacent_matches_into_one_run() {
    let out = highlight("abab", "ab");
    assert_eq!(out, "\x1b[1;31mabab\x1b[0m");
}

#[test]
fn highlight_marks_overlapping_occurrences_of_one_term() {
    let out = highlight("xaaay", "aa");
    assert_eq!(out, "x\x1b[1;31maaa\x1b[0my");
}

#[test]
fn highlight_plus_term_matches_across_a_space() {
    let out = highlight("about Linux Kernel now", "linux+kernel");
    assert_eq!(out, "about \x1b[1;31mLinux Kernel\x1b[0m now");
}

#[test]
fn highlight_tag_at_the_very_end_of_the_text() {
    let out = highlight("reading @bp", "@bp");
    assert_eq!(out, "reading \x1b[1;31m@bp\x1b[0m");
}

#[test]
fn highlight_handles_text_that_is_not_ascii() {
    let out = highlight("café crème", "crème");
    assert_eq!(out, "café \x1b[1;31mcrème\x1b[0m");
}

#[test]
fn search_keeps_file_order() {
    let entries = vec![e(&[], "b match"), e(&[], "skip"), e(&[], "a match")];
    let results = search(&entries, "match", &opts(false, None));
    assert_eq!(results.len(), 2);
    assert_eq!(results[0].body, "b match");
    assert_eq!(results[1].body, "a match");
}

#[test]
fn search_matches_the_rendered_header_text() {
    let entries = vec![e(&[], "nothing")];
    let results = search(&entries, "2026-01-01", &opts(false, None));
    assert_eq!(results.len(), 1);
}

#[test]
fn every_entry_found_with_all_terms_is_found_with_any_term() {
    let entries = vec![e(&[], "fm radio"), e(&["@bp"], "radio"), e(&[], "nothing"), e(&["@bp"], "fm")];
    let all = search(&entries, "fm @bp", &opts(true, None));
    let any = search(&entries, "fm @bp", &opts(false, None));
    assert_eq!(all.len(), 1);
    assert_eq!(any.len(), 3);
    for x in &all {
        assert!(any.iter().any(|y| std::ptr::eq(*x, *y)));
    }
}

#[test]
fn limit_keeps_the_first_results_in_order() {
    let entries = vec![e(&[], "m 1"), e(&[], "x"), e(&[], "m 2"), e(&[], "m 3")];
    let whole = search(&entries, "m", &opts(false, None));
    let cut = search(&entries, "m", &opts(false, Some(2)));
    assert_eq!(cut.len(), 2);
    assert_eq!(cut[0].body, whole[0].body);
    assert_eq!(cut[1].body, whole[1].body);
}
