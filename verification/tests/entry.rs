use chrono::{Datelike, Local, NaiveDate, NaiveDateTime, Timelike};
use journal::calendar::DateTime;
use journal::elapsed::{render_diff, Elapsed};
use journal::entry::{
    entry_body, parse_header, tags_line_from_flag, DateSpec, DiffStyle, DisplayError, DisplayOpts,
    Entry, Timestamp,
};

fn dt(y: i32, mo: u32, d: u32, h: u32, mi: u32, s: u32) -> DateTime {
    DateTime::from_ymd_hms(y, mo, d, h, mi, s).unwrap()
}

fn ts(y: i32, mo: u32, d: u32, h: u32, mi: u32, s: u32) -> Timestamp {
    Timestamp::from_datetime(dt(y, mo, d, h, mi, s))
}

fn of_chrono(n: NaiveDateTime) -> DateTime {
    dt(n.year(), n.month(), n.day(), n.hour(), n.minute(), n.second())
}

fn chrono_of(d: DateTime) -> NaiveDateTime {
    NaiveDate::from_ymd_opt(d.year, d.month, d.day)
        .unwrap()
        .and_hms_opt(d.hour, d.minute, d.second)
        .unwrap()
}

fn chars(s: &str) -> Vec<char> {
    s.chars().collect()
}

#[test]
fn renders_timestamp_alone_on_its_own_line() {
    let e = Entry::new(ts(2026, 7, 28, 14, 3, 0), "124/80/55 @bp @health");
    assert_eq!(e.render(), "[2026-07-28 14:03:00]\n124/80/55 @bp @health\n\n");
}

#[test]
fn renders_header_with_no_body() {
    let e = Entry::new(ts(2026, 7, 28, 14, 3, 0), "");
    assert_eq!(e.render(), "[2026-07-28 14:03:00]\n\n");
}

#[test]
fn collapses_trailing_blank_lines_to_one() {
    let e = Entry::new(ts(2026, 7, 28, 14, 3, 0), "line1\nline2\n\n\n\n");
    assert_eq!(e.render(), "[2026-07-28 14:03:00]\nline1\nline2\n\n");
}

#[test]
fn appends_blank_line_when_none_present() {
    let e = Entry::new(ts(2026, 7, 28, 14, 3, 0), "just one line");
    assert_eq!(e.render(), "[2026-07-28 14:03:00]\njust one line\n\n");
}

#[test]
fn tags_are_recovered_from_anywhere_in_the_body() {
    let e = Entry::new(ts(2026, 7, 28, 14, 3, 0), "my @blood_pressure was 117/75/50");
    assert_eq!(e.tags(), vec!["@blood_pressure"]);
}

#[test]
fn tags_line_appended_by_dash_t_is_also_recovered() {
    let e = Entry::new(ts(2026, 7, 28, 14, 3, 0), "124/80/55\n@bp @health");
    assert_eq!(e.tags(), vec!["@bp", "@health"]);
}

#[test]
fn entry_with_no_at_tokens_has_no_tags() {
    let e = Entry::new(ts(2026, 7, 28, 14, 3, 0), "just plain text");
    assert!(e.tags().is_empty());
}

#[test]
fn tags_line_from_flag_prefixes_bare_words() {
    assert_eq!(tags_line_from_flag("beer @store"), Some("@beer @store".to_string()));
}

#[test]
fn tags_line_from_flag_leaves_already_prefixed_tags_alone() {
    assert_eq!(tags_line_from_flag("@bp @health"), Some("@bp @health".to_string()));
}

#[test]
fn tags_line_from_flag_is_none_for_blank_input() {
    assert_eq!(tags_line_from_flag(""), None);
    assert_eq!(tags_line_from_flag("   "), None);
}

#[test]
fn round_trips_through_render_and_parse() {
    let e = Entry::new(ts(2026, 7, 28, 14, 3, 0), "124/80/55 @bp");
    let parsed = Entry::parse(e.render().trim_end_matches('\n')).unwrap();
    assert_eq!(parsed.timestamp, e.timestamp);
    assert_eq!(parsed.body, e.body);
}

#[test]
fn stray_text_on_the_header_line_is_preserved_in_the_body() {
    let parsed = Entry::parse("[2026-07-28 14:03:00] oops no newline before this").unwrap();
    assert_eq!(parsed.body, "oops no newline before this");
}

#[test]
fn header_overflow_is_prepended_to_an_existing_body() {
    let parsed = Entry::parse("[2026-07-28 14:03:00] oops\nreal body line").unwrap();
    assert_eq!(parsed.body, "oops\nreal body line");
}

#[test]
fn old_format_header_tags_are_folded_into_the_body() {
    let parsed = Entry::parse("[2026-07-28 14:03:00] @bp @health\n124/80/55").unwrap();
    assert_eq!(parsed.body, "@bp @health\n124/80/55");
    assert_eq!(parsed.tags(), vec!["@bp", "@health"]);
}

#[test]
fn parses_multiple_entries_from_a_journal_file() {
    let file = "[2026-07-28 14:03:00]\n124/80/55 @bp\n\n[2026-07-29 09:00:00]\nslept fine\n\n";
    let entries = Entry::parse_all(file);
    assert_eq!(entries.len(), 2);
    assert_eq!(entries[0].body, "124/80/55 @bp");
    assert_eq!(entries[1].body, "slept fine");
}

#[test]
fn parse_all_tolerates_blank_lines_inside_a_body() {
    let file =
        "[2026-07-28 14:03:00]\npara one\n\npara two\n\n[2026-07-29 09:00:00]\nnext entry\n\n";
    let entries = Entry::parse_all(file);
    assert_eq!(entries.len(), 2);
    assert_eq!(entries[0].body, "para one\n\npara two");
    assert_eq!(entries[1].body, "next entry");
}

/// `then` and `now` exactly `secs` seconds apart, `then` in the past.
fn elapsed_secs_ago(secs: i64) -> (DateTime, DateTime) {
    let now = dt(2026, 7, 30, 12, 0, 0);
    let then = chrono_of(now) - chrono::Duration::seconds(secs);
    (of_chrono(then), now)
}

#[test]
fn render_diff_disabled_is_no_annotation_at_all() {
    let (then, now) = elapsed_secs_ago(30);
    assert_eq!(render_diff(DiffStyle::Disabled, then, now), None);
}

#[test]
fn render_diff_long_matches_doc_example_seconds_only() {
    let (then, now) = elapsed_secs_ago(30);
    assert_eq!(render_diff(DiffStyle::Long, then, now).unwrap(), "30 seconds ago");
}

#[test]
fn render_diff_long_matches_doc_example_minutes_and_seconds() {
    let (then, now) = elapsed_secs_ago(922);
    assert_eq!(render_diff(DiffStyle::Long, then, now).unwrap(), "15 minutes, 22 seconds ago");
}

#[test]
fn render_diff_long_matches_doc_example_hours_minutes_seconds() {
    let (then, now) = elapsed_secs_ago(10876);
    assert_eq!(
        render_diff(DiffStyle::Long, then, now).unwrap(),
        "3 hours, 1 minute, 16 seconds ago"
    );
}

#[test]
fn render_diff_long_window_excludes_units_past_max_even_if_nonzero() {
    let (then, now) = elapsed_secs_ago(2_505_610);
    assert_eq!(render_diff(DiffStyle::Long, then, now).unwrap(), "29 days ago");
}

#[test]
fn render_diff_long_zero_months_does_not_hide_days_within_the_window() {
    let then = dt(2021, 6, 20, 10, 0, 0);
    let now = dt(2025, 6, 27, 10, 0, 0);
    assert_eq!(render_diff(DiffStyle::Long, then, now).unwrap(), "4 years, 7 days ago");
}

#[test]
fn render_diff_long_caps_at_three_units() {
    let then = dt(2024, 5, 20, 7, 54, 54);
    let now = dt(2025, 7, 30, 12, 0, 0);
    assert_eq!(
        render_diff(DiffStyle::Long, then, now).unwrap(),
        "1 year, 2 months, 10 days ago"
    );
}

#[test]
fn render_diff_long_real_calendar_example_not_crude_approximation() {
    let then = dt(1990, 8, 8, 8, 0, 0);
    let now = dt(2026, 8, 5, 12, 0, 0);
    assert_eq!(
        render_diff(DiffStyle::Long, then, now).unwrap(),
        "35 years, 11 months, 28 days ago"
    );
}

#[test]
fn render_diff_long_month_addition_clamps_to_leap_day_not_march() {
    let then = dt(2024, 1, 31, 0, 0, 0);
    let now = dt(2024, 2, 29, 0, 0, 0);
    assert_eq!(render_diff(DiffStyle::Long, then, now).unwrap(), "1 month ago");
}

#[test]
fn render_diff_long_shows_hours_and_minutes_when_both_nonzero() {
    let secs = 5 * 86400 + 3 * 3600 + 20 * 60;
    let (then, now) = elapsed_secs_ago(secs);
    assert_eq!(
        render_diff(DiffStyle::Long, then, now).unwrap(),
        "5 days, 3 hours, 20 minutes ago"
    );
}

#[test]
fn render_diff_long_shows_only_hours_when_minutes_is_zero() {
    let secs = 5 * 86400 + 3 * 3600;
    let (then, now) = elapsed_secs_ago(secs);
    assert_eq!(render_diff(DiffStyle::Long, then, now).unwrap(), "5 days, 3 hours ago");
}

#[test]
fn render_diff_long_shows_only_minutes_when_hours_is_zero() {
    let secs = 5 * 86400 + 20 * 60;
    let (then, now) = elapsed_secs_ago(secs);
    assert_eq!(render_diff(DiffStyle::Long, then, now).unwrap(), "5 days, 20 minutes ago");
}

#[test]
fn render_diff_long_direction_future_is_from_now() {
    let now = dt(2026, 7, 30, 12, 0, 0);
    let then = of_chrono(chrono_of(now) + chrono::Duration::days(3));
    assert_eq!(render_diff(DiffStyle::Long, then, now).unwrap(), "3 days from now");
}

#[test]
fn render_diff_long_all_zero_falls_back_to_zero_seconds() {
    let now = dt(2026, 7, 30, 12, 0, 0);
    assert_eq!(render_diff(DiffStyle::Long, now, now).unwrap(), "0 seconds ago");
}

#[test]
fn render_diff_short_matches_doc_examples() {
    let (then, now) = elapsed_secs_ago(30);
    assert_eq!(render_diff(DiffStyle::Short, then, now).unwrap(), "30s");
    let (then, now) = elapsed_secs_ago(922);
    assert_eq!(render_diff(DiffStyle::Short, then, now).unwrap(), "15m, 22s");
    let (then, now) = elapsed_secs_ago(10876);
    assert_eq!(render_diff(DiffStyle::Short, then, now).unwrap(), "3h, 1m");
    let (then, now) = elapsed_secs_ago(2_120_495);
    assert_eq!(render_diff(DiffStyle::Short, then, now).unwrap(), "24d, 13h");
    let (then, now) = elapsed_secs_ago(2_505_610);
    assert_eq!(render_diff(DiffStyle::Short, then, now).unwrap(), "29d");
}

#[test]
fn render_diff_short_never_shows_more_than_the_unit_right_after_the_highest() {
    let secs = 5 * 86400 + 47 * 60;
    let (then, now) = elapsed_secs_ago(secs);
    assert_eq!(render_diff(DiffStyle::Short, then, now).unwrap(), "5d");

    let secs = 5 * 86400 + 3 * 3600 + 47 * 60;
    let (then, now) = elapsed_secs_ago(secs);
    assert_eq!(render_diff(DiffStyle::Short, then, now).unwrap(), "5d, 3h");
}

#[test]
fn render_diff_short_has_no_direction_word() {
    let now = dt(2026, 7, 30, 12, 0, 0);
    let then = of_chrono(chrono_of(now) + chrono::Duration::days(3));
    assert_eq!(render_diff(DiffStyle::Short, then, now).unwrap(), "3d");
}

#[test]
fn display_header_default_is_exact_on_disk_timestamp_with_no_age() {
    let e = Entry::new(ts(2026, 7, 28, 14, 3, 0), "slept fine");
    let opts = DisplayOpts { human: false, format: "", diff: DiffStyle::Short, header: true };
    assert_eq!(e.display_header(&opts).unwrap(), "### 2026-07-28 14:03:00\n");
}

#[test]
fn display_header_human_mode_short_diff_by_default() {
    let then = Local::now().naive_local() - chrono::Duration::days(3);
    let e = Entry::new(Timestamp::from_datetime(of_chrono(then)), "slept fine");
    let opts =
        DisplayOpts { human: true, format: "%Y-%m-%d %H:%M", diff: DiffStyle::Short, header: true };
    let header = e.display_header(&opts).unwrap();
    let resolved = chrono_of(e.timestamp.resolved());
    assert!(header.starts_with(&format!("### {}", resolved.format("%Y-%m-%d %H:%M"))));
    assert!(header.contains("(3d)"));
}

#[test]
fn display_header_human_mode_disabled_diff_has_no_parens() {
    let then = Local::now().naive_local() - chrono::Duration::days(3);
    let e = Entry::new(Timestamp::from_datetime(of_chrono(then)), "slept fine");
    let opts = DisplayOpts { human: true, format: "%Y-%m-%d", diff: DiffStyle::Disabled, header: true };
    let header = e.display_header(&opts).unwrap();
    let resolved = chrono_of(e.timestamp.resolved());
    assert_eq!(header, format!("### {}\n", resolved.format("%Y-%m-%d")));
    assert!(!header.contains('('));
}

fn dated(y: i32, mo: u32, d: u32, h: u32, mi: u32, s: u32) -> Timestamp {
    Timestamp { date: DateSpec::Full { year: y, month: mo, day: d }, hour: h, minute: mi, second: s }
}

fn year_only(y: i32, h: u32, mi: u32, s: u32) -> Timestamp {
    Timestamp { date: DateSpec::YearOnly(y), hour: h, minute: mi, second: s }
}

fn month_day_only(mo: u32, d: u32, h: u32, mi: u32, s: u32) -> Timestamp {
    Timestamp { date: DateSpec::MonthDayOnly { month: mo, day: d }, hour: h, minute: mi, second: s }
}

fn today_date(h: u32, mi: u32, s: u32) -> Timestamp {
    Timestamp { date: DateSpec::Today, hour: h, minute: mi, second: s }
}

#[test]
fn flexible_timestamp_year_only_defaults_to_jan_first_midnight() {
    let e = Entry::parse("[1972]\nold entry").unwrap();
    assert_eq!(e.timestamp, year_only(1972, 0, 0, 0));
}

#[test]
fn flexible_timestamp_month_day_with_no_year_tracks_the_current_year() {
    let e = Entry::parse("[08-07]\nold entry").unwrap();
    assert_eq!(e.timestamp, month_day_only(8, 7, 0, 0, 0));
}

#[test]
fn flexible_timestamp_year_and_time_defaults_month_and_day() {
    let e = Entry::parse("[1972 08:30]\nold entry").unwrap();
    assert_eq!(e.timestamp, year_only(1972, 8, 30, 0));
}

#[test]
fn flexible_timestamp_month_day_and_time_with_no_year() {
    let e = Entry::parse("[08-07 08:30]\nold entry").unwrap();
    assert_eq!(e.timestamp, month_day_only(8, 7, 8, 30, 0));
}

#[test]
fn flexible_timestamp_year_month_day_and_time_defaults_seconds() {
    let e = Entry::parse("[1972-06-15 08:30]\nold entry").unwrap();
    assert_eq!(e.timestamp, dated(1972, 6, 15, 8, 30, 0));
}

#[test]
fn flexible_timestamp_with_no_date_at_all_tracks_todays_date() {
    let e = Entry::parse("[08:30]\nno date given").unwrap();
    assert_eq!(e.timestamp, today_date(8, 30, 0));
}

#[test]
fn a_two_part_dash_date_is_month_day_not_year_month() {
    assert!(parse_header(&chars("[1972-06]")).is_none());
}

#[test]
fn empty_or_invalid_month_day_combinations_do_not_parse() {
    assert!(parse_header(&chars("[13-01]")).is_none());
    assert!(parse_header(&chars("[02-30]")).is_none());
}

#[test]
fn timestamp_with_no_year_resolves_against_the_current_year() {
    let e = Entry::parse("[08-07 08:30]\nno year given").unwrap();
    let current_year = Local::now().year();
    assert_eq!(e.timestamp.resolved(), dt(current_year, 8, 7, 8, 30, 0));
}

#[test]
fn timestamp_with_no_date_at_all_resolves_to_today() {
    let e = Entry::parse("[08:30]\nno date given").unwrap();
    let today = Local::now().date_naive();
    let r = e.timestamp.resolved();
    assert_eq!((r.year, r.month, r.day), (today.year(), today.month(), today.day()));
    assert_eq!((r.hour, r.minute, r.second), (8, 30, 0));
}

#[test]
fn month_day_of_feb_29_resolves_to_feb_28_in_a_non_leap_current_year() {
    let e = Entry::parse("[02-29]\nleap day, maybe").unwrap();
    let resolved = e.timestamp.resolved();
    let is_leap_year = NaiveDate::from_ymd_opt(resolved.year, 2, 29).is_some();
    assert_eq!(resolved.month, 2);
    assert_eq!(resolved.day, if is_leap_year { 29 } else { 28 });
}

#[test]
fn timestamp_with_no_date_at_all_still_gets_a_diff_annotation() {
    let then = Local::now().naive_local() - chrono::Duration::minutes(5);
    let e = Entry::parse(&format!("[{}]\nno date given", then.format("%H:%M:%S"))).unwrap();
    let opts = DisplayOpts { human: true, format: "%H:%M", diff: DiffStyle::Short, header: true };
    let header = e.display_header(&opts).unwrap();
    assert!(header.contains('('), "expected an elapsed-time annotation, got: {header}");
}

#[test]
fn timestamp_with_no_date_at_all_renders_on_disk_exactly_as_hand_typed() {
    let e = Entry::parse("[08:30]\nno date given").unwrap();
    assert_eq!(e.render(), "[08:30]\nno date given\n\n");
}

#[test]
fn shorthand_dated_timestamp_renders_on_disk_exactly_as_hand_typed() {
    let e = Entry::parse("[2025]\nsome body").unwrap();
    assert_eq!(e.render(), "[2025]\nsome body\n\n");
}

#[test]
fn shorthand_dated_timestamp_is_expanded_for_display_even_without_human_flag() {
    let e = Entry::parse("[2025]\nsome body").unwrap();
    let opts = DisplayOpts { human: false, format: "", diff: DiffStyle::Short, header: true };
    assert_eq!(e.display_header(&opts).unwrap(), "### 2025-01-01 00:00:00\n");
}

#[test]
fn timestamp_with_no_date_at_all_is_expanded_to_todays_date_for_display_even_without_human_flag() {
    let e = Entry::parse("[08:30]\nno date given").unwrap();
    let today = Local::now().date_naive();
    let opts = DisplayOpts { human: false, format: "", diff: DiffStyle::Short, header: true };
    assert_eq!(
        e.display_header(&opts).unwrap(),
        format!("### {} 08:30:00\n", today.format("%Y-%m-%d"))
    );
}

#[test]
fn freshly_appended_entry_has_no_raw_header_and_renders_canonically() {
    let e = Entry::now("just typed this");
    assert_eq!(e.raw_header, None);
}

#[test]
fn empty_header_brackets_do_not_parse_as_a_timestamp() {
    assert!(parse_header(&chars("[]")).is_none());
}

#[test]
fn garbage_header_text_does_not_parse_as_a_timestamp() {
    assert!(parse_header(&chars("[not a date]")).is_none());
}

#[test]
fn entry_body_appends_the_tags_line_as_its_own_line() {
    assert_eq!(entry_body("124/80/55 @bp", Some("beer @store")), "124/80/55 @bp\n@beer @store");
    assert_eq!(entry_body("slept 7 hours\n\n", Some("sleep")), "slept 7 hours\n@sleep");
    assert_eq!(entry_body("", Some("sleep")), "@sleep");
    assert_eq!(entry_body("just text", Some("   ")), "just text");
    assert_eq!(entry_body("just text\n\n", None), "just text");
}

#[test]
fn entry_body_tags_are_recovered_after_the_text_tags() {
    let body = entry_body("my @bp reading", Some("health @store"));
    let e = Entry::new(ts(2026, 7, 28, 14, 3, 0), &body);
    assert_eq!(e.tags(), vec!["@bp", "@health", "@store"]);
}

#[test]
fn normalizing_a_tags_line_twice_changes_nothing() {
    let once = tags_line_from_flag("  beer\t@store  x ").unwrap();
    assert_eq!(once, "@beer @store @x");
    assert_eq!(tags_line_from_flag(&once), Some(once.clone()));
}

#[test]
fn a_lone_at_sign_in_the_flag_is_written_but_is_no_tag() {
    let line = tags_line_from_flag("@ sleep").unwrap();
    assert_eq!(line, "@ @sleep");
    let e = Entry::new(ts(2026, 7, 28, 14, 3, 0), &line);
    assert_eq!(e.tags(), vec!["@sleep"]);
}

#[test]
fn round_trip_keeps_multi_line_bodies_and_blank_lines_inside() {
    let e = Entry::new(ts(1999, 12, 31, 23, 59, 59), "para one\n\npara two\n  \n\n");
    assert_eq!(e.body, "para one\n\npara two");
    let parsed = Entry::parse(e.render().trim_end_matches('\n')).unwrap();
    assert_eq!(parsed.timestamp, e.timestamp);
    assert_eq!(parsed.body, e.body);
    assert_eq!(parsed.raw_header, Some("1999-12-31 23:59:59".to_string()));
}

#[test]
fn round_trip_of_an_empty_body() {
    let e = Entry::new(ts(2026, 1, 2, 3, 4, 5), "");
    let parsed = Entry::parse(e.render().trim_end_matches('\n')).unwrap();
    assert_eq!(parsed.timestamp, e.timestamp);
    assert_eq!(parsed.body, "");
}

#[test]
fn a_carriage_return_before_a_line_break_is_dropped_on_reading() {
    let e = Entry::new(ts(2026, 1, 2, 3, 4, 5), "a\r\r\nb");
    assert_eq!(e.body, "a\r\nb");
    let parsed = Entry::parse(e.render().trim_end_matches('\n')).unwrap();
    assert_eq!(parsed.body, "a\nb");
}

#[test]
fn one_calendar_year_and_one_day_is_shown_as_such() {
    let then = dt(2023, 3, 10, 9, 0, 0);
    let now = dt(2024, 3, 11, 9, 0, 0);
    assert_eq!(render_diff(DiffStyle::Long, then, now).unwrap(), "1 year, 1 day ago");
}

#[test]
fn one_calendar_year_and_one_day_from_a_leap_day() {
    let then = dt(2024, 2, 29, 9, 0, 0);
    let now = dt(2025, 3, 1, 9, 0, 0);
    assert_eq!(render_diff(DiffStyle::Long, then, now).unwrap(), "1 year, 1 day ago");
    assert_eq!(render_diff(DiffStyle::Short, then, now).unwrap(), "1y");
}

#[test]
fn a_journal_written_entry_by_entry_reads_back_in_order() {
    let written = vec![
        Entry::new(ts(2026, 7, 28, 14, 3, 0), "124/80/55 @bp\n\n"),
        Entry::new(ts(2026, 7, 29, 9, 0, 0), "para one\n\npara two"),
        Entry::new(ts(2026, 7, 30, 9, 0, 0), ""),
    ];
    let file: String = written.iter().map(|e| e.render()).collect();
    let read = Entry::parse_all(&file);
    assert_eq!(read.len(), written.len());
    for (w, r) in written.iter().zip(&read) {
        assert_eq!(w.timestamp, r.timestamp);
        assert_eq!(w.body, r.body);
    }
    assert_eq!(read[0].raw_header, Some("2026-07-28 14:03:00".to_string()));
}

#[test]
fn a_body_line_that_is_a_header_starts_an_entry_of_its_own() {
    let e = Entry::new(ts(2026, 7, 28, 14, 3, 0), "first\n[2020-01-01 00:00:00]\nsecond");
    let read = Entry::parse_all(&e.render());
    assert_eq!(read.len(), 2);
    assert_eq!(read[0].body, "first");
    assert_eq!(read[1].body, "second");
}

#[test]
fn every_written_entry_ends_with_exactly_one_blank_line() {
    for text in ["", "x", "x\n", "x\n\n\n", "a\n\nb\n \n"] {
        let r = Entry::new(ts(2026, 7, 28, 14, 3, 0), text).render();
        assert!(r.ends_with("\n\n"));
        assert!(!r.ends_with("\n\n\n"));
    }
}

#[test]
fn a_template_needing_a_time_zone_cannot_be_displayed() {
    let e = Entry::new(ts(2026, 7, 28, 14, 3, 0), "x");
    let opts = DisplayOpts { human: true, format: "%Y %Z", diff: DiffStyle::Disabled, header: true };
    assert_eq!(e.display_header(&opts), Err(DisplayError::UnrenderableFormat));
}

#[test]
fn an_elapsed_time_in_the_last_representable_year_is_shown() {
    let e = Entry::new(ts(262142, 12, 31, 0, 0, 0), "x");
    let opts = DisplayOpts { human: true, format: "%Y", diff: DiffStyle::Short, header: true };
    let header = e.display_header(&opts).unwrap();
    assert!(header.starts_with("### +262142 ("), "{header}");
    let then = dt(262142, 1, 31, 0, 0, 0);
    let now = dt(262142, 12, 31, 23, 59, 59);
    assert_eq!(
        render_diff(DiffStyle::Long, then, now).unwrap(),
        "11 months, 23 hours ago"
    );
    let then = dt(262141, 12, 31, 0, 0, 0);
    assert_eq!(render_diff(DiffStyle::Short, then, now).unwrap(), "1y");
}

#[test]
fn no_headers_leaves_just_the_bodies() {
    let e = Entry::new(ts(2026, 7, 28, 14, 3, 0), "body line");
    let opts = DisplayOpts { human: false, format: "", diff: DiffStyle::Short, header: false };
    assert_eq!(e.display(&opts).unwrap(), "body line\n");
    assert_eq!(e.display_header(&opts).unwrap(), "");
}

#[test]
fn display_with_headers_ends_with_a_blank_line() {
    let e = Entry::new(ts(2026, 7, 28, 14, 3, 0), "body line");
    let opts = DisplayOpts { human: false, format: "", diff: DiffStyle::Short, header: true };
    assert_eq!(e.display(&opts).unwrap(), "### 2026-07-28 14:03:00\nbody line\n\n");
}

#[test]
fn a_parsed_entry_written_back_reads_back_with_its_header_text() {
    for raw in ["[2025]\nsome body", "[08:30]\nno date given", "[02-29 07:05]\nleap\n\n", "[1972-06-15 08:30] stray\nmore"] {
        let first = Entry::parse(raw).unwrap();
        let again = Entry::parse(first.render().trim_end_matches('\n')).unwrap();
        assert_eq!(again, first);
    }
}

#[test]
fn header_fields_need_their_exact_widths() {
    for bad in ["[1]", "[123]", "[12345]", "[8-7]", "[08-7]", "[1972-6-15]", "[8:30]", "[08:30:5]", "[4294967295]"] {
        assert!(parse_header(&chars(bad)).is_none(), "{bad}");
    }
    for good in ["[0001]", "[08-07]", "[1972-06-15 08:30:05]", "[08:30]"] {
        assert!(parse_header(&chars(good)).is_some(), "{good}");
    }
}

#[test]
fn a_footnote_marker_line_stays_in_the_body() {
    let e = Entry::new(ts(2026, 7, 28, 14, 3, 0), "see note\n[1]\nthe note");
    let read = Entry::parse_all(&e.render());
    assert_eq!(read.len(), 1);
    assert_eq!(read[0].body, "see note\n[1]\nthe note");
}

#[test]
fn parsing_a_rendering_as_written_gives_the_entry_back() {
    for text in ["124/80/55 @bp", "", "a\n\nb\n\n\n", "ends with cr\r"] {
        let e = Entry::new(ts(2026, 7, 28, 14, 3, 0), text);
        let rendered = e.render();
        let p = Entry::parse(&rendered).unwrap();
        assert_eq!(p.timestamp, e.timestamp);
        if text.ends_with('\r') {
            assert_eq!(p.body, "ends with cr");
        } else {
            assert_eq!(p.body, e.body);
            assert_eq!(p.render(), rendered);
        }
    }
}

#[test]
fn a_window_wider_than_the_units_takes_all_from_the_first_non_zero() {
    let el = Elapsed { future: false, years: 0, months: 2, days: 0, hours: 3, minutes: 0, seconds: 9 };
    assert_eq!(el.windowed_nonzero(100), vec![1, 3, 5]);
    assert_eq!(el.windowed_nonzero(usize::MAX), vec![1, 3, 5]);
    assert_eq!(el.windowed_nonzero(2), vec![1]);
    let zero = Elapsed { future: false, years: 0, months: 0, days: 0, hours: 0, minutes: 0, seconds: 0 };
    assert_eq!(zero.windowed_nonzero(3), vec![5]);
}
