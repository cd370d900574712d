use journal::calendar::DateTime;
use journal::entry::{DiffStyle, DisplayOpts, Entry, Timestamp};
use journal::output::{display_all, display_lines_at, last_entries};

fn entry(s: u32, body: &str) -> Entry {
    Entry::new(Timestamp::from_datetime(DateTime::from_ymd_hms(2026, 7, 1, 8, 0, s).unwrap()), body)
}

fn opts(header: bool) -> DisplayOpts<'static> {
    DisplayOpts { human: false, format: "%Y-%m-%d %H:%M", diff: DiffStyle::Short, header }
}

#[test]
fn last_entries_keeps_the_newest_oldest_first() {
    let es = vec![entry(1, "one"), entry(2, "two"), entry(3, "three")];
    let last: Vec<&str> = last_entries(&es, 2).iter().map(|e| e.body.as_str()).collect();
    assert_eq!(last, vec!["two", "three"]);
}

#[test]
fn last_entries_shows_everything_when_asked_for_more() {
    let es = vec![entry(1, "one"), entry(2, "two")];
    assert_eq!(last_entries(&es, 5).len(), 2);
    assert_eq!(last_entries(&es, 0).len(), 0);
    assert_eq!(last_entries(&[], 3).len(), 0);
}

#[test]
fn display_all_puts_a_blank_line_after_each_entry() {
    let es = vec![entry(1, "one"), entry(2, "two")];
    let refs: Vec<&Entry> = es.iter().collect();
    assert_eq!(
        display_all(&refs, &opts(true)).unwrap(),
        "### 2026-07-01 08:00:01\none\n\n### 2026-07-01 08:00:02\ntwo\n\n"
    );
}

#[test]
fn no_headers_runs_bodies_into_each_other() {
    let es = vec![entry(1, "124/80/55 @bp @health"), entry(2, "two")];
    let refs: Vec<&Entry> = es.iter().collect();
    assert_eq!(display_all(&refs, &opts(false)).unwrap(), "124/80/55 @bp @health\ntwo\n");
    assert_eq!(display_all(&refs[..1], &opts(false)).unwrap(), "124/80/55 @bp @health\n");
}

#[test]
fn display_lines_shows_the_header_then_the_lines() {
    let e = entry(5, "a\nb @bp\nc @bp");
    let lines = vec!["b @bp".to_string(), "c @bp".to_string()];
    let now = DateTime::from_ymd_hms(2026, 7, 2, 0, 0, 0).unwrap();
    assert_eq!(
        display_lines_at(&e, &lines, &opts(true), now).unwrap(),
        "### 2026-07-01 08:00:05\nb @bp\nc @bp\n\n"
    );
    assert_eq!(display_lines_at(&e, &lines, &opts(false), now).unwrap(), "b @bp\nc @bp\n");
}
