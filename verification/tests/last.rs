use journal::cli::{extract_last_n_flag, Cli};
use journal::entry::{DiffStyle, DisplayOpts, Entry};
use journal::output::{display_all, last_entries};

fn fixture() -> Vec<Entry> {
    Entry::parse_all(
        "[2026-07-01 08:00:00]\nfirst\n\n\
         [2026-07-02 09:00:00]\nsecond\n\n\
         [2026-07-03 10:00:00]\nthird\n\n\
         [2026-07-04 11:00:00]\nfourth\n\n\
         [2026-07-05 12:00:00]\nfifth\n\n",
    )
}

fn show(entries: &[Entry], n: usize) -> String {
    let opts = DisplayOpts { human: false, format: "%Y-%m-%d %H:%M", diff: DiffStyle::Short, header: true };
    display_all(&last_entries(entries, n), &opts).unwrap()
}

fn args(s: &[&str]) -> Vec<String> {
    std::iter::once("journal".to_string())
        .chain(s.iter().map(|s| s.to_string()))
        .collect()
}

fn cli_from(s: &[&str]) -> Cli {
    let mut a = args(s);
    let last = extract_last_n_flag(&mut a);
    let mut c = Cli {
        text: None,
        last,
        tags: None,
        file: None,
        search: None,
        all: false,
        limit: None,
        lines_only: false,
        verbose: false,
        human: false,
        color: false,
        no_color: false,
        interactive: false,
        no_headers: false,
        all_tags: false,
        config: false,
    };
    let mut i = 1;
    while i < a.len() {
        match a[i].as_str() {
            "-f" => {
                c.file = Some(a[i + 1].clone());
                i += 1;
            }
            "-s" => {
                c.search = Some(a[i + 1].clone());
                i += 1;
            }
            other => c.text = Some(other.to_string()),
        }
        i += 1;
    }
    c
}

#[test]
fn dash_n_shows_the_last_n_entries_in_chronological_order() {
    let s = show(&fixture(), 3);
    assert!(!s.contains("first"));
    assert!(!s.contains("second"));
    assert!(s.contains("third"));
    assert!(s.contains("fourth"));
    assert!(s.contains("fifth"));
    assert!(s.find("third").unwrap() < s.find("fifth").unwrap());
}

#[test]
fn dash_n_larger_than_entry_count_shows_everything() {
    let s = show(&fixture(), 100);
    assert!(s.contains("first") && s.contains("fifth"));
}

#[test]
fn dash_n_on_empty_journal_prints_nothing_and_succeeds() {
    assert_eq!(show(&Entry::parse_all(""), 3), "");
}

#[test]
fn dash_zero_is_a_usage_error() {
    let c = cli_from(&["-f", "j.txt", "-0"]);
    assert_eq!(c.last, Some(0));
    assert!(c.validate().is_err());
}

#[test]
fn dash_n_combined_with_search_is_a_usage_error() {
    let c = cli_from(&["-f", "j.txt", "-3", "-s", "foo"]);
    assert_eq!(c.validate(), Err("-N cannot be combined with -s/--search".to_string()));
}

#[test]
fn dash_n_combined_with_entry_text_is_a_usage_error() {
    let c = cli_from(&["-f", "j.txt", "-3", "some entry text"]);
    assert_eq!(c.validate(), Err("-N cannot be combined with entry text".to_string()));
}

#[test]
fn limits_value_of_negative_three_is_not_mistaken_for_dash_n() {
    let mut a = args(&["-f", "j.txt", "-s", "foo", "--limit", "-3"]);
    assert_eq!(extract_last_n_flag(&mut a), None);
    assert_eq!(a, args(&["-f", "j.txt", "-s", "foo", "--limit", "-3"]));
}
