use journal::cli::{extract_last_n_flag, is_last_n_token, Cli};

fn args(s: &[&str]) -> Vec<String> {
    std::iter::once("journal".to_string())
        .chain(s.iter().map(|s| s.to_string()))
        .collect()
}

fn cli() -> Cli {
    Cli {
        text: None,
        last: None,
        tags: None,
        file: None,
        search: None,
        all: false,
        limit: None,
        lines_only: false,
        verbose: false,
        human: false,
        color: false,
        no_color: false,
        interactive: false,
        no_headers: false,
        all_tags: false,
        config: false,
    }
}

#[test]
fn extracts_bare_last_n_flag() {
    let mut a = args(&["-3"]);
    assert_eq!(extract_last_n_flag(&mut a), Some(3));
    assert_eq!(a, args(&[]));
}

#[test]
fn extracts_multi_digit_last_n_flag() {
    let mut a = args(&["-42"]);
    assert_eq!(extract_last_n_flag(&mut a), Some(42));
}

#[test]
fn leaves_args_untouched_when_no_last_n_flag_present() {
    let mut a = args(&["-s", "foo", "-a"]);
    assert_eq!(extract_last_n_flag(&mut a), None);
    assert_eq!(a, args(&["-s", "foo", "-a"]));
}

#[test]
fn does_not_mistake_a_value_flags_argument_for_last_n() {
    let mut a = args(&["-s", "foo", "--limit", "-3"]);
    assert_eq!(extract_last_n_flag(&mut a), None);
    assert_eq!(a, args(&["-s", "foo", "--limit", "-3"]));
}

#[test]
fn does_not_treat_double_dash_or_long_flags_as_last_n() {
    let mut a = args(&["--", "-3"]);
    assert_eq!(extract_last_n_flag(&mut a), None);
}

#[test]
fn does_not_match_non_numeric_dash_tokens() {
    let mut a = args(&["-a3"]);
    assert_eq!(extract_last_n_flag(&mut a), None);
}

#[test]
fn validate_rejects_last_n_combined_with_search() {
    let c = Cli { last: Some(3), search: Some("foo".to_string()), ..cli() };
    assert!(c.validate().is_err());
}

#[test]
fn validate_rejects_zero_as_last_n() {
    let c = Cli { last: Some(0), ..cli() };
    assert!(c.validate().is_err());
}

#[test]
fn validate_accepts_bare_last_n() {
    let c = Cli { last: Some(3), ..cli() };
    assert!(c.validate().is_ok());
}

#[test]
fn validate_rejects_lines_only_without_search() {
    let c = Cli { text: Some("some entry".to_string()), lines_only: true, ..cli() };
    assert!(c.validate().is_err());
}

#[test]
fn last_n_flag_is_found_after_other_flags_and_removed() {
    let mut a = args(&["-f", "j.txt", "-v", "-7"]);
    assert_eq!(extract_last_n_flag(&mut a), Some(7));
    assert_eq!(a, args(&["-f", "j.txt", "-v"]));
}

#[test]
fn last_n_token_too_large_for_usize_is_removed_without_a_count() {
    let mut a = args(&["-99999999999999999999999"]);
    assert_eq!(extract_last_n_flag(&mut a), None);
    assert_eq!(a, args(&[]));
}

#[test]
fn last_n_token_shapes() {
    assert!(is_last_n_token("-3"));
    assert!(is_last_n_token("-042"));
    assert!(!is_last_n_token("-"));
    assert!(!is_last_n_token("--"));
    assert!(!is_last_n_token("--3"));
    assert!(!is_last_n_token("3"));
    assert!(!is_last_n_token("-3a"));
}

#[test]
fn validate_reports_each_rule_with_its_message() {
    assert_eq!(
        Cli { all: true, ..cli() }.validate(),
        Err("-a/--all can only be used with -s/--search".to_string())
    );
    assert_eq!(
        Cli { limit: Some(2), ..cli() }.validate(),
        Err("--limit can only be used with -s/--search".to_string())
    );
    assert_eq!(
        Cli { lines_only: true, ..cli() }.validate(),
        Err("-L/--lines-only can only be used with -s/--search".to_string())
    );
    assert_eq!(
        Cli { last: Some(0), ..cli() }.validate(),
        Err("-N must be a positive number".to_string())
    );
    assert_eq!(
        Cli { last: Some(2), search: Some("x".to_string()), ..cli() }.validate(),
        Err("-N cannot be combined with -s/--search".to_string())
    );
    assert_eq!(
        Cli { last: Some(2), text: Some("x".to_string()), ..cli() }.validate(),
        Err("-N cannot be combined with entry text".to_string())
    );
    assert_eq!(
        Cli { last: Some(2), tags: Some("x".to_string()), ..cli() }.validate(),
        Err("-N cannot be combined with -t/--tags".to_string())
    );
    assert_eq!(
        Cli { search: Some("x".to_string()), all: true, limit: Some(1), lines_only: true, ..cli() }
            .validate(),
        Ok(())
    );
}

#[test]
fn highlighting_follows_no_color_then_flags_then_config() {
    assert!(!Cli { color: true, ..cli() }.highlight_enabled(true, true));
    assert!(!Cli { no_color: true, ..cli() }.highlight_enabled(false, true));
    assert!(Cli { color: true, ..cli() }.highlight_enabled(false, false));
    assert!(cli().highlight_enabled(false, true));
    assert!(!cli().highlight_enabled(false, false));
}

#[test]
fn dash_t_flag_without_entry_text_is_a_usage_error() {
    let c = Cli { tags: Some("bp".to_string()), file: Some("journal.txt".to_string()), ..cli() };
    assert_eq!(c.validate(), Err("-t/--tags needs entry text".to_string()));
    let c = Cli { tags: Some("bp".to_string()), text: Some("x".to_string()), ..cli() };
    assert_eq!(c.validate(), Ok(()));
}

#[test]
fn interactive_mode_combines_only_with_file_and_verbose() {
    let msg = Err("-i/--interactive can only be combined with -f/--file and -v/--verbose".to_string());
    let ok = Cli { interactive: true, file: Some("j.txt".to_string()), verbose: true, ..cli() };
    assert_eq!(ok.validate(), Ok(()));
    assert_eq!(Cli { interactive: true, text: Some("x".to_string()), ..cli() }.validate(), msg);
    assert_eq!(Cli { interactive: true, tags: Some("x".to_string()), ..cli() }.validate(), msg);
    assert_eq!(Cli { interactive: true, search: Some("x".to_string()), ..cli() }.validate(), msg);
    assert_eq!(Cli { interactive: true, last: Some(2), ..cli() }.validate(), msg);
    assert_eq!(Cli { interactive: true, human: true, ..cli() }.validate(), msg);
    assert_eq!(Cli { interactive: true, color: true, ..cli() }.validate(), msg);
}

#[test]
fn config_mode_combines_only_with_verbose() {
    let msg = Err("--config can only be combined with -v/--verbose".to_string());
    assert_eq!(Cli { config: true, verbose: true, ..cli() }.validate(), Ok(()));
    assert_eq!(Cli { config: true, ..cli() }.validate(), Ok(()));
    assert_eq!(Cli { config: true, text: Some("entry".to_string()), ..cli() }.validate(), msg);
    assert_eq!(Cli { config: true, file: Some("j.txt".to_string()), ..cli() }.validate(), msg);
    assert_eq!(Cli { config: true, search: Some("x".to_string()), ..cli() }.validate(), msg);
    assert_eq!(Cli { config: true, interactive: true, ..cli() }.validate(), msg);
    assert_eq!(Cli { config: true, all_tags: true, ..cli() }.validate(), msg);
    assert_eq!(Cli { config: true, no_headers: true, ..cli() }.validate(), msg);
}

#[test]
fn all_tags_refuses_entry_text_tags_search_and_last_n() {
    let msg = Err("--all-tags cannot be combined with entry text, -t/--tags, -s/--search or -N".to_string());
    assert_eq!(Cli { all_tags: true, ..cli() }.validate(), Ok(()));
    assert_eq!(Cli { all_tags: true, file: Some("j.txt".to_string()), verbose: true, ..cli() }.validate(), Ok(()));
    assert_eq!(Cli { all_tags: true, search: Some("foo".to_string()), ..cli() }.validate(), msg);
    assert_eq!(Cli { all_tags: true, text: Some("some entry text".to_string()), ..cli() }.validate(), msg);
    assert_eq!(Cli { all_tags: true, last: Some(3), ..cli() }.validate(), msg);
    assert_eq!(
        Cli { all_tags: true, text: Some("x".to_string()), tags: Some("a".to_string()), ..cli() }.validate(),
        msg
    );
}

#[test]
fn no_headers_combines_with_last_n_and_search() {
    assert_eq!(Cli { no_headers: true, last: Some(3), ..cli() }.validate(), Ok(()));
    assert_eq!(
        Cli { no_headers: true, search: Some("@bp".to_string()), lines_only: true, ..cli() }.validate(),
        Ok(())
    );
    assert_eq!(
        Cli { no_headers: true, interactive: true, ..cli() }.validate(),
        Err("-i/--interactive can only be combined with -f/--file and -v/--verbose".to_string())
    );
}

#[test]
fn all_tags_combined_with_search_is_a_usage_error() {
    let c = Cli { all_tags: true, file: Some("j.txt".to_string()), search: Some("foo".to_string()), ..cli() };
    assert!(c.validate().is_err());
}

#[test]
fn all_tags_combined_with_entry_text_is_a_usage_error() {
    let c = Cli { all_tags: true, file: Some("j.txt".to_string()), text: Some("some entry text".to_string()), ..cli() };
    assert!(c.validate().is_err());
}

#[test]
fn all_tags_combined_with_dash_n_is_a_usage_error() {
    let mut a = args(&["-f", "j.txt", "--all-tags", "-3"]);
    let last = extract_last_n_flag(&mut a);
    assert_eq!(last, Some(3));
    let c = Cli { all_tags: true, file: Some("j.txt".to_string()), last, ..cli() };
    assert!(c.validate().is_err());
}

#[test]
fn config_rejects_other_modes_but_allows_verbose() {
    let refused = Cli { config: true, text: Some("entry".to_string()), ..cli() }.validate();
    assert!(refused.unwrap_err().contains("--config can only be combined with -v/--verbose"));
    assert_eq!(Cli { config: true, verbose: true, ..cli() }.validate(), Ok(()));
}
