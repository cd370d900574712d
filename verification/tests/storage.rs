use journal::storage::{journal_file_from_env, resolve_path_with, PathChoice};

#[test]
fn cli_file_takes_precedence_over_everything() {
    let path = resolve_path_with(Some("/explicit/path.txt"), Some("/env/path.txt"));
    assert_eq!(path, PathChoice::Given("/explicit/path.txt".to_string()));
}

#[test]
fn env_var_used_when_no_cli_file() {
    let path = resolve_path_with(None, Some("/env/path.txt"));
    assert_eq!(path, PathChoice::Given("/env/path.txt".to_string()));
}

#[test]
fn falls_back_to_xdg_default_when_nothing_else_set() {
    let path = resolve_path_with(None, None);
    assert_eq!(path, PathChoice::XdgDefault);
}

#[test]
fn empty_env_var_is_treated_as_unset() {
    let journal_file_env = journal_file_from_env(Some(""));
    let path = resolve_path_with(None, journal_file_env);
    assert_eq!(path, PathChoice::XdgDefault);
}

#[test]
fn blank_env_values_do_not_count() {
    assert_eq!(journal_file_from_env(None), None);
    assert_eq!(journal_file_from_env(Some(" \t\n")), None);
    assert_eq!(journal_file_from_env(Some(" /j.txt ")), Some(" /j.txt "));
}
