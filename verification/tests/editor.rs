use journal::editor::{editor_command_from_words, parse_editor_command, EditorError};

#[test]
fn defaults_to_vi_when_editor_unset() {
    let (program, args) = parse_editor_command(None).unwrap();
    assert_eq!(program, "vi");
    assert!(args.is_empty());
}

#[test]
fn splits_editor_with_trailing_args() {
    let (program, args) = parse_editor_command(Some("code --wait")).unwrap();
    assert_eq!(program, "code");
    assert_eq!(args, vec!["--wait"]);
}

#[test]
fn honors_shell_style_quoting() {
    let (program, args) = parse_editor_command(Some("'my editor' --flag")).unwrap();
    assert_eq!(program, "my editor");
    assert_eq!(args, vec!["--flag"]);
}

#[test]
fn empty_editor_value_is_an_error() {
    assert!(parse_editor_command(Some("   ")).is_err());
}

#[test]
fn empty_editor_value_is_the_empty_error() {
    assert_eq!(parse_editor_command(Some("   ")), Err(EditorError::Empty));
}

#[test]
fn an_open_quote_is_an_unparsable_editor_value() {
    assert_eq!(
        parse_editor_command(Some("vim \"unterminated")),
        Err(EditorError::Unparsable("vim \"unterminated".to_string()))
    );
}

#[test]
fn first_word_is_the_program_and_the_rest_its_arguments() {
    let words = vec!["emacs".to_string(), "-nw".to_string(), "+1".to_string()];
    assert_eq!(
        editor_command_from_words(words),
        Ok(("emacs".to_string(), vec!["-nw".to_string(), "+1".to_string()]))
    );
    assert_eq!(editor_command_from_words(Vec::new()), Err(EditorError::Empty));
}
