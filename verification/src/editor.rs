//! Which command opens the journal for editing: `$EDITOR` (or `vi`), split
//! into a program and its arguments the way a shell would split it.
use vstd::prelude::*;

verus! {

/// `shell_words::ParseError`, the error of an unterminated quote.
#[verifier::external_type_specification]
#[verifier::external_body]
pub struct ExParseError(shell_words::ParseError);

/// The words `shell_words::split` makes of `s` under POSIX shell quoting
/// rules, or `None` when it fails (a quote left open).
pub uninterp spec fn shell_split(s: Seq<char>) -> Option<Seq<Seq<char>>>;

/// The characters of each string.
pub open spec fn string_views(v: Seq<String>) -> Seq<Seq<char>> {
    Seq::new(v.len(), |k: int| v[k]@)
}

/// `shell_words::split`. Claims that the words it returns, or its failing,
/// are a function of `s`, named `shell_split`; nothing more is said of
/// them.
#[verifier::external_body]
fn split_shell_words(s: &str) -> (res: Result<Vec<String>, shell_words::ParseError>)
    ensures
        match res {
            Ok(ws) => shell_split(s@) == Some(string_views(ws@)),
            Err(_) => shell_split(s@) is None,
        },
{
    shell_words::split(s)
}

/// Why no editor command could be made.
#[derive(Debug, PartialEq, Eq)]
pub enum EditorError {
    /// The value could not be split (a quote left open); the value is
    /// kept for the message.
    Unparsable(String),
    /// The value splits into no words at all.
    Empty,
}

/// The editor used when `$EDITOR` is unset.
pub const DEFAULT_EDITOR: &'static str = "vi";

/// The program and its arguments, from the words of an editor command.
pub fn editor_command_from_words(words: Vec<String>) -> (res: Result<(String, Vec<String>), EditorError>)
    ensures
        words@.len() == 0 ==> res == Err::<(String, Vec<String>), EditorError>(EditorError::Empty),
        words@.len() > 0 ==> (res matches Ok((program, args)) && program == words@[0] && args@
            == words@.drop_first()),
{
    let mut parts = words;
    if parts.len() == 0 {
        return Err(EditorError::Empty);
    }
    let program = parts.remove(0);
    Ok((program, parts))
}

/// What `parse_editor_command` answers for the editor value `editor`.
pub open spec fn editor_command_spec(editor: Seq<char>) -> Result<(Seq<char>, Seq<Seq<char>>), Option<Seq<char>>> {
    match shell_split(editor) {
        None => Err(Some(editor)),
        Some(ws) => if ws.len() == 0 {
            Err(None)
        } else {
            Ok((ws[0], ws.drop_first()))
        },
    }
}

/// Splits `$EDITOR` (`vi` when unset) into a program and its arguments
/// with shell-style word splitting, so quoted paths with spaces work:
/// `"code --wait"` gives `("code", ["--wait"])`.
pub fn parse_editor_command(editor_env: Option<&str>) -> (res: Result<(String, Vec<String>), EditorError>)
    ensures
        ({
            let editor = match editor_env {
                Some(e) => e@,
                None => DEFAULT_EDITOR@,
            };
            match (res, editor_command_spec(editor)) {
                (Ok((p, a)), Ok((sp, sa))) => p@ == sp && string_views(a@) == sa,
                (Err(EditorError::Unparsable(v)), Err(Some(sv))) => v@ == sv,
                (Err(EditorError::Empty), Err(None)) => true,
                _ => false,
            }
        }),
{
    let editor = match editor_env {
        Some(e) => e,
        None => DEFAULT_EDITOR,
    };
    match split_shell_words(editor) {
        Err(_) => Err(EditorError::Unparsable(editor.to_owned())),
        Ok(words) => {
            let ghost wv = words@;
            let res = editor_command_from_words(words);
            proof {
                if res is Ok {
                    assert(string_views((res->Ok_0).1@) =~= string_views(wv).drop_first());
                }
            }
            res
        },
    }
}

} // verus!
