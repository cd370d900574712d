//! The command line as plain values: the options, which combinations of
//! them are valid, and the `-N` ("last N entries") flag that is picked out
//! of the arguments by hand.
use crate::text::{digits_value, is_digit, parse_digits_up_to, to_chars};
use vstd::prelude::*;

verus! {

/// The parsed command line.
pub struct Cli {
    /// Entry text to append (`-` reads it from stdin).
    pub text: Option<String>,
    /// `-N`: show the last `N` entries.
    pub last: Option<usize>,
    /// `-t/--tags`: tags to append as their own line.
    pub tags: Option<String>,
    /// `-f/--file`: the journal file.
    pub file: Option<String>,
    /// `-s/--search`: the search query.
    pub search: Option<String>,
    /// `-a/--all`: every search term must match.
    pub all: bool,
    /// `--limit`: the most search matches to print.
    pub limit: Option<usize>,
    /// `-L/--lines-only`: print only the matching lines.
    pub lines_only: bool,
    /// `-v/--verbose`: diagnostics on stderr.
    pub verbose: bool,
    /// `-h/--human`: human-readable timestamps.
    pub human: bool,
    /// `--color`: always highlight search matches.
    pub color: bool,
    /// `--no-color`: never highlight search matches.
    pub no_color: bool,
    /// `-i/--interactive`: prompt for the tags, the timestamp shape and
    /// the body of a new entry.
    pub interactive: bool,
    /// `--no-headers`: show just the bodies, without heading lines or
    /// the blank lines between entries.
    pub no_headers: bool,
    /// `--all-tags`: list every tag with how often it occurs.
    pub all_tags: bool,
    /// `--config`: open the configuration file in the editor.
    pub config: bool,
}

impl Cli {
    /// An option that `-i/--interactive` cannot be combined with: entry
    /// text, tags, a search or list mode, or a display flag.
    pub open spec fn interactive_conflict(self) -> bool {
        ||| self.text is Some
        ||| self.tags is Some
        ||| self.search is Some
        ||| self.last is Some
        ||| self.all
        ||| self.limit is Some
        ||| self.lines_only
        ||| self.human
        ||| self.color
        ||| self.no_color
        ||| self.no_headers
        ||| self.all_tags
    }

    /// An option that `--config` cannot be combined with: any but
    /// `-v/--verbose`.
    pub open spec fn config_conflict(self) -> bool {
        ||| self.interactive_conflict()
        ||| self.file is Some
        ||| self.interactive
    }

    /// An option that `--all-tags` cannot be combined with: entry text,
    /// tags, a search or `-N`.
    pub open spec fn all_tags_conflict(self) -> bool {
        ||| self.text is Some
        ||| self.tags is Some
        ||| self.search is Some
        ||| self.last is Some
    }

    /// What `validate` answers: the first rule the options break, with
    /// its usage message, or `Ok` when they break none.
    pub open spec fn validate_spec(self) -> Result<(), Seq<char>> {
        if self.config && self.config_conflict() {
            Err("--config can only be combined with -v/--verbose"@)
        } else if self.interactive && self.interactive_conflict() {
            Err("-i/--interactive can only be combined with -f/--file and -v/--verbose"@)
        } else if self.all_tags && self.all_tags_conflict() {
            Err("--all-tags cannot be combined with entry text, -t/--tags, -s/--search or -N"@)
        } else if self.search is None && self.all {
            Err("-a/--all can only be used with -s/--search"@)
        } else if self.search is None && self.limit is Some {
            Err("--limit can only be used with -s/--search"@)
        } else if self.search is None && self.lines_only {
            Err("-L/--lines-only can only be used with -s/--search"@)
        } else if self.last == Some(0usize) {
            Err("-N must be a positive number"@)
        } else if self.last is Some && self.search is Some {
            Err("-N cannot be combined with -s/--search"@)
        } else if self.last is Some && self.text is Some {
            Err("-N cannot be combined with entry text"@)
        } else if self.last is Some && self.tags is Some {
            Err("-N cannot be combined with -t/--tags"@)
        } else if self.tags is Some && self.text is None {
            Err("-t/--tags needs entry text"@)
        } else {
            Ok(())
        }
    }

    /// Checks the flag combinations that argument parsing itself does not
    /// enforce: `-a`, `--limit` and `-L` need `-s`; `-N` must be positive
    /// and cannot be combined with `-s`, entry text or `-t`; `-t` needs
    /// entry text to attach its tags line to; `-i` combines only with `-f`
    /// and `-v`; `--config` only with `-v`; `--all-tags` not with entry
    /// text, `-t`, `-s` or `-N`. Returns the usage message of the first
    /// rule broken.
    pub fn validate(&self) -> (res: Result<(), String>)
        ensures
            match (res, self.validate_spec()) {
                (Ok(()), Ok(())) => true,
                (Err(m), Err(s)) => m@ == s,
                _ => false,
            },
    {
        let interactive_conflict = self.text.is_some() || self.tags.is_some()
            || self.search.is_some() || self.last.is_some() || self.all || self.limit.is_some()
            || self.lines_only || self.human || self.color || self.no_color || self.no_headers
            || self.all_tags;
        if self.config && (interactive_conflict || self.file.is_some() || self.interactive) {
            return Err("--config can only be combined with -v/--verbose".to_owned());
        }
        if self.interactive && interactive_conflict {
            return Err(
                "-i/--interactive can only be combined with -f/--file and -v/--verbose".to_owned(),
            );
        }
        if self.all_tags && (self.text.is_some() || self.tags.is_some() || self.search.is_some()
            || self.last.is_some()) {
            return Err(
                "--all-tags cannot be combined with entry text, -t/--tags, -s/--search or -N".to_owned(),
            );
        }
        if self.search.is_none() {
            if self.all {
                return Err("-a/--all can only be used with -s/--search".to_owned());
            }
            if self.limit.is_some() {
                return Err("--limit can only be used with -s/--search".to_owned());
            }
            if self.lines_only {
                return Err("-L/--lines-only can only be used with -s/--search".to_owned());
            }
        }
        if let Some(n) = self.last {
            if n == 0 {
                return Err("-N must be a positive number".to_owned());
            }
            if self.search.is_some() {
                return Err("-N cannot be combined with -s/--search".to_owned());
            }
            if self.text.is_some() {
                return Err("-N cannot be combined with entry text".to_owned());
            }
            if self.tags.is_some() {
                return Err("-N cannot be combined with -t/--tags".to_owned());
            }
        }
        if self.tags.is_some() && self.text.is_none() {
            return Err("-t/--tags needs entry text".to_owned());
        }
        Ok(())
    }
}

impl Cli {
    /// Whether search matches are highlighted: never when `NO_COLOR` is
    /// set, else never with `--no-color`, always with `--color`, and
    /// otherwise as `[color].enabled` in the configuration says.
    pub fn highlight_enabled(&self, no_color_env: bool, config_enabled: bool) -> (on: bool)
        ensures
            on == (!no_color_env && !self.no_color && (self.color || config_enabled)),
    {
        if no_color_env {
            false
        } else if self.no_color {
            false
        } else if self.color {
            true
        } else {
            config_enabled
        }
    }
}

/// The flags that take the next argument as their value, so that a value
/// such as the `-3` of `--limit -3` is never taken for `-N`.
pub open spec fn is_value_flag(a: Seq<char>) -> bool {
    ||| a == "-f"@
    ||| a == "--file"@
    ||| a == "-t"@
    ||| a == "--tags"@
    ||| a == "-s"@
    ||| a == "--search"@
    ||| a == "--limit"@
}

/// A `-N` token: `-` followed by one or more ASCII digits and nothing else.
pub open spec fn is_last_n_spec(a: Seq<char>) -> bool {
    a.len() > 1 && a[0] == '-' && forall|i: int| 1 <= i < a.len() ==> is_digit(#[trigger] a[i])
}

/// Where the scan for `-N` that starts at argument `i` stops on one: the
/// scan ends at `--` (everything after it is positional text), steps
/// over each value flag together with its value, and otherwise looks at
/// one argument at a time.
pub open spec fn last_n_position(args: Seq<Seq<char>>, i: int) -> Option<int>
    decreases args.len() + 2 - i,
{
    if i < 0 || i >= args.len() {
        None
    } else if args[i] == "--"@ {
        None
    } else if is_value_flag(args[i]) {
        last_n_position(args, i + 2)
    } else if is_last_n_spec(args[i]) {
        Some(i)
    } else {
        last_n_position(args, i + 1)
    }
}

/// The characters of each argument.
pub open spec fn arg_views(args: Seq<String>) -> Seq<Seq<char>> {
    Seq::new(args.len(), |k: int| args[k]@)
}

/// Whether `s` is exactly the text `lit`.
fn is_text(s: &String, lit: &str) -> (b: bool)
    ensures
        b == (s@ == lit@),
{
    *s == lit.to_owned()
}

fn is_value_flag_arg(a: &String) -> (b: bool)
    ensures
        b == is_value_flag(a@),
{
    is_text(a, "-f") || is_text(a, "--file") || is_text(a, "-t") || is_text(a, "--tags")
        || is_text(a, "-s") || is_text(a, "--search") || is_text(a, "--limit")
}

/// True for tokens like `-3` or `-42`: a `-` followed by one or more ASCII
/// digits and nothing else (so never `--` or a long flag).
pub fn is_last_n_token(s: &str) -> (b: bool)
    ensures
        b == is_last_n_spec(s@),
{
    let cs = to_chars(s);
    if cs.len() < 2 || cs[0] != '-' {
        return false;
    }
    let mut i: usize = 1;
    while i < cs.len()
        invariant
            1 <= i <= cs@.len(),
            cs@ == s@,
            forall|k: int| 1 <= k < i ==> is_digit(#[trigger] cs@[k]),
        decreases cs.len() - i,
    {
        if !('0' <= cs[i] && cs[i] <= '9') {
            return false;
        }
        i = i + 1;
    }
    true
}

/// Takes the first `-N` argument out of `args` (whose first element is
/// the program name) and returns `N`. The scan stops at `--` and steps
/// over the value of each flag that takes one. The token is removed even
/// when `N` is too large for `usize`; the count is then `None`.
pub fn extract_last_n_flag(args: &mut Vec<String>) -> (res: Option<usize>)
    ensures
        match last_n_position(arg_views(old(args)@), 1) {
            None => final(args)@ == old(args)@ && res is None,
            Some(i) => final(args)@ == old(args)@.remove(i) && match res {
                Some(n) => digits_value(old(args)@[i]@.drop_first(), usize::MAX as nat) == Some(
                    n as nat,
                ),
                None => digits_value(old(args)@[i]@.drop_first(), usize::MAX as nat) is None,
            },
        },
{
    let ghost av = arg_views(args@);
    let mut i: usize = 1;
    while i < args.len()
        invariant
            args@ == old(args)@,
            av == arg_views(args@),
            i >= 1,
            last_n_position(av, 1) == last_n_position(av, i as int),
        decreases args.len() - i,
    {
        if is_text(&args[i], "--") {
            return None;
        }
        if is_value_flag_arg(&args[i]) {
            if args.len() - i < 2 {
                assert(last_n_position(av, i + 2) is None);
                return None;
            }
            i = i + 2;
            continue;
        }
        if is_last_n_token(args[i].as_str()) {
            let raw = args.remove(i);
            let cs = to_chars(raw.as_str());
            let digits = cs.as_slice().split_at(1).1;
            assert(digits@ =~= raw@.drop_first());
            return match parse_digits_up_to(digits, usize::MAX as u64) {
                Some(n) => Some(n as usize),
                None => None,
            };
        }
        i = i + 1;
    }
    None
}

} // verus!
