//! Which journal file to use: `-f/--file`, then `$JOURNAL_FILE`, then the
//! XDG data directory default.
use crate::text::{all_ws, is_whitespace, is_ws, to_chars};
use vstd::prelude::*;

verus! {

/// Where the journal file is.
#[derive(Debug, PartialEq, Eq)]
pub enum PathChoice {
    /// A path given by `-f/--file` or `$JOURNAL_FILE`.
    Given(String),
    /// `journal/journal.txt` under the XDG data directory.
    XdgDefault,
}

/// The value of `$JOURNAL_FILE` that counts: none when unset, empty or
/// only whitespace.
pub fn journal_file_from_env(value: Option<&str>) -> (res: Option<&str>)
    ensures
        match value {
            Some(v) => if all_ws(v@) {
                res is None
            } else {
                res == Some(v)
            },
            None => res is None,
        },
{
    match value {
        None => None,
        Some(v) => {
            let cs = to_chars(v);
            let mut blank = true;
            let mut i: usize = 0;
            while i < cs.len()
                invariant
                    i <= cs@.len(),
                    cs@ == v@,
                    blank == all_ws(cs@.take(i as int)),
                decreases cs.len() - i,
            {
                let ghost before = cs@.take(i as int);
                if !is_whitespace(cs[i]) {
                    blank = false;
                }
                proof {
                    let t = cs@.take(i + 1);
                    assert(t.drop_last() =~= before);
                    if blank {
                        assert forall|k: int| 0 <= k < t.len() implies is_ws(#[trigger] t[k]) by {
                            if k < t.len() - 1 {
                                assert(t[k] == before[k]);
                            }
                        }
                    } else {
                        if !is_ws(cs@[i as int]) {
                            assert(!is_ws(t[i as int]));
                        } else {
                            let k = choose|k: int| 0 <= k < before.len() && !is_ws(#[trigger] before[k]);
                            assert(t[k] == before[k]);
                        }
                    }
                }
                i = i + 1;
            }
            assert(cs@.take(cs@.len() as int) =~= cs@);
            if blank {
                None
            } else {
                Some(v)
            }
        },
    }
}

/// The journal file, by precedence: the `-f/--file` argument, then
/// `$JOURNAL_FILE` (already filtered by `journal_file_from_env`), then the
/// XDG default.
pub fn resolve_path_with(cli_file: Option<&str>, journal_file_env: Option<&str>) -> (res: PathChoice)
    ensures
        match (cli_file, journal_file_env) {
            (Some(f), _) => res matches PathChoice::Given(p) && p@ == f@,
            (None, Some(f)) => res matches PathChoice::Given(p) && p@ == f@,
            (None, None) => res == PathChoice::XdgDefault,
        },
{
    if let Some(f) = cli_file {
        return PathChoice::Given(f.to_owned());
    }
    if let Some(f) = journal_file_env {
        return PathChoice::Given(f.to_owned());
    }
    PathChoice::XdgDefault
}

} // verus!
