//! The prompted append dialogue: tags, then the timestamp shape (asked
//! again until the answer is valid), then the body. Each call decides
//! the next step from one answer; the caller writes the prompts and reads
//! the answers.
use crate::entry::TimestampShape;
use crate::text::{ascii_lower, ascii_lowercase, chars_eq, extend_str, from_chars, to_chars, trim, trim_chars};
use vstd::prelude::*;

verus! {

/// Asks for the tags.
pub const TAGS_PROMPT: &'static str = "Tags (space-separated, optional): ";

/// Asks for the timestamp shape.
pub const TIMESTAMP_PROMPT: &'static str =
    "Timestamp [F/full, y/year, d/month-day, t/time] (default F): ";

/// Asks for the body.
pub const ENTRY_PROMPT: &'static str = "Entry (press Ctrl-D on an empty line to submit):\n";

/// Explains a timestamp answer that names no shape.
pub const INVALID_CHOICE: &'static str =
    "Invalid timestamp choice; use F/full, y/year, d/date/month-day, or t/time.\n";

/// What the dialogue collected.
#[derive(Debug, PartialEq, Eq)]
pub struct InteractiveInput {
    pub tags: String,
    pub timestamp_shape: TimestampShape,
    pub body: String,
}

/// What the next answer is for.
#[derive(Debug, PartialEq, Eq)]
pub enum Stage {
    /// The tags line.
    Tags,
    /// The timestamp shape, after the tags.
    Timestamp { tags: String },
    /// The body (everything up to the end of input), after tags and shape.
    Body { tags: String, timestamp_shape: TimestampShape },
}

/// What to do next.
#[derive(Debug, PartialEq, Eq)]
pub enum Step {
    /// Write `prompt`, then read the answer for `stage`: one line for the
    /// tags and the timestamp shape, all remaining input for the body.
    Ask { stage: Stage, prompt: String },
    /// The dialogue is over: the entry to write, or none when the input
    /// ended before the body was asked for.
    Finish(Option<InteractiveInput>),
}

/// The shape a timestamp answer names, case-insensitively and ignoring
/// surrounding whitespace: empty, `f` or `full`; `y` or `year`; `d`,
/// `date` or `month-day`; `t` or `time`.
pub open spec fn choice_spec(answer: Seq<char>) -> Option<TimestampShape> {
    let a = ascii_lower(trim(answer));
    if a == ""@ || a == "f"@ || a == "full"@ {
        Some(TimestampShape::Full)
    } else if a == "y"@ || a == "year"@ {
        Some(TimestampShape::Year)
    } else if a == "d"@ || a == "date"@ || a == "month-day"@ {
        Some(TimestampShape::MonthDay)
    } else if a == "t"@ || a == "time"@ {
        Some(TimestampShape::Time)
    } else {
        None
    }
}

fn is_word(a: &Vec<char>, lit: &str) -> (b: bool)
    ensures
        b == (a@ == lit@),
{
    let l = to_chars(lit);
    chars_eq(a.as_slice(), l.as_slice())
}

/// The timestamp shape an answer names, if it names one.
pub fn parse_timestamp_choice(answer: &str) -> (res: Option<TimestampShape>)
    ensures
        res == choice_spec(answer@),
{
    let cs = to_chars(answer);
    let t = trim_chars(cs.as_slice());
    let a = ascii_lowercase(t.as_slice());
    if is_word(&a, "") || is_word(&a, "f") || is_word(&a, "full") {
        Some(TimestampShape::Full)
    } else if is_word(&a, "y") || is_word(&a, "year") {
        Some(TimestampShape::Year)
    } else if is_word(&a, "d") || is_word(&a, "date") || is_word(&a, "month-day") {
        Some(TimestampShape::MonthDay)
    } else if is_word(&a, "t") || is_word(&a, "time") {
        Some(TimestampShape::Time)
    } else {
        None
    }
}

/// `s` without its trailing carriage returns and line feeds
/// (`trim_end_matches(['\r', '\n'])`).
pub open spec fn strip_line_ending_spec(s: Seq<char>) -> Seq<char>
    decreases s.len(),
{
    if s.len() > 0 && (s.last() == '\r' || s.last() == '\n') {
        strip_line_ending_spec(s.drop_last())
    } else {
        s
    }
}

/// A line as read, without its line ending.
pub fn strip_line_ending(line: &str) -> (out: String)
    ensures
        out@ == strip_line_ending_spec(line@),
{
    let cs = to_chars(line);
    let mut n = cs.len();
    assert(cs@.take(n as int) =~= cs@);
    while n > 0 && (cs[n - 1] == '\r' || cs[n - 1] == '\n')
        invariant
            n <= cs@.len(),
            strip_line_ending_spec(line@) == strip_line_ending_spec(cs@.take(n as int)),
            cs@ == line@,
        decreases n,
    {
        assert(cs@.take(n as int).drop_last() =~= cs@.take(n - 1));
        n = n - 1;
    }
    assert(cs@.take(n as int).len() == 0 || !(cs@.take(n as int).last() == '\r' || cs@.take(
        n as int,
    ).last() == '\n'));
    from_chars(cs.as_slice().split_at(n).0)
}

/// The first step of the dialogue: ask for the tags.
pub fn begin_interactive() -> (step: Step)
    ensures
        step matches Step::Ask { stage: Stage::Tags, prompt } && prompt@ == TAGS_PROMPT@,
{
    Step::Ask { stage: Stage::Tags, prompt: TAGS_PROMPT.to_owned() }
}

/// Advances the interactive append dialogue by one answer (`None` when
/// the input has ended). The end of input at the tags or timestamp
/// question abandons the entry; a timestamp answer that names no shape is
/// explained and the question asked again; the body, which may be empty,
/// completes the entry.
pub fn read_interactive(stage: Stage, answer: Option<String>) -> (step: Step)
    ensures
        match stage {
            Stage::Tags => match answer {
                None => step == Step::Finish(None),
                Some(t) => step matches Step::Ask { stage: Stage::Timestamp { tags }, prompt }
                    && tags == t && prompt@ == TIMESTAMP_PROMPT@,
            },
            Stage::Timestamp { tags } => match answer {
                None => step == Step::Finish(None),
                Some(a) => match choice_spec(a@) {
                    Some(shape) => step matches Step::Ask {
                        stage: Stage::Body { tags: t, timestamp_shape },
                        prompt,
                    } && t == tags && timestamp_shape == shape && prompt@ == ENTRY_PROMPT@,
                    None => step matches Step::Ask { stage: Stage::Timestamp { tags: t }, prompt }
                        && t == tags && prompt@ == INVALID_CHOICE@ + TIMESTAMP_PROMPT@,
                },
            },
            Stage::Body { tags, timestamp_shape } => step matches Step::Finish(Some(input))
                && input.tags == tags && input.timestamp_shape == timestamp_shape && (match answer {
                Some(b) => input.body == b,
                None => input.body@.len() == 0,
            }),
        },
{
    match stage {
        Stage::Tags => match answer {
            None => Step::Finish(None),
            Some(tags) => Step::Ask {
                stage: Stage::Timestamp { tags },
                prompt: TIMESTAMP_PROMPT.to_owned(),
            },
        },
        Stage::Timestamp { tags } => match answer {
            None => Step::Finish(None),
            Some(a) => match parse_timestamp_choice(a.as_str()) {
                Some(shape) => Step::Ask {
                    stage: Stage::Body { tags, timestamp_shape: shape },
                    prompt: ENTRY_PROMPT.to_owned(),
                },
                None => {
                    let mut p: Vec<char> = Vec::new();
                    extend_str(&mut p, INVALID_CHOICE);
                    extend_str(&mut p, TIMESTAMP_PROMPT);
                    Step::Ask { stage: Stage::Timestamp { tags }, prompt: from_chars(p.as_slice()) }
                },
            },
        },
        Stage::Body { tags, timestamp_shape } => {
            let body = match answer {
                Some(b) => b,
                None => String::new(),
            };
            Step::Finish(Some(InteractiveInput { tags, timestamp_shape, body }))
        },
    }
}

} // verus!
