use journal::entry::TimestampShape;
use journal::interactive::{
    begin_interactive, parse_timestamp_choice, read_interactive, strip_line_ending,
    InteractiveInput, Stage, Step, TIMESTAMP_PROMPT,
};

/// Runs the dialogue over `input`, collecting what is written to the
/// prompt stream.
fn run(input: &str, prompts: &mut String) -> Option<InteractiveInput> {
    let mut rest = input;
    let mut step = begin_interactive();
    loop {
        match step {
            Step::Finish(result) => return result,
            Step::Ask { stage, prompt } => {
                prompts.push_str(&prompt);
                let answer = match stage {
                    Stage::Body { .. } => {
                        let all = rest.to_string();
                        rest = "";
                        Some(all)
                    }
                    _ => {
                        if rest.is_empty() {
                            None
                        } else {
                            let end = rest.find('\n').map(|i| i + 1).unwrap_or(rest.len());
                            let line = &rest[..end];
                            rest = &rest[end..];
                            Some(strip_line_ending(line))
                        }
                    }
                };
                step = read_interactive(stage, answer);
            }
        }
    }
}

#[test]
fn invalid_timestamp_reprompts() {
    let mut output = String::new();
    let result = run("tag\nnope\nyear\nbody\n", &mut output).unwrap();
    assert_eq!(result.timestamp_shape, TimestampShape::Year);
    assert!(output.contains("Invalid timestamp choice"));
    assert_eq!(output.matches(TIMESTAMP_PROMPT).count(), 2);
}

#[test]
fn eof_at_an_early_prompt_aborts() {
    let mut output = String::new();
    assert_eq!(run("", &mut output), None);
    output.clear();
    assert_eq!(run("tags\n", &mut output), None);
}

#[test]
fn a_full_dialogue_collects_tags_shape_and_body() {
    let mut output = String::new();
    let result = run("bp health\r\n T \nline one\nline two\n", &mut output).unwrap();
    assert_eq!(
        result,
        InteractiveInput {
            tags: "bp health".to_string(),
            timestamp_shape: TimestampShape::Time,
            body: "line one\nline two\n".to_string(),
        }
    );
}

#[test]
fn an_empty_body_is_valid() {
    let mut output = String::new();
    let result = run("\n\n", &mut output).unwrap();
    assert_eq!(result.tags, "");
    assert_eq!(result.timestamp_shape, TimestampShape::Full);
    assert_eq!(result.body, "");
}

#[test]
fn timestamp_choices_are_case_insensitive_words() {
    assert_eq!(parse_timestamp_choice(""), Some(TimestampShape::Full));
    assert_eq!(parse_timestamp_choice("F"), Some(TimestampShape::Full));
    assert_eq!(parse_timestamp_choice(" Full "), Some(TimestampShape::Full));
    assert_eq!(parse_timestamp_choice("y"), Some(TimestampShape::Year));
    assert_eq!(parse_timestamp_choice("YEAR"), Some(TimestampShape::Year));
    assert_eq!(parse_timestamp_choice("d"), Some(TimestampShape::MonthDay));
    assert_eq!(parse_timestamp_choice("Date"), Some(TimestampShape::MonthDay));
    assert_eq!(parse_timestamp_choice("month-day"), Some(TimestampShape::MonthDay));
    assert_eq!(parse_timestamp_choice("t"), Some(TimestampShape::Time));
    assert_eq!(parse_timestamp_choice("time"), Some(TimestampShape::Time));
    assert_eq!(parse_timestamp_choice("nope"), None);
    assert_eq!(parse_timestamp_choice("years"), None);
}

#[test]
fn line_endings_are_stripped_from_answers() {
    assert_eq!(strip_line_ending("tags\r\n"), "tags");
    assert_eq!(strip_line_ending("tags\n\n\r"), "tags");
    assert_eq!(strip_line_ending("ta\rgs"), "ta\rgs");
}

#[test]
fn end_of_input_at_the_timestamp_question_abandons_the_entry() {
    let step = read_interactive(Stage::Timestamp { tags: "x".to_string() }, None);
    assert_eq!(step, Step::Finish(None));
}
