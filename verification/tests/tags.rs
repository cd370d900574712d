use journal::entry::Entry;
use journal::tags::{all_tags, render_tag_counts, tag_counts};

fn journal(text: &str) -> Vec<Entry> {
    Entry::parse_all(text)
}

fn fixture() -> Vec<Entry> {
    journal(
        "[2026-07-01 08:00:00]\n124/80/55 @bp @health\n\n\
         [2026-07-02 09:00:00]\nlistened to @radio\n\n\
         [2026-07-03 10:00:00]\nno tags here\n\n\
         [2026-07-04 11:00:00]\nfollow-up @bp reading, also @radio again\n\n",
    )
}

#[test]
fn all_tags_prints_unique_sorted_bare_tags_with_right_justified_counts() {
    let entries = fixture();
    assert_eq!(entries.len(), 4);
    assert_eq!(all_tags(&entries), Some("2 bp\n1 health\n2 radio\n".to_string()));
}

#[test]
fn all_tags_pads_counts_to_the_widest_count_width() {
    let mut contents = String::new();
    for i in 0..10 {
        contents.push_str(&format!("[2026-07-01 08:00:{i:02}]\n@common entry\n\n"));
    }
    contents.push_str("[2026-07-01 08:01:00]\n@rare entry\n\n");
    let entries = journal(&contents);
    assert_eq!(all_tags(&entries), Some("10 common\n 1 rare\n".to_string()));
}

#[test]
fn all_tags_on_empty_journal_prints_nothing_and_succeeds() {
    assert_eq!(all_tags(&journal("")), Some(String::new()));
}

#[test]
fn tag_counts_are_sorted_distinct_and_counted() {
    let counts = tag_counts(&fixture());
    assert_eq!(
        counts,
        vec![("bp".to_string(), 2), ("health".to_string(), 1), ("radio".to_string(), 2)]
    );
}

#[test]
fn tag_counts_sort_by_character_with_a_prefix_first() {
    let entries = journal("[2026-07-01 08:00:00]\n@b @ab @a @B @a\n\n");
    assert_eq!(
        tag_counts(&entries),
        vec![
            ("B".to_string(), 1),
            ("a".to_string(), 2),
            ("ab".to_string(), 1),
            ("b".to_string(), 1),
        ]
    );
}

#[test]
fn tag_counts_keep_a_doubled_at_sign_after_the_first() {
    let entries = journal("[2026-07-01 08:00:00]\n@@x @x\n\n");
    assert_eq!(tag_counts(&entries), vec![("@x".to_string(), 1), ("x".to_string(), 1)]);
}

#[test]
fn render_tag_counts_right_aligns_every_count() {
    let counts = vec![("a".to_string(), 100), ("b".to_string(), 7), ("c".to_string(), 42)];
    assert_eq!(render_tag_counts(&counts), "100 a\n  7 b\n 42 c\n");
    assert_eq!(render_tag_counts(&[]), "");
}
