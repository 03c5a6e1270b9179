//! Writing back into notes.

use raft::capture::{append_log, close_loop, daily_template, mark_done, NoteText};
use raft::config::{Config, PublishConfig};
use raft::extract::extract_loops;

fn config(daily: Option<&str>) -> Config {
    Config {
        sources: Vec::new(),
        ignore: Vec::new(),
        daily_note: daily.map(|d| d.to_string()),
        publish: PublishConfig::default(),
    }
}

fn note(body: &str) -> Vec<NoteText> {
    vec![NoteText { path: "note.md".to_string(), body: body.to_string() }]
}

#[test]
fn log_creates_note_then_appends_under_one_header() {
    let first = append_log(None, "2026-07-23", "09:00", "first entry");
    let body = append_log(Some(&first), "2026-07-23", "09:05", "second entry");

    assert_eq!(body.matches("## Log").count(), 1);
    assert!(body.contains("first entry"));
    assert!(body.contains("second entry"));
    assert!(body.find("first entry") < body.find("second entry"));
    assert!(!body.contains("first entry\n\n"));
}

#[test]
fn log_text_is_exact() {
    let first = append_log(None, "2026-07-23", "09:00", "first entry");
    assert_eq!(first, "# 2026-07-23\n\n## Log\n- 09:00 first entry\n");
    let more = append_log(Some("# day\ntext\n\n\n"), "2026-07-23", "10:00", "later");
    assert_eq!(more, "# day\ntext\n\n## Log\n- 10:00 later\n");
    let there = append_log(Some("## Log\n- old\n"), "2026-07-23", "10:00", "later");
    assert_eq!(there, "## Log\n- old\n- 10:00 later\n");
}

#[test]
fn the_daily_note_needs_a_template() {
    let set = config(Some("~/notes/%Y.md"));
    assert_eq!(
        daily_template(&set, Some("/home/u")).unwrap(),
        "/home/u/notes/%Y.md"
    );
    assert_eq!(daily_template(&set, None).unwrap(), "~/notes/%Y.md");
    let missing = daily_template(&config(None), Some("/home/u"));
    assert!(missing.unwrap_err().contains("no daily_note in config"));
}

#[test]
fn marks_checkbox_done() {
    let changed = mark_done(
        "fix the thing",
        &note("# note\n\n- [ ] fix the thing\n- [ ] other task\n"),
    );

    assert_eq!(changed.len(), 1);
    assert!(changed[0].body.contains("- [x] fix the thing"));
    assert!(changed[0].body.contains("- [ ] other task"));
}

#[test]
fn skips_notes_where_loop_is_gone() {
    let changed = mark_done("vanished loop", &note("# note\n\nnothing here\n"));
    assert!(changed.is_empty());
}

#[test]
fn plain_bullets_are_left_alone() {
    let body = "# note\n\n## Follow-ups\n\n- unpin try after vacation\n- roll the container\n";
    assert!(mark_done("unpin try after vacation", &note(body)).is_empty());
}

#[test]
fn a_closed_loop_is_no_longer_open() {
    let body = "## Follow-ups\n\n- [ ] unpin try\n  after vacation\n- [ ] roll the container\n";
    let after = close_loop(body, "unpin try after vacation").unwrap();
    assert_eq!(
        after,
        "## Follow-ups\n\n- [x] unpin try\n  after vacation\n- [ ] roll the container\n"
    );
    let open: Vec<String> = extract_loops(&after).into_iter().map(|l| l.text).collect();
    assert_eq!(open, vec!["roll the container"]);
    assert!(close_loop(&after, "unpin try after vacation").is_none());
}

#[test]
fn the_entry_stands_in_the_log_section() {
    let body = "# 2026-07-10\n\n## Log\n- 09:00 a\n\n## Next\n- [ ] b\n";
    assert_eq!(
        append_log(Some(body), "2026-07-10", "09:05", "c"),
        "# 2026-07-10\n\n## Log\n- 09:00 a\n- 09:05 c\n\n## Next\n- [ ] b\n"
    );
    let empty = "## Log\n\n# Next\n";
    assert_eq!(
        append_log(Some(empty), "2026-07-10", "09:05", "c"),
        "## Log\n- 09:05 c\n\n# Next\n"
    );
    let deeper = "## Log\n- a\n### Later\n- b  \n\n## Next\n";
    assert_eq!(
        append_log(Some(deeper), "2026-07-10", "09:05", "c"),
        "## Log\n- a\n### Later\n- b  \n- 09:05 c\n\n## Next\n"
    );
    let fenced = "## Log\n- a\n```\n# no heading\n```\n";
    assert_eq!(
        append_log(Some(fenced), "2026-07-10", "09:05", "c"),
        "## Log\n- a\n```\n# no heading\n```\n- 09:05 c\n"
    );
}

#[test]
fn another_section_is_no_log_section() {
    assert_eq!(
        append_log(Some("## Logistics\n- crates\n"), "2026-07-10", "09:05", "c"),
        "## Logistics\n- crates\n\n## Log\n- 09:05 c\n"
    );
    assert_eq!(
        append_log(Some("## Log (day)\n- a\n"), "2026-07-10", "09:05", "c"),
        "## Log (day)\n- a\n- 09:05 c\n"
    );
}
