//! Note conventions.

use raft::config::{Config, PublishConfig, Source, SourceKind};
use raft::extract::{extract_loops, strip_frontmatter};
use raft::lint::{lint_all, lint_note, LintIssue};
use raft::scan::NoteFile;

fn rules(issues: &[LintIssue]) -> Vec<&'static str> {
    issues.iter().map(|i| i.rule).collect()
}

const GOOD_DAILY: &str = "---\npublish: false\n---\n# 2026-07-23\n\n## raft: things\n\nprose `code` here.\n\n- [ ] a loop\n";

#[test]
fn clean_daily_passes() {
    assert!(lint_note("2026-07-23.md", GOOD_DAILY).is_empty());
}

#[test]
fn missing_frontmatter_flags() {
    let issues = lint_note("2026-07-23.md", "# 2026-07-23\nprose\n");
    assert!(rules(&issues).contains(&"frontmatter-missing"));
}

#[test]
fn unterminated_frontmatter_flags() {
    let issues = lint_note("a.md", "---\npublish: false\nbody\n");
    assert_eq!(rules(&issues), vec!["frontmatter-unterminated"]);
}

#[test]
fn missing_publish_key_flags() {
    let issues = lint_note("a.md", "---\ntitle: x\n---\nbody\n");
    assert_eq!(rules(&issues), vec!["publish-missing"]);
}

#[test]
fn non_boolean_publish_flags() {
    let issues = lint_note("a.md", "---\npublish: yes\n---\nbody\n");
    assert_eq!(rules(&issues), vec!["publish-not-boolean"]);
}

#[test]
fn daily_h1_must_match_filename() {
    let issues = lint_note("2026-07-23.md", "---\npublish: false\n---\n# 2026-07-22\n");
    assert_eq!(rules(&issues), vec!["daily-h1-mismatch"]);

    let issues = lint_note("2026-07-23.md", "---\npublish: false\n---\nno heading\n");
    assert_eq!(rules(&issues), vec!["daily-h1-missing"]);
}

#[test]
fn topic_notes_need_no_h1_rule() {
    let issues = lint_note(
        "raft/publish-design.md",
        "---\npublish: false\n---\nany shape\n",
    );
    assert!(issues.is_empty());
}

#[test]
fn unfenced_toml_table_flags() {
    let body = "---\npublish: false\n---\n# 2026-07-23\n\n[[bin]]\nname = \"raft\"\n";
    let issues = lint_note("2026-07-23.md", body);
    assert!(rules(&issues).contains(&"unfenced-config"));
}

#[test]
fn fenced_toml_table_is_fine() {
    let body = "---\npublish: false\n---\n# 2026-07-23\n\n```toml\n[[bin]]\n```\n";
    assert!(lint_note("2026-07-23.md", body).is_empty());
}

#[test]
fn real_wiki_link_line_is_not_config() {
    let body = "---\npublish: false\n---\nsee [[Replaybook]] today\n";
    assert!(lint_note("a.md", body).is_empty());
}

#[test]
fn malformed_checkboxes_flag() {
    for bad in ["- [] x\n", "-[ ] x\n", "- [  ] x\n"] {
        let body = format!("---\npublish: false\n---\n{bad}");
        let issues = lint_note("a.md", &body);
        assert_eq!(rules(&issues), vec!["malformed-checkbox"], "{bad:?}");
    }
}

#[test]
fn malformed_checkboxes_open_no_loop() {
    let body = "---\npublish: false\n---\n- [ ] one\n- [] two\n-[ ] three\n* [  ] four\n- [ ] five\n";
    let flagged: Vec<usize> = lint_note("a.md", body)
        .iter()
        .filter(|i| i.rule == "malformed-checkbox")
        .map(|i| i.line)
        .collect();
    let opened: Vec<usize> = extract_loops(body).iter().map(|l| l.line + 1).collect();
    assert_eq!(flagged, vec![5, 6, 7]);
    assert_eq!(opened, vec![4, 8]);
}

#[test]
fn unterminated_fence_flags() {
    let body = "---\npublish: false\n---\nkeep\n```\nswallowed\n";
    let issues = lint_note("a.md", body);
    assert!(rules(&issues).contains(&"unterminated-fence"));
}

#[test]
fn issues_name_their_line() {
    let issues = lint_note("a.md", "---\npublish: false\n---\nfine\n- [] x\n");
    assert_eq!(issues.len(), 1);
    assert_eq!(issues[0].line, 5);
    assert_eq!(issues[0].path, "a.md");
}

fn note(path: &str, body: &str) -> NoteFile {
    NoteFile {
        path: path.to_string(),
        note_date: None,
        mtime_date: None,
        body: body.to_string(),
    }
}

fn source(path: &str, kind: SourceKind) -> Source {
    Source { path: path.to_string(), kind }
}

#[test]
fn all_issues_are_ordered_and_only_notes_count() {
    let cfg = Config {
        sources: vec![
            source("~/z", SourceKind::Notes),
            source("~/p", SourceKind::Projects),
            source("~/a", SourceKind::Notes),
        ],
        ignore: Vec::new(),
        daily_note: None,
        publish: PublishConfig::default(),
    };
    let bad = "---\npublish: false\n---\n- [] x\n-[ ] y\n";
    let found = vec![
        vec![note("/z/b.md", bad), note("/z/c.md", bad)],
        vec![note("/p/skipped.md", bad)],
        vec![note("/a/a.md", bad)],
    ];
    let issues = lint_all(&cfg, &found);
    let places: Vec<(&str, usize)> = issues.iter().map(|i| (i.path.as_str(), i.line)).collect();
    assert_eq!(
        places,
        vec![
            ("/a/a.md", 4),
            ("/a/a.md", 5),
            ("/z/b.md", 4),
            ("/z/b.md", 5),
            ("/z/c.md", 4),
            ("/z/c.md", 5),
        ]
    );
}

#[test]
fn lint_and_stripping_agree_on_frontmatter() {
    for body in [
        "", "text\n", "---\n", "---\nk: v\n", "---\n---\n", "---\r\npublish: true\r\n--- \r\nx",
        "--- \n---\n", "---\npublish: maybe\n---\n", "---\nk: v\n---",
    ] {
        let found = lint_note("a.md", body);
        let found = rules(&found);
        let fine = !found.contains(&"frontmatter-missing")
            && !found.contains(&"frontmatter-unterminated");
        assert_eq!(fine, strip_frontmatter(body) != body, "{body:?}");
        let whole = ["frontmatter-missing", "frontmatter-unterminated", "publish-missing"];
        assert!(found.iter().filter(|r| whole.contains(r)).count() <= 1);
    }
}
