//! What is found in the sources.

use raft::config::{config_path, data_dir, db_path, expand_tilde, SourceKind};
use raft::json::{json_list_field, json_text_field};
use raft::paths::{extension_of, file_name_of, file_stem_of, join_path};
use raft::scan::{
    git_fingerprint, git_metadata, is_code_file, is_note_file, parse_date_stem, scan_code,
    scan_notes, scan_projects, skipped_in_code, DirectoryEntry, GitOutput, TextFile,
};

fn file(path: &str, body: &str) -> TextFile {
    TextFile { path: path.to_string(), mtime_date: None, body: body.to_string() }
}

#[test]
fn scan_code_extracts_definitions_across_languages() {
    let files = vec![
        file(
            "app/jobs/scheduled/summaries_backfill.rb",
            "module Jobs\n  class SummariesBackfill < ::Jobs::Scheduled\n    def execute(args); end\n  end\nend\n",
        ),
        file(
            "sync.py",
            "class ProfileSync:\n    def run(self):\n        pass\n\ndef helper():\n    pass\n",
        ),
        file(
            "widget.ts",
            "export class Widget {}\nexport default function render() {}\nconst config = {};\n",
        ),
        file("README.md", "# class NotCode\n"),
    ];

    let symbols = scan_code("repo", &files);
    let named = |n: &str| symbols.iter().find(|s| s.name == n);

    assert!(named("Jobs").is_some());
    let backfill = named("SummariesBackfill").expect("ruby class");
    assert_eq!(backfill.lang, "ruby");
    assert!(backfill.file.ends_with("summaries_backfill.rb"));
    assert_eq!(backfill.repo, "repo");
    assert_eq!(named("ProfileSync").expect("py class").lang, "python");
    assert!(named("helper").is_some(), "python def");
    assert_eq!(named("Widget").expect("ts class").lang, "javascript");
    assert!(named("render").is_some(), "ts function");
    assert!(skipped_in_code("spec"), "spec/ skipped");
    assert!(named("NotCode").is_none(), "non-code ext skipped");
}

#[test]
fn definitions_match_at_the_start_of_a_line() {
    let found = |path: &str, body: &str| {
        scan_code("repo", &vec![file(path, body)])
            .iter()
            .map(|s| s.name.clone())
            .collect::<Vec<String>>()
    };
    assert_eq!(
        found("a.rb", "class Foo\n x class Bar\n\n  module A::B_1 < C\nclass lower\nclassy Foo\n"),
        vec!["Foo", "A::B_1"],
    );
    assert_eq!(
        found("a.py", "def run(self):\n\tclass  _Inner:\nasync def late():\ndef\nsplit():\n"),
        vec!["run", "_Inner", "split"],
    );
    assert_eq!(
        found(
            "a.js",
            "function* gen() {}\nexport const $x = 1;\nexport default class Widget {}\ndefault let no = 1;\nexport  let yes;\nfunctional a\nvar caf\u{e9};\n",
        ),
        vec!["gen", "$x", "Widget", "yes", "caf"],
    );
}

#[test]
fn code_walks_skip_noise() {
    for name in [".git", "vendor", "node_modules", "spec", "test", "tmp"] {
        assert!(skipped_in_code(name));
    }
    assert!(!skipped_in_code("src"));
    assert!(is_code_file("a/b.rb"));
    assert!(!is_code_file("a/b.md"));
    assert!(!is_code_file("a/rb"));
}

#[test]
fn parse_date_stem_accepts_iso_dates() {
    assert_eq!(
        parse_date_stem("2026-07-10"),
        Some("2026-07-10".to_string())
    );
    assert_eq!(
        parse_date_stem("1999-01-01"),
        Some("1999-01-01".to_string())
    );
}

#[test]
fn parse_date_stem_rejects_wrong_shape() {
    assert_eq!(parse_date_stem("2026-7-10"), None);
    assert_eq!(parse_date_stem("2026/07/10"), None);
    assert_eq!(parse_date_stem("notes"), None);
    assert_eq!(parse_date_stem("2026-07-10-notes"), None);
    assert_eq!(parse_date_stem(""), None);
}

#[test]
fn parse_date_stem_rejects_non_digits_in_date_slots() {
    assert_eq!(parse_date_stem("20xx-07-10"), None);
    assert_eq!(parse_date_stem("2026-ab-10"), None);
}

#[test]
fn notes_know_their_dates() {
    let mut dated = file("/n/2026-07-10.md", "a");
    dated.mtime_date = Some("2026-07-12".to_string());
    let notes = scan_notes(&vec![dated, file("/n/topic.md", "b"), file("/n/x.txt", "c")]);
    assert_eq!(notes.len(), 2);
    assert_eq!(notes[0].note_date.as_deref(), Some("2026-07-10"));
    assert_eq!(notes[0].mtime_date.as_deref(), Some("2026-07-12"));
    assert_eq!(notes[1].path, "/n/topic.md");
    assert!(notes[1].note_date.is_none());
    assert!(is_note_file("a.md") && !is_note_file("a.markdown"));
}

fn entry(path: &str, is_dir: bool, stamps: Option<Vec<u128>>) -> DirectoryEntry {
    DirectoryEntry {
        path: path.to_string(),
        is_dir,
        has_git: stamps.is_some(),
        git_stamps: stamps.unwrap_or_default(),
    }
}

#[test]
fn git_fingerprint_none_for_non_repo() {
    assert!(git_fingerprint(&Vec::new()).is_none());
}

#[test]
fn git_fingerprint_stable_without_changes() {
    let a = git_fingerprint(&vec![3, 9, 4]);
    let b = git_fingerprint(&vec![3, 9, 4]);
    assert_eq!(a.as_deref(), Some("9"));
    assert_eq!(a, b);
}

#[test]
fn git_fingerprint_changes_after_commit() {
    let before = git_fingerprint(&vec![3, 9, 4]);
    let after = git_fingerprint(&vec![3, 9, 10]);
    assert_ne!(before, after, "a commit must change the fingerprint");
}

#[test]
fn scan_projects_reports_repo_and_fingerprint() {
    let projects = scan_projects(&vec![
        entry("/dev/myrepo", true, Some(vec![17])),
        entry("/dev/plain", true, None),
        entry("/dev/file.txt", false, None),
        entry("/dev/.hidden", true, None),
    ]);
    let names: Vec<&str> = projects.iter().map(|p| p.name.as_str()).collect();
    assert_eq!(names, vec!["myrepo", "plain"]);
    let repo_p = projects.iter().find(|p| p.name == "myrepo").unwrap();
    let plain_p = projects.iter().find(|p| p.name == "plain").unwrap();

    assert!(repo_p.is_repo);
    assert!(repo_p.git_fingerprint.is_some());
    assert!(!plain_p.is_repo);
    assert!(plain_p.git_fingerprint.is_none());
}

#[test]
fn git_metadata_holds_branch_and_commits() {
    let git = GitOutput {
        branch: Some("main\n".to_string()),
        log: Some("ab1\u{1f}2026-07-01\u{1f}fix: a\u{1f}b\nnonsense\ncd2\u{1f}2026-06-30\u{1f}init\n".to_string()),
    };
    let meta = git_metadata(&git).unwrap();
    assert_eq!(json_text_field(&meta, "branch").as_deref(), Some("main"));
    let commits = json_list_field(&meta, "commits").unwrap();
    assert_eq!(commits.len(), 2);
    assert_eq!(json_text_field(&commits[0], "sha").as_deref(), Some("ab1"));
    assert_eq!(
        json_text_field(&commits[0], "subject").as_deref(),
        Some("fix: a\u{1f}b")
    );
    assert_eq!(
        json_text_field(&commits[1], "date").as_deref(),
        Some("2026-06-30")
    );
    assert!(git_metadata(&GitOutput { branch: None, log: None }).is_none());
}

#[test]
fn paths_have_names_stems_and_extensions() {
    assert_eq!(file_name_of("/a/b.md/").as_deref(), Some("b.md"));
    assert_eq!(file_name_of("/a/..").as_deref(), None);
    assert_eq!(file_name_of("/").as_deref(), None);
    assert_eq!(file_stem_of("/a/b.tar.gz"), "b.tar");
    assert_eq!(extension_of("/a/.bashrc"), None);
    assert_eq!(extension_of("/a/b.").as_deref(), Some(""));
    assert_eq!(join_path("/a", "b"), "/a/b");
    assert_eq!(join_path("/a/", "b"), "/a/b");
    assert_eq!(join_path("/a", "/b"), "/b");
}

#[test]
fn places_follow_the_directories() {
    assert_eq!(config_path(Some("/c")).unwrap(), "/c/raft/config.toml");
    assert_eq!(
        config_path(None).unwrap_err(),
        "could not determine config directory"
    );
    assert_eq!(data_dir(Some("/d")).unwrap(), "/d/raft");
    assert_eq!(db_path(Some("/d")).unwrap(), "/d/raft/raft.db");
    assert!(db_path(None).is_err());
    assert_eq!(expand_tilde("~/x", Some("/home/u")), "/home/u/x");
    assert_eq!(expand_tilde("~x", Some("/home/u")), "~x");
    assert_eq!(expand_tilde("/x", Some("/home/u")), "/x");
    assert_eq!(SourceKind::Projects.name(), "projects");
}
