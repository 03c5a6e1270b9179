//! Building an index and asking it questions.

use raft::config::{Config, PublishConfig, Source, SourceKind};
use raft::connect::{connect, has_plain_dates};
use raft::dates::day_of;
use raft::extract::{Extraction, Loop, Mentions, NameSet};
use raft::graph::{neighborhood, neighborhood_at};
use raft::index::{
    link_to, load_git_cache, meta_source, note_with, project_meta, rebuild, resolve_name, span_to,
    stopword, symbol_to, Build, IndexStats, Known, MetaSource, RebuildError, Scanned, Target,
    SCHEMA_VERSION,
};
use raft::json::{json_field, json_list_field, json_text_field};
use raft::order::KeyPart;
use raft::query::{
    about, about_at, dangling, find_open_loops, search, snippet_around, why, why_at, QueryError,
};
use raft::scan::{scan_notes, CodeSymbol, GitOutput, NoteFile, Project, TextFile};
use raft::status::{
    count_rows, open_db, status, temporary_name, validate_index, Probe,
};
use raft::store::{count_kind, Index, Node, NoteRow};

fn config(ignore: &[&str], sources: Vec<Source>) -> Config {
    Config {
        sources,
        ignore: ignore.iter().map(|s| s.to_string()).collect(),
        daily_note: None,
        publish: PublishConfig::default(),
    }
}

fn note(path: &str, date: Option<&str>, body: &str) -> NoteFile {
    NoteFile {
        path: path.to_string(),
        note_date: date.map(|d| d.to_string()),
        mtime_date: None,
        body: body.to_string(),
    }
}

fn project(name: &str) -> Project {
    Project {
        name: name.to_string(),
        path: format!("/dev/{name}"),
        is_repo: false,
        git_fingerprint: None,
    }
}

fn repo(name: &str, fingerprint: &str) -> Project {
    Project {
        name: name.to_string(),
        path: format!("/dev/{name}"),
        is_repo: true,
        git_fingerprint: Some(fingerprint.to_string()),
    }
}

fn git(branch: &str, log: &str) -> GitOutput {
    GitOutput { branch: Some(branch.to_string()), log: Some(log.to_string()) }
}

fn build(ignore: &[&str], projects: Vec<Project>, notes: Vec<NoteFile>) -> (Index, IndexStats) {
    let gits = projects.iter().map(|_| git("main", "")).collect();
    let scanned = Scanned { projects, gits, symbols: Vec::new(), notes };
    let (index, stats) = rebuild(&config(ignore, Vec::new()), &scanned, &Vec::new()).unwrap();
    assert!(index.is_consistent());
    (index, stats)
}

fn day(date: &str) -> i32 {
    day_of(date).unwrap() as i32 - 1721424
}

#[test]
fn wiki_links_and_mentions_resolve_to_one_project_identity() {
    let (index, stats) = build(
        &[],
        vec![project("Raft")],
        vec![note(
            "/notes/2026-07-11.md",
            Some("2026-07-11"),
            "Worked on [[RAFT,]] today. Need to fix `raft`.",
        )],
    );

    assert_eq!(stats.projects, 1);
    assert_eq!(stats.entities, 0);
    assert_eq!(count_kind(&index.nodes, "project"), 1);

    let found = about(&index, "raft,").unwrap().unwrap();
    assert_eq!(found.kind, "project");
    assert_eq!(found.notes.len(), 1);

    let facts = why(&index, "RAFT,", 0).unwrap();
    assert!(facts.iter().any(|fact| fact.relation == "wikilink"));
    assert!(facts.iter().any(|fact| fact.relation == "mentions"));
}

#[test]
fn canonical_wiki_link_variants_share_one_entity() {
    let (index, stats) = build(
        &[],
        Vec::new(),
        vec![note("/notes/note.md", None, "Compare [[NixOS,]] with [[nixos]].")],
    );
    assert_eq!(stats.entities, 1);
    assert!(about(&index, "NIXOS,").unwrap().is_some());
    assert_eq!(
        json_text_field(&index.nodes[1].meta, "display").as_deref(),
        Some("NixOS,")
    );
}

#[test]
fn repeated_loops_keep_each_occurrence_context() {
    let (index, stats) = build(
        &[],
        Vec::new(),
        vec![
            note(
                "/notes/2026-07-01.md",
                Some("2026-07-01"),
                "## Next steps\n- [ ] write tests\n",
            ),
            note(
                "/notes/2026-07-10.md",
                Some("2026-07-10"),
                "## Follow-ups\n- [ ] write tests\n",
            ),
        ],
    );
    let list = dangling(&index, None, 10, day("2026-07-11")).unwrap();

    assert_eq!(stats.loops, 2);
    assert_eq!(list.len(), 2);
    assert_eq!(list[0].text, "write tests");
    assert_eq!(list[0].section.as_deref(), Some("Next steps"));
    assert_eq!(list[0].first_seen.as_deref(), Some("2026-07-01"));
    assert_eq!(list[0].age_days, Some(10));
    assert_eq!(list[0].note_path, "/notes/2026-07-01.md");
    assert_eq!(list[1].section.as_deref(), Some("Follow-ups"));
    assert_eq!(list[1].first_seen.as_deref(), Some("2026-07-10"));
    assert_eq!(list[1].age_days, Some(1));
    assert_eq!(list[1].note_path, "/notes/2026-07-10.md");
    assert!(list.iter().all(|item| item.sightings == 2));
}

#[test]
fn atomic_rebuild_replaces_the_live_index() {
    let (index, stats) = build(
        &[],
        Vec::new(),
        vec![note("/notes/2026-07-11.md", Some("2026-07-11"), "working on [[Raft]]")],
    );
    assert_eq!(stats.notes, 1);
    assert_eq!(index.nodes.len(), 2);
    assert!(validate_index("ok", true, SCHEMA_VERSION).is_ok());
}

#[test]
fn read_on_missing_db_errors_instead_of_creating_empty() {
    let err = open_db("/x/raft.db", false, 0).unwrap_err();
    assert!(err.contains("no index"), "unexpected error: {err}");
    assert_eq!(err, "no index at /x/raft.db - run `raft index` first");
}

#[test]
fn read_after_rebuild_succeeds() {
    assert!(open_db("/x/raft.db", true, SCHEMA_VERSION).is_ok());
}

#[test]
fn read_on_stale_schema_errors_and_does_not_wipe() {
    let err = open_db("/x/raft.db", true, SCHEMA_VERSION - 1).unwrap_err();
    assert!(err.contains("different raft version"), "unexpected: {err}");
    assert!(err.contains("(schema 4, expected 5)"));
}

#[test]
fn a_faulty_rebuild_is_refused() {
    assert_eq!(
        validate_index("row missing", true, SCHEMA_VERSION).unwrap_err(),
        "rebuilt index failed integrity check: row missing"
    );
    assert_eq!(
        validate_index("ok", false, SCHEMA_VERSION).unwrap_err(),
        "rebuilt index failed FTS integrity check"
    );
    assert_eq!(
        validate_index("ok", true, 4).unwrap_err(),
        "rebuilt index has schema version 4, expected 5"
    );
    assert_eq!(temporary_name("/x/raft.db", 17).as_deref(), Some(".raft.db.17.tmp"));
    assert!(temporary_name("/", 17).is_none());
}

#[test]
fn status_reports_rebuild_metadata_counts_and_sources() {
    let (index, _) = build(
        &[],
        Vec::new(),
        vec![note("/notes/note.md", None, "See [[NixOS]].")],
    );
    let cfg = config(
        &[],
        vec![Source { path: "~/notes".to_string(), kind: SourceKind::Notes }],
    );
    let probe = Probe::Versioned {
        version: SCHEMA_VERSION,
        integrity: Some("ok".to_string()),
        last_rebuilt: Some("2026-07-11T10:00:00Z".to_string()),
        counts: Some(count_rows(
            &index.nodes.iter().map(|n| n.kind.clone()).collect(),
            index.edges.len() as i64,
        )),
    };

    let status = status(&cfg, "/x/raft.db", &probe, Some("/home/u"), &vec![None]);

    assert!(status.indexed);
    assert!(status.healthy);
    assert_eq!(status.schema_version, Some(SCHEMA_VERSION));
    assert!(status.last_rebuilt.is_some());
    let counts = status.counts.unwrap();
    assert_eq!(counts.notes, 1);
    assert_eq!(counts.entities, 1);
    assert_eq!(counts.edges, 1);
    assert_eq!(status.sources.len(), 1);
    assert!(status.sources[0].healthy);
    assert_eq!(status.sources[0].path, "/home/u/notes");
    assert_eq!(status.sources[0].configured_path, "~/notes");
}

#[test]
fn status_is_useful_when_index_and_source_are_missing() {
    let cfg = config(
        &[],
        vec![Source { path: "/x/missing".to_string(), kind: SourceKind::Notes }],
    );

    let status = status(
        &cfg,
        "/x/raft.db",
        &Probe::Missing,
        None,
        &vec![Some("No such file or directory".to_string())],
    );

    assert!(!status.indexed);
    assert!(!status.healthy);
    assert!(status.error.unwrap().contains("does not exist"));
    assert!(!status.sources[0].healthy);
    assert!(status.sources[0].error.is_some());
}

#[test]
fn status_says_what_is_wrong() {
    let cfg = config(&[], Vec::new());
    let error = |probe: Probe| status(&cfg, "d", &probe, None, &Vec::new()).error.unwrap();
    assert_eq!(
        error(Probe::Unopened { error: "locked".to_string() }),
        "could not open index: locked"
    );
    assert_eq!(
        error(Probe::Unversioned { error: "garbled".to_string() }),
        "could not read schema version: garbled"
    );
    assert_eq!(
        error(Probe::Versioned {
            version: 3,
            integrity: None,
            last_rebuilt: None,
            counts: None,
        }),
        "schema 3 is stale; expected 5; run `raft index`"
    );
    assert_eq!(
        error(Probe::Versioned {
            version: SCHEMA_VERSION,
            integrity: Some("broken".to_string()),
            last_rebuilt: None,
            counts: None,
        }),
        "index failed integrity check: broken"
    );
}

#[test]
fn git_metadata_reused_when_repo_unchanged_then_refreshed_after_commit() {
    let log = "a1\u{1f}2026-07-01\u{1f}one\n";
    let cfg = config(&[], Vec::new());
    let scan = |stamp: &str, log: &str| Scanned {
        projects: vec![repo("myrepo", stamp)],
        gits: vec![git("main", log)],
        symbols: Vec::new(),
        notes: Vec::new(),
    };

    let (first, stats) = rebuild(&cfg, &scan("1", log), &Vec::new()).unwrap();
    assert_eq!(stats.git_refreshed, 1);
    assert_eq!(stats.git_cached, 0);

    let cache = load_git_cache(SCHEMA_VERSION, &first.nodes);
    let (second, stats) = rebuild(&cfg, &scan("1", "ignored"), &cache).unwrap();
    assert_eq!(stats.git_cached, 1, "unchanged repo should hit the cache");
    assert_eq!(stats.git_refreshed, 0);
    assert_eq!(second.nodes[0].meta, first.nodes[0].meta);

    let found = about(&second, "myrepo").unwrap().unwrap();
    assert_eq!(found.kind, "project");
    assert!(found.git.is_some());

    let cache = load_git_cache(SCHEMA_VERSION, &second.nodes);
    let (_, stats) = rebuild(&cfg, &scan("2", log), &cache).unwrap();
    assert_eq!(stats.git_refreshed, 1, "a commit must force a refresh");
    assert_eq!(stats.git_cached, 0);

    assert!(load_git_cache(SCHEMA_VERSION - 1, &second.nodes).is_empty());
}

#[test]
fn stored_project_meta_carries_fingerprint() {
    let meta = project_meta(
        &repo("r", "77"),
        &Vec::new(),
        &git("main", "a1\u{1f}2026-07-01\u{1f}x\n"),
    );
    assert_eq!(json_text_field(&meta, "git_fingerprint").as_deref(), Some("77"));
    assert!(json_field(&meta, "branch").is_some());
    assert_eq!(json_list_field(&meta, "commits").unwrap().len(), 1);
    assert_eq!(project_meta(&project("p"), &Vec::new(), &git("main", "")), "{}");
    assert!(matches!(
        meta_source(&project("p"), &Vec::new()),
        MetaSource::NoRepo
    ));
}

#[test]
fn every_edge_carries_its_evidence() {
    let (index, stats) = build(
        &[],
        vec![project("replaybook")],
        vec![note(
            "/n/a.md",
            None,
            "replaybook and replaybook, [[Some Idea]], `tooling`\n- [ ] finish replaybook\n",
        )],
    );
    let shown: Vec<String> = index
        .edges
        .iter()
        .map(|e| {
            format!(
                "{} {} {} {}",
                e.kind,
                e.provenance,
                e.weight,
                e.rationale.as_deref().unwrap()
            )
        })
        .collect();
    assert_eq!(
        shown,
        vec![
            "mentions indexer 3000 matched project name 'replaybook' 3x in prose",
            "wikilink human 1000 wiki link [[Some Idea]]",
            "mentions indexer 300 backticked span `tooling`",
            "contains indexer 1000 open loop found in note",
            "mentions indexer 1000 loop text mentions project 'replaybook'",
        ]
    );
    assert_eq!(stats.edges, 5);
    assert_eq!(stats.loops, 1);
    assert_eq!(stats.entities, 2);
    let names: Vec<(&str, &str)> = index
        .nodes
        .iter()
        .map(|n| (n.kind.as_str(), n.name.as_str()))
        .collect();
    assert_eq!(
        names,
        vec![
            ("project", "replaybook"),
            ("note", "/n/a.md"),
            ("entity", "some idea"),
            ("entity", "tooling"),
            ("loop", "/n/a.md#loop-0"),
        ]
    );
    assert!(index.nodes.iter().enumerate().all(|(i, n)| n.id == i as i64 + 1));
}

#[test]
fn ignored_names_are_never_linked() {
    let (index, stats) = build(
        &["Raft", "nixos"],
        vec![project("raft")],
        vec![note("/n/a.md", None, "raft, [[RAFT]] and [[NixOS]], `raft`")],
    );
    assert_eq!(stats.entities, 0);
    assert_eq!(index.edges.len(), 0);
    assert_eq!(count_kind(&index.nodes, "project"), 1);
}

#[test]
fn short_and_common_words_are_no_entities() {
    let (_, stats) = build(
        &[],
        Vec::new(),
        vec![note("/n/a.md", None, "`ok` and `true` and [[TODO]] and `zig`")],
    );
    assert_eq!(stats.entities, 1);
    assert!(stopword("n/a") && !stopword("zig"));
}

#[test]
fn notes_with_one_path_cannot_be_indexed() {
    let scanned = Scanned {
        projects: Vec::new(),
        gits: Vec::new(),
        symbols: Vec::new(),
        notes: vec![note("/n/a.md", None, "x"), note("/n/a.md", None, "y")],
    };
    let r = rebuild(&config(&[], Vec::new()), &scanned, &Vec::new());
    assert_eq!(r.err(), Some(RebuildError::DuplicateNode));
}

#[test]
fn the_first_of_two_projects_with_one_name_counts() {
    let mut other = project("raft");
    other.path = "/tmp/raft".to_string();
    let (index, stats) = build(&[], vec![project("raft"), other], Vec::new());
    assert_eq!(stats.projects, 2);
    assert_eq!(index.nodes.len(), 1);
    assert_eq!(index.nodes[0].path.as_deref(), Some("/dev/raft"));
}

#[test]
fn code_symbols_are_entities_of_their_repo() {
    let scanned = Scanned {
        projects: vec![project("app")],
        gits: vec![git("main", "")],
        symbols: vec![CodeSymbol {
            name: "SyncJob".to_string(),
            file: "lib/sync_job.rb".to_string(),
            repo: "app".to_string(),
            lang: "ruby",
        }],
        notes: vec![note("/n/a.md", None, "see `SyncJob`")],
    };
    let (index, _) = rebuild(&config(&[], Vec::new()), &scanned, &Vec::new()).unwrap();
    let found = about(&index, "syncjob").unwrap().unwrap();
    let definition = found.definition.unwrap();
    assert_eq!(json_text_field(&definition, "file").as_deref(), Some("lib/sync_job.rb"));
    assert_eq!(found.notes.len(), 1);
    let facts = why(&index, "SyncJob", 0).unwrap();
    assert_eq!(facts[0].relation, "defines");
    assert_eq!(facts[0].rationale.as_deref(), Some("defined in lib/sync_job.rb"));
}

fn library() -> Index {
    build(
        &[],
        vec![project("raft")],
        vec![
            note("/n/old.md", Some("2026-01-01"), "Plain WATER here"),
            note("/n/undated.md", None, "more water"),
            note("/n/new.md", Some("2026-02-01"), "water again, raft"),
            note("/n/dry.md", Some("2026-03-01"), "nothing"),
        ],
    )
    .0
}

#[test]
fn search_is_newest_first() {
    let index = library();
    let paths = |term: &str, limit: usize| -> Vec<String> {
        search(&index, term, limit).unwrap().into_iter().map(|h| h.path).collect()
    };
    assert_eq!(paths("water", 10), vec!["/n/new.md", "/n/old.md", "/n/undated.md"]);
    assert_eq!(paths("water", 2), vec!["/n/new.md", "/n/old.md"]);
    assert_eq!(paths("Wa_er", 10).len(), 3);
    assert_eq!(paths("plain%here", 10), vec!["/n/old.md"]);
    assert!(paths("fire", 10).is_empty());
    let hit = &search(&index, "water", 10).unwrap()[1];
    assert_eq!(hit.snippet, "Plain WATER here");
    assert_eq!(hit.note_date.as_deref(), Some("2026-01-01"));
}

#[test]
fn snippets_show_sixty_characters_each_side() {
    let body = format!("{}needle{}", "a".repeat(100), "b\n".repeat(100));
    let text = snippet_around(&body, &body, "needle");
    assert_eq!(
        text,
        format!("{}needle{}", "a".repeat(61), "b ".repeat(30).trim_end())
    );
    assert_eq!(snippet_around("abc", "abc", "x"), "");
}

#[test]
fn search_refuses_what_it_cannot_answer() {
    let mut index = library();
    let long = "x".repeat(50_000);
    assert_eq!(search(&index, &long, 5).err(), Some(QueryError::TermTooLong));
    assert!(search(&index, &long, 0).unwrap().is_empty());
    index.nodes[1].path = None;
    assert_eq!(search(&index, "water", 5).err(), Some(QueryError::NoPath));
    let odd = build(
        &[],
        Vec::new(),
        vec![note("/n/i.md", None, &format!("{}é x", "İ".repeat(2)))],
    )
    .0;
    assert_eq!(search(&odd, "x", 5).err(), Some(QueryError::NoSnippet));
}

#[test]
fn about_lists_notes_and_company() {
    let body = "[[alpha]] with [[beta]] and [[gamma]]";
    let (index, _) = build(
        &[],
        Vec::new(),
        vec![
            note("/n/1.md", Some("2026-01-01"), body),
            note("/n/2.md", Some("2026-01-02"), "[[alpha]] [[beta]] and `alpha`"),
        ],
    );
    let found = about(&index, "Alpha").unwrap().unwrap();
    let paths: Vec<&str> = found.notes.iter().map(|n| n.path.as_str()).collect();
    assert_eq!(paths, vec!["/n/2.md", "/n/1.md"]);
    assert_eq!(found.co_mentioned.len(), 1);
    assert_eq!(found.co_mentioned[0].name, "beta");
    assert_eq!(found.co_mentioned[0].shared_notes, 2);
    assert!(about(&index, "delta").unwrap().is_none());
}

#[test]
fn why_hides_weak_edges() {
    let (index, _) = build(
        &[],
        Vec::new(),
        vec![note("/n/1.md", None, "[[alpha]] and `alpha`")],
    );
    assert_eq!(why(&index, "alpha", 0).unwrap().len(), 2);
    let strong = why(&index, "alpha", 500).unwrap();
    assert_eq!(strong.len(), 1);
    assert_eq!(strong[0].from, "/n/1.md");
    assert_eq!(strong[0].from_kind, "note");
    assert_eq!(strong[0].provenance, "human");
    assert!(why(&index, "beta", 0).is_none());
}

#[test]
fn loops_are_found_by_their_text_and_by_what_they_mention() {
    let (index, _) = build(
        &[],
        vec![project("replaybook")],
        vec![
            note("/n/1.md", Some("2026-01-02"), "- [ ] ship replaybook\n- [ ] rest\n"),
            note("/n/2.md", None, "- [ ] later\n"),
        ],
    );
    let found = find_open_loops(&index, "ship");
    assert_eq!(found.len(), 1);
    assert_eq!(found[0].text, "ship replaybook");
    assert_eq!(found[0].note, "/n/1.md");
    let texts = |about: Option<&str>, limit: usize| -> Vec<String> {
        dangling(&index, about, limit, 0).unwrap().into_iter().map(|d| d.text).collect()
    };
    assert_eq!(texts(None, 10), vec!["ship replaybook", "rest", "later"]);
    assert_eq!(texts(None, 1), vec!["ship replaybook"]);
    assert_eq!(texts(Some("REPLAYBOOK"), 10), vec!["ship replaybook"]);
    assert!(texts(Some("unknown"), 10).is_empty());
    assert!(dangling(&index, None, 10, 0).unwrap()[2].age_days.is_none());
}

#[test]
fn dangling_loops_need_a_note_with_a_path() {
    let (mut index, _) = build(&[], Vec::new(), vec![note("/n/1.md", None, "- [ ] x y\n")]);
    index.nodes[0].path = None;
    assert_eq!(dangling(&index, None, 5, 0).err(), Some(QueryError::NoPath));
    assert_eq!(
        about(&build(&[], Vec::new(), vec![note("/n/1.md", None, "[[abc]]")]).0, "abc")
            .unwrap()
            .unwrap()
            .kind,
        "entity"
    );
}

#[test]
fn pairs_that_keep_reuniting_are_connected() {
    let text = "[[alpha]] and [[beta]]";
    let (index, _) = build(
        &[],
        Vec::new(),
        vec![
            note("/n/1.md", Some("2026-01-01"), text),
            note("/n/2.md", Some("2026-01-11"), text),
            note("/n/3.md", Some("2026-03-02"), text),
            note("/n/4.md", Some("2026-03-03"), "[[alpha]] alone"),
        ],
    );
    assert!(has_plain_dates(&index));
    let found = connect(&index, 3, 500, 15);
    assert_eq!(found.co_mentions.len(), 1);
    let pair = &found.co_mentions[0];
    assert_eq!((pair.a.as_str(), pair.b.as_str()), ("alpha", "beta"));
    assert_eq!(pair.shared_notes, 3);
    assert_eq!(pair.span_days, 60);
    assert_eq!((pair.notes_a, pair.notes_b), (4, 3));
    assert!(connect(&index, 4, 500, 15).co_mentions.is_empty());
    assert!(connect(&index, 3, 2000, 15).co_mentions.is_empty());
    assert!(connect(&index, 3, 500, 0).co_mentions.is_empty());
}

#[test]
fn projects_with_commits_on_the_same_days_are_connected() {
    let log = "a\u{1f}2026-01-01\u{1f}x\nb\u{1f}2026-01-02\u{1f}y\nc\u{1f}2026-01-02\u{1f}z\n";
    let scanned = Scanned {
        projects: vec![repo("one", "1"), repo("two", "2")],
        gits: vec![git("main", log), git("main", log)],
        symbols: Vec::new(),
        notes: Vec::new(),
    };
    let (index, _) = rebuild(&config(&[], Vec::new()), &scanned, &Vec::new()).unwrap();
    let found = connect(&index, 2, 0, 15);
    assert_eq!(found.temporal.len(), 1);
    assert_eq!(found.temporal[0].a, "one");
    assert_eq!(found.temporal[0].b, "two");
    assert_eq!(found.temporal[0].shared_days, 2);
    assert!(connect(&index, 3, 0, 15).temporal.is_empty());
}

#[test]
fn inconsistent_rows_are_noticed() {
    let index = Index {
        nodes: vec![Node {
            id: 1,
            kind: "note".to_string(),
            name: "a".to_string(),
            path: None,
            meta: "{}".to_string(),
        }],
        notes: vec![NoteRow {
            node_id: 2,
            body: String::new(),
            note_date: None,
            mtime: None,
        }],
        edges: Vec::new(),
    };
    assert!(!index.is_consistent());
}

#[test]
fn days_are_julian() {
    assert_eq!(day_of("2000-01-01"), Some(2451544));
    assert_eq!(day_of("1970-01-01"), Some(2440587));
    assert_eq!(day_of("2026-13-01"), None);
}

fn nothing_built() -> Build {
    Build {
        index: Index { nodes: Vec::new(), notes: Vec::new(), edges: Vec::new() },
        edges: 0,
        loops: 0,
    }
}

fn raft_known() -> Known {
    Known {
        names: NameSet::new().with("raft"),
        ignore: NameSet::new().with("skipped"),
        projects: vec![("raft".to_string(), 7)],
    }
}

#[test]
fn a_canonical_name_stands_for_a_project_an_entity_or_nothing() {
    let known = raft_known();
    assert!(matches!(resolve_name(&known, "raft".to_string()), Target::Project(7)));
    assert!(matches!(resolve_name(&known, "skipped".to_string()), Target::Nothing));
    assert!(matches!(resolve_name(&known, "".to_string()), Target::Nothing));
    assert!(matches!(resolve_name(&known, "ab".to_string()), Target::Nothing));
    assert!(matches!(resolve_name(&known, "true".to_string()), Target::Nothing));
    match resolve_name(&known, "widget".to_string()) {
        Target::Entity(name) => assert_eq!(name, "widget"),
        _ => panic!("an entity"),
    }
}

#[test]
fn a_link_gives_an_edge_to_what_it_stands_for() {
    let to_project = link_to(nothing_built(), 3, Target::Project(7), " Raft ").unwrap();
    assert!(to_project.index.nodes.is_empty());
    assert_eq!(to_project.index.edges.len(), 1);
    let edge = &to_project.index.edges[0];
    assert_eq!((edge.src, edge.dst, edge.weight), (3, 7, 1000));
    assert_eq!((edge.kind.as_str(), edge.provenance.as_str()), ("wikilink", "human"));
    assert_eq!(edge.rationale.as_deref(), Some("wiki link [[Raft]]"));

    let to_entity =
        link_to(nothing_built(), 3, Target::Entity("widget".to_string()), "Widget").unwrap();
    assert_eq!(to_entity.index.nodes.len(), 1);
    assert_eq!(to_entity.index.nodes[0].kind, "entity");
    assert_eq!(to_entity.index.nodes[0].name, "widget");
    assert_eq!(
        json_text_field(&to_entity.index.nodes[0].meta, "display").as_deref(),
        Some("Widget")
    );
    assert_eq!(to_entity.index.edges[0].dst, 1);

    assert!(link_to(nothing_built(), 3, Target::Nothing, "x").unwrap().index.edges.is_empty());
}

#[test]
fn a_span_that_names_a_project_adds_nothing() {
    assert!(span_to(nothing_built(), 3, Target::Project(7), "raft").unwrap().index.edges.is_empty());
    assert!(span_to(nothing_built(), 3, Target::Nothing, "x").unwrap().index.edges.is_empty());
    let built = span_to(nothing_built(), 3, Target::Entity("a_b".to_string()), "A_b").unwrap();
    let edge = &built.index.edges[0];
    assert_eq!((edge.kind.as_str(), edge.provenance.as_str()), ("mentions", "indexer"));
    assert_eq!(edge.rationale.as_deref(), Some("backticked span `A_b`"));
}

#[test]
fn a_symbol_is_defined_by_its_repo_where_that_is_known() {
    let symbol = CodeSymbol {
        name: "Widget".to_string(),
        file: "src/widget.rb".to_string(),
        lang: "ruby",
        repo: "raft".to_string(),
    };
    let entity = || Target::Entity("widget".to_string());
    let known = symbol_to(nothing_built(), &symbol, entity(), Some(7)).unwrap();
    assert_eq!(known.index.edges[0].src, 7);
    assert_eq!(known.index.edges[0].kind, "defines");
    assert_eq!(known.index.edges[0].rationale.as_deref(), Some("defined in src/widget.rb"));
    let unknown = symbol_to(nothing_built(), &symbol, entity(), None).unwrap();
    assert_eq!(unknown.index.nodes.len(), 1);
    assert!(unknown.index.edges.is_empty());
    let project = symbol_to(nothing_built(), &symbol, Target::Project(7), Some(7)).unwrap();
    assert!(project.index.nodes.is_empty());
}

#[test]
fn a_note_is_built_from_what_it_says() {
    let found = Extraction {
        wiki_links: vec!["Widget".to_string()],
        code_spans: vec!["widget".to_string()],
        project_mentions: Mentions { entries: vec![("raft".to_string(), 2)] },
    };
    let loops = vec![Loop {
        text: "ship raft".to_string(),
        section: Some("Todo".to_string()),
        line: 3,
    }];
    let mentions = vec![Mentions { entries: vec![("raft".to_string(), 1)] }];
    let file = note("/n/a.md", Some("2026-07-01"), "body");
    let built = note_with(&raft_known(), nothing_built(), &file, &found, &loops, &mentions).unwrap();
    let kinds: Vec<&str> = built.index.nodes.iter().map(|n| n.kind.as_str()).collect();
    assert_eq!(kinds, vec!["note", "entity", "loop"]);
    assert_eq!(built.index.notes[0].body, "body");
    let edges: Vec<(i64, i64, &str)> =
        built.index.edges.iter().map(|e| (e.src, e.dst, e.kind.as_str())).collect();
    assert_eq!(edges[0], (1, 7, "mentions"));
    assert_eq!(edges[1], (1, 2, "wikilink"));
    assert_eq!(edges[2], (1, 2, "mentions"));
    assert_eq!(edges.len(), 5);
    assert_eq!(built.loops, 1);
    assert_eq!(built.edges, 5);
}

#[test]
fn a_name_and_its_place_give_the_same_answers() {
    let (index, _) = build(
        &[],
        vec![project("Raft")],
        vec![note("/notes/a.md", Some("2026-07-11"), "Worked on raft with [[Widget]].")],
    );
    let at = index.nodes.iter().position(|n| n.name == "Raft").unwrap();
    let by_name = about(&index, "raft").unwrap().unwrap();
    let by_place = about_at(&index, "raft", at).unwrap();
    assert_eq!(format!("{by_name:?}"), format!("{by_place:?}"));
    assert_eq!(by_place.notes.len(), 1);
    assert_eq!(
        format!("{:?}", why(&index, "raft", 0).unwrap()),
        format!("{:?}", why_at(&index, at, 0))
    );
    let near = neighborhood_at(&index, at, 1, 0);
    assert_eq!(near.start, index.nodes[at].id);
    assert_eq!(near.nodes.len(), neighborhood(&index, "raft", 1, 0).unwrap().nodes.len());
    assert_eq!(near.nodes.len(), 2);
}

#[test]
fn scanned_notes_have_plain_dates() {
    let file = |path: &str, mtime: &str| TextFile {
        path: path.to_string(),
        mtime_date: Some(mtime.to_string()),
        body: "text".to_string(),
    };
    let notes = scan_notes(&vec![
        file("/n/2026-07-01.md", "2026-07-02"),
        file("/n/topic.md", "2026-07-03"),
    ]);
    assert_eq!(notes[0].note_date.as_deref(), Some("2026-07-01"));
    assert_eq!(notes[1].note_date, None);
    let (index, _) = build(&[], Vec::new(), notes);
    assert!(has_plain_dates(&index));
}

#[test]
fn a_rebuild_forgets_the_old_index() {
    let cfg = config(&[], Vec::new());
    let scanned = |log: &str| Scanned {
        projects: vec![repo("raft", "1"), project("plain")],
        gits: vec![git("main", log), git("main", "")],
        symbols: Vec::new(),
        notes: vec![note("/n/a.md", None, "raft and [[Widget]]\n- [ ] fix plain\n")],
    };
    let (first, _) = rebuild(&cfg, &scanned(""), &Vec::new()).unwrap();
    let mut stale = load_git_cache(SCHEMA_VERSION, &first.nodes);
    stale[0].meta = "{\"branch\":\"old\"}".to_string();
    let (second, _) = rebuild(&cfg, &scanned("a1\u{1f}2026-07-01\u{1f}x\n"), &stale).unwrap();
    let bare = |index: &Index| -> Vec<String> {
        index.nodes.iter().map(|n| format!("{} {} {} {:?}", n.id, n.kind, n.name, n.path)).collect()
    };
    assert_eq!(bare(&first), bare(&second));
    assert_eq!(format!("{:?}", first.notes), format!("{:?}", second.notes));
    assert_eq!(format!("{:?}", first.edges), format!("{:?}", second.edges));
    assert!(first.nodes[0].meta != second.nodes[0].meta);
}

#[test]
fn fractions_are_compared_exactly() {
    let part = |over: u128, under: u128| KeyPart::FractionDown { over, under };
    assert!(part(1, 2).not_after(&part(1, 3)));
    assert!(!part(1, 3).not_after(&part(1, 2)));
    assert!(part(2, 4).not_after(&part(1, 2)) && part(1, 2).not_after(&part(2, 4)));
    let big = u128::MAX;
    assert!(part(big, big - 1).not_after(&part(1, 1)));
    assert!(!part(1, 1).not_after(&part(big, big - 1)));
    assert!(part(big - 1, big - 2).not_after(&part(big, big - 1)));
    assert!(!part(big, big - 1).not_after(&part(big - 1, big - 2)));
}

#[test]
fn only_notes_count_as_shared() {
    let (index, _) = build(
        &[],
        vec![project("alpha"), project("beta")],
        vec![note("/n/a.md", None, "- [ ] move alpha to beta\n")],
    );
    // The loop mentions both projects as the note does, but it is no second note.
    let found = about(&index, "alpha").unwrap().unwrap();
    assert_eq!(found.notes.len(), 1);
    assert!(found.co_mentioned.is_empty());
}
