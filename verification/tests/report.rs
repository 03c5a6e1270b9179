//! What is printed, and what agents ask for.

use raft::connect::{CoMentionPair, Connections, TemporalPair};
use raft::index::IndexStats;
use raft::mcp::{call_tool, nothing_known, reindexed, request_for, tools, Request, ToolArgs};
use raft::publish::{PlanEdge, PlanEntity, PlanFlag, PlanLoop, PlanNote, PlanProject, PublishPlan};
use raft::query::{About, CoMention, Dangling, Fact, NoteRef, OpenLoop, SearchHit};
use raft::report::{
    nothing_indexed, print_about, print_audit, print_connections, print_dangling, print_done,
    print_rebuild, print_search, print_sources, print_status, print_why, shorten_source,
    single_match,
};
use raft::config::{Source, SourceKind};
use raft::status::{IndexCounts, IndexStatus, SourceStatus};

fn s(text: &str) -> String {
    text.to_string()
}

fn stats() -> IndexStats {
    IndexStats {
        notes: 1,
        projects: 2,
        entities: 3,
        edges: 5,
        loops: 4,
        git_cached: 7,
        git_refreshed: 6,
    }
}

#[test]
fn calls_ask_for_what_they_name() {
    match call_tool("search", "{\"term\":\"x\",\"limit\":3}", None).unwrap() {
        Request::Search { term, limit } => {
            assert_eq!(term, "x");
            assert_eq!(limit, 3);
        }
        other => panic!("{other:?}"),
    }
    match call_tool("search", "{\"term\":\"x\",\"limit\":\"3\"}", None).unwrap() {
        Request::Search { limit, .. } => assert_eq!(limit, 20),
        other => panic!("{other:?}"),
    }
    match call_tool("about", "{\"name\":\"raft\"}", None).unwrap() {
        Request::About { name } => assert_eq!(name, "raft"),
        other => panic!("{other:?}"),
    }
    match call_tool("why", "{\"name\":\"raft\"}", None).unwrap() {
        Request::Why { name, min_weight } => assert_eq!((name.as_str(), min_weight), ("raft", 0)),
        other => panic!("{other:?}"),
    }
    match call_tool("dangling", "{}", None).unwrap() {
        Request::Dangling { about, limit } => {
            assert!(about.is_none());
            assert_eq!(limit, 50);
        }
        other => panic!("{other:?}"),
    }
    match call_tool("connect", "{\"min\":2,\"limit\":-1}", None).unwrap() {
        Request::Connect { min, limit, .. } => {
            assert_eq!(min, 2);
            assert_eq!(limit, usize::MAX);
        }
        other => panic!("{other:?}"),
    }
    match call_tool("connect", "[]", None).unwrap() {
        Request::Connect { min, min_weight, limit } => {
            assert_eq!((min, min_weight, limit), (3, 500, 15))
        }
        other => panic!("{other:?}"),
    }
    match call_tool("connect", "{}", Some(0)).unwrap() {
        Request::Connect { min_weight, .. } => assert_eq!(min_weight, 0),
        other => panic!("{other:?}"),
    }
    match call_tool("why", "{\"name\":\"raft\"}", Some(400)).unwrap() {
        Request::Why { min_weight, .. } => assert_eq!(min_weight, 400),
        other => panic!("{other:?}"),
    }
    assert!(matches!(call_tool("reindex", "null", None), Ok(Request::Reindex)));
}

#[test]
fn calls_that_cannot_be_served_say_why() {
    assert_eq!(call_tool("search", "{}", None).unwrap_err(), "missing 'term'");
    assert_eq!(call_tool("about", "{}", None).unwrap_err(), "missing 'name'");
    assert_eq!(
        call_tool("why", "{\"name\":3}", None).unwrap_err(),
        "missing 'name'"
    );
    assert_eq!(call_tool("delete", "{}", None).unwrap_err(), "unknown tool: delete");
    assert_eq!(nothing_known("x"), "nothing known about 'x'");
}

#[test]
fn listed_tools_are_served() {
    let list = tools();
    let names: Vec<&str> = list.iter().map(|t| t.name).collect();
    assert_eq!(
        names,
        vec!["search", "about", "why", "dangling", "connect", "reindex"]
    );
    for tool in list {
        let args = ToolArgs {
            term: Some(s("t")),
            name: Some(s("n")),
            about: None,
            limit: None,
            min: None,
            min_weight: None,
        };
        assert!(request_for(tool.name, args).is_ok());
        let schema: serde_json::Value = serde_json::from_str(tool.input_schema).unwrap();
        assert_eq!(schema["type"], "object");
        assert!(schema["properties"].is_object());
        assert!(!tool.description.is_empty());
    }
}

#[test]
fn rebuilds_are_counted() {
    assert_eq!(
        reindexed(&stats()),
        "indexed 1 notes, 2 projects, 3 entities, 4 loops, 5 edges (git: 6 refreshed, 7 reused from cache)"
    );
    assert_eq!(
        print_rebuild(&stats()),
        vec![
            "indexed 1 notes, 2 projects, 3 entities, 4 loops, 5 edges",
            "git: 6 refreshed, 7 reused from cache",
        ]
    );
    let quiet = IndexStats { git_cached: 0, git_refreshed: 0, ..stats() };
    assert_eq!(print_rebuild(&quiet).len(), 1);
}

#[test]
fn status_is_reported() {
    let mut status = IndexStatus {
        database: s("/d/raft.db"),
        indexed: true,
        healthy: true,
        schema_version: Some(5),
        expected_schema_version: 5,
        last_rebuilt: Some(s("2026-07-11T10:00:00Z")),
        counts: Some(IndexCounts { notes: 1, projects: 2, entities: 3, loops: 4, edges: 5 }),
        error: None,
        sources: vec![SourceStatus {
            kind: s("notes"),
            configured_path: s("~/n"),
            path: s("/home/u/n"),
            healthy: true,
            error: None,
        }],
    };
    assert_eq!(
        print_status(&status),
        vec![
            "index:        healthy",
            "database:     /d/raft.db",
            "schema:       5 (expected 5)",
            "last rebuilt: 2026-07-11T10:00:00Z",
            "graph:        1 notes, 2 projects, 3 entities, 4 loops, 5 edges",
            "sources:",
            "  notes     ok    /home/u/n",
        ]
    );
    status.healthy = false;
    status.indexed = false;
    status.schema_version = None;
    status.last_rebuilt = None;
    status.counts = None;
    status.error = Some(s("gone"));
    status.sources[0].healthy = false;
    status.sources[0].error = Some(s("denied"));
    assert_eq!(
        print_status(&status),
        vec![
            "index:        missing",
            "database:     /d/raft.db",
            "schema:       -",
            "last rebuilt: never",
            "error:        gone",
            "sources:",
            "  notes     error /home/u/n",
            "                  denied",
        ]
    );
    status.indexed = true;
    assert_eq!(print_status(&status)[0], "index:        needs attention");
}

#[test]
fn sources_are_listed() {
    let sources = vec![
        Source { path: s("~/n"), kind: SourceKind::Notes },
        Source { path: s("~/dev"), kind: SourceKind::Projects },
    ];
    assert_eq!(print_sources(&sources), vec!["notes     ~/n", "projects  ~/dev"]);
}

#[test]
fn hits_are_listed() {
    let hits = vec![
        SearchHit { path: s("/a"), note_date: Some(s("2026-01-01")), snippet: s("x y") },
        SearchHit { path: s("/b"), note_date: None, snippet: s("") },
    ];
    assert_eq!(
        print_search("x", &hits),
        vec!["2026-01-01  /a", "    ...x y...", "            /b"]
    );
    assert_eq!(print_search("x", &Vec::new()), vec!["no matches for 'x'"]);
}

#[test]
fn what_is_known_is_reported() {
    let about = About {
        name: s("raft"),
        kind: s("project"),
        git: Some(s(
            "{\"branch\":\"main\",\"commits\":[{\"sha\":\"a\",\"date\":\"2026-01-01\",\"subject\":\"init\"},{}]}",
        )),
        definition: Some(s("{\"file\":\"a.rb\",\"repo\":\"r\"}")),
        notes: vec![NoteRef { path: s("/n"), note_date: None }],
        co_mentioned: vec![CoMention { name: s("zola"), kind: s("entity"), shared_notes: 12 }],
    };
    assert_eq!(
        print_about(&about),
        vec![
            "raft (project)",
            "",
            "  defined in: r/a.rb",
            "",
            "  branch: main",
            "  2026-01-01  init",
            "    ",
            "",
            "notes (1):",
            "              /n",
            "",
            "co-mentioned:",
            "   12x  zola (entity)",
        ]
    );
    assert_eq!(
        nothing_indexed("x"),
        "nothing known about 'x' (try `raft index` first)"
    );
}

#[test]
fn reasons_are_reported() {
    let facts = vec![
        Fact {
            from: s("/n/today.md"),
            from_kind: s("note"),
            relation: s("mentions"),
            provenance: s("indexer"),
            weight: 300,
            rationale: Some(s("backticked span `x`")),
        },
        Fact {
            from: s("a/b"),
            from_kind: s("loop"),
            relation: s("mentions"),
            provenance: s("human"),
            weight: 1000,
            rationale: None,
        },
    ];
    assert_eq!(
        print_why("x", &facts, &vec![s("0.30"), s("1.00")], "0"),
        vec![
            "x (2 edges)",
            "  0.30  indexer  mentions  today.md",
            "           backticked span `x`",
            "  1.00  human    mentions  a/b",
        ]
    );
    assert_eq!(
        print_why("x", &Vec::new(), &Vec::new(), "0.5"),
        vec!["no edges point at 'x' above weight 0.5"]
    );
    assert_eq!(shorten_source("/n/a.md", "note"), "a.md");
    assert_eq!(shorten_source("/n/a.md", "entity"), "/n/a.md");
}

#[test]
fn loops_are_reported() {
    let loops = vec![
        Dangling {
            text: "x".repeat(111),
            section: None,
            first_seen: Some(s("2026-01-01")),
            age_days: Some(12),
            sightings: 2,
            note_path: s("/n"),
        },
        Dangling {
            text: s("short"),
            section: None,
            first_seen: None,
            age_days: None,
            sightings: 1,
            note_path: s("/m"),
        },
    ];
    assert_eq!(
        print_dangling(&loops),
        vec![
            format!("  12d  {}...", "x".repeat(107)),
            s("       2026-01-01  /n  (seen 2x)"),
            s("    ?  short"),
            s("         /m"),
            s(""),
            s("2 open loops"),
        ]
    );
    assert_eq!(print_dangling(&Vec::new()), vec!["no open loops found"]);
}

#[test]
fn a_pattern_has_to_single_out_a_loop() {
    let one = || OpenLoop { text: "y".repeat(95), note: s("/n") };
    assert_eq!(single_match("y", &vec![one()]), Ok(0));
    assert_eq!(
        single_match("y", &Vec::new()).unwrap_err(),
        vec!["no open loop matches 'y'"]
    );
    let many: Vec<OpenLoop> = (0..12).map(|_| one()).collect();
    let lines = single_match("y", &many).unwrap_err();
    assert_eq!(lines[0], "'y' matches 12 loops; be more specific:");
    assert_eq!(lines.len(), 11);
    assert_eq!(lines[1], format!("  - {}", "y".repeat(90)));
    assert_eq!(
        print_done("t", &vec![s("/a"), s("/b")]),
        vec!["done: t", "  updated /a", "  updated /b"]
    );
    assert_eq!(
        print_done("t", &Vec::new()),
        vec!["loop found in the index but not in the notes; run `raft index`"]
    );
}

#[test]
fn connections_are_reported() {
    let found = Connections {
        co_mentions: vec![CoMentionPair {
            a: s("alpha"),
            a_kind: s("entity"),
            b: s("raft"),
            b_kind: s("project"),
            shared_notes: 3,
            span_days: 60,
            notes_a: 4,
            notes_b: 3,
        }],
        temporal: vec![TemporalPair { a: s("one"), b: s("two"), shared_days: 5 }],
    };
    assert_eq!(
        print_connections(&found, &vec![s("0.87")]),
        vec![
            "keep showing up together:",
            "  0.87  alpha (entity) <-> raft (project)  [3 notes over 60 days]",
            "",
            "commits travel together:",
            "   5 days  one <-> two",
        ]
    );
    let none = Connections { co_mentions: Vec::new(), temporal: Vec::new() };
    assert_eq!(
        print_connections(&none, &Vec::new()),
        vec!["no connections above the threshold (try --min 2)"]
    );
}

#[test]
fn the_audit_shows_everything() {
    let plan = PublishPlan {
        notes: vec![PlanNote { path: s("/n"), note_date: Some(s("2026-01-01")), body: s("") }],
        projects: vec![PlanProject { name: s("raft"), git: s("{}") }],
        entities: vec![PlanEntity { name: s("zola"), meta: s("{}") }],
        loops: vec![PlanLoop {
            name: s("/n#loop-0"),
            note_path: s("/n"),
            text: s("ship"),
            section: None,
        }],
        edges: vec![PlanEdge {
            src_kind: s("note"),
            src_name: s("/n"),
            dst_kind: s("project"),
            dst_name: s("raft"),
            kind: s("mentions"),
            provenance: s("indexer"),
            weight: 1000,
            rationale: None,
        }],
        flags: vec![PlanFlag { note_path: s("/n"), target: s("t"), reason: s("why") }],
        dropped_edges: 1,
    };
    assert_eq!(
        print_audit(&plan),
        vec![
            "would publish: 1 notes, 1 projects, 1 entities, 1 loops, 1 edges",
            "",
            "notes:",
            "  2026-01-01  /n",
            "",
            "projects:",
            "  raft",
            "",
            "entities:",
            "  zola",
            "",
            "open loops:",
            "  ship  (/n)",
            "",
            "FLAGS - need a decision before emit:",
            "  why",
            "    in /n",
        ]
    );
}
