//! What may be published.

use raft::config::PublishConfig;
use raft::json::{json_field, json_text_field};
use raft::publish::{is_published, plan, PublishPlan};
use raft::store::{Edge, Index, Node, NoteRow};

struct Db {
    index: Index,
}

impl Db {
    fn new() -> Db {
        Db {
            index: Index { nodes: Vec::new(), notes: Vec::new(), edges: Vec::new() },
        }
    }

    fn node(&mut self, kind: &str, name: &str, path: Option<&str>, meta: &str) -> i64 {
        let id = self.index.nodes.len() as i64 + 1;
        self.index.nodes.push(Node {
            id,
            kind: kind.to_string(),
            name: name.to_string(),
            path: path.map(|p| p.to_string()),
            meta: meta.to_string(),
        });
        id
    }

    fn note(&mut self, path: &str, body: &str) -> i64 {
        let id = self.node("note", path, Some(path), "{}");
        self.index.notes.push(NoteRow {
            node_id: id,
            body: body.to_string(),
            note_date: Some("2026-07-01".to_string()),
            mtime: None,
        });
        id
    }

    fn project(&mut self, name: &str, meta: &str) -> i64 {
        self.node("project", name, Some(name), meta)
    }

    fn entity(&mut self, name: &str, meta: &str) -> i64 {
        self.node("entity", name, None, meta)
    }

    fn open_loop(&mut self, note_path: &str, ordinal: usize, text: &str) -> i64 {
        let name = format!("{note_path}#loop-{ordinal}");
        let meta = format!("{{\"text\":\"{text}\",\"section\":null}}");
        self.node("loop", &name, Some(note_path), &meta)
    }

    fn edge(&mut self, src: i64, dst: i64, kind: &str) {
        self.index.edges.push(Edge {
            src,
            dst,
            kind: kind.to_string(),
            provenance: "indexer".to_string(),
            weight: 1000,
            rationale: Some("test edge".to_string()),
        });
    }

    fn plan(&self, repos: &[&str]) -> PublishPlan {
        assert!(self.index.is_consistent());
        let cfg = PublishConfig {
            repos: repos.iter().map(|s| s.to_string()).collect(),
        };
        plan(&self.index, &cfg)
    }
}

/// Everything that the written manifest holds.
fn manifest(plan: &PublishPlan) -> String {
    let mut out = String::new();
    for n in &plan.notes {
        out += &format!("{} {:?}\n", n.path, n.note_date);
    }
    for p in &plan.projects {
        out += &format!("{} {}\n", p.name, p.git);
    }
    for e in &plan.entities {
        out += &format!("{} {}\n", e.name, e.meta);
    }
    for l in &plan.loops {
        out += &format!("{} {} {} {:?}\n", l.name, l.note_path, l.text, l.section);
    }
    for e in &plan.edges {
        out += &format!("{e:?}\n");
    }
    for f in &plan.flags {
        out += &format!("{f:?}\n");
    }
    out
}

const PUBLIC_BODY: &str = "---\npublish: true\n---\n# Hello\nprose\n";

#[test]
fn note_without_flag_is_private() {
    let mut db = Db::new();
    db.note("/n/private.md", "# No frontmatter\n");
    db.note("/n/public.md", PUBLIC_BODY);

    let plan = db.plan(&[]);

    assert_eq!(plan.notes.len(), 1);
    assert_eq!(plan.notes[0].path, "/n/public.md");
    assert_eq!(plan.notes[0].note_date.as_deref(), Some("2026-07-01"));
    assert_eq!(plan.notes[0].body, PUBLIC_BODY);
}

#[test]
fn publish_true_in_prose_does_not_publish() {
    let mut db = Db::new();
    db.note("/n/a.md", "# Note\npublish: true\n");
    assert!(db.plan(&[]).notes.is_empty());
}

#[test]
fn publish_false_and_other_frontmatter_stay_private() {
    let mut db = Db::new();
    db.note("/n/a.md", "---\npublish: false\n---\nbody\n");
    db.note("/n/b.md", "---\ntitle: x\n---\nbody\n");
    db.note("/n/c.md", "---\ntitle: x\npublish: true\n");
    assert!(db.plan(&[]).notes.is_empty());
}

#[test]
fn project_needs_explicit_allowlist() {
    let mut db = Db::new();
    db.project("raft", "{}");
    db.project("secret-repo", "{}");

    let plan = db.plan(&["raft"]);

    let names: Vec<&str> = plan.projects.iter().map(|p| p.name.as_str()).collect();
    assert_eq!(names, vec!["raft"]);
}

#[test]
fn project_git_fingerprint_is_stripped() {
    let mut db = Db::new();
    db.project(
        "raft",
        r#"{"branch":"main","commits":[],"fingerprint":"12345"}"#,
    );
    let plan = db.plan(&["raft"]);
    assert!(json_field(&plan.projects[0].git, "fingerprint").is_none());
    assert_eq!(
        json_text_field(&plan.projects[0].git, "branch").as_deref(),
        Some("main")
    );
}

#[test]
fn edge_to_private_endpoint_is_dropped_without_trace() {
    let mut db = Db::new();
    let pub_note = db.note("/n/public.md", PUBLIC_BODY);
    let priv_note = db.note("/n/private.md", "# Private\n");
    let pub_proj = db.project("raft", "{}");
    let priv_proj = db.project("secret", "{}");
    db.edge(pub_note, pub_proj, "mentions");
    db.edge(pub_note, priv_proj, "mentions");
    db.edge(priv_note, pub_proj, "mentions");

    let plan = db.plan(&["raft"]);

    assert_eq!(plan.edges.len(), 1);
    assert_eq!(plan.edges[0].src_name, "/n/public.md");
    assert_eq!(plan.edges[0].dst_name, "raft");
    let text = manifest(&plan);
    assert!(!text.contains("private.md"));
    assert!(!text.contains("secret"));
}

#[test]
fn loop_follows_containing_note() {
    let mut db = Db::new();
    let pub_note = db.note("/n/public.md", PUBLIC_BODY);
    db.note("/n/private.md", "# Private\n- [ ] secret task\n");
    let pub_loop = db.open_loop("/n/public.md", 0, "ship the garden");
    db.open_loop("/n/private.md", 0, "secret task");
    db.edge(pub_note, pub_loop, "contains");

    let plan = db.plan(&[]);

    assert_eq!(plan.loops.len(), 1);
    assert_eq!(plan.loops[0].text, "ship the garden");
    assert_eq!(plan.loops[0].name, "/n/public.md#loop-0");
    assert!(!manifest(&plan).contains("secret task"));
}

#[test]
fn entity_included_only_when_public_content_references_it() {
    let mut db = Db::new();
    let pub_note = db.note("/n/public.md", PUBLIC_BODY);
    let priv_note = db.note("/n/private.md", "# Private\n");
    let seen = db.entity("zola", r#"{"display":"zola"}"#);
    let unseen = db.entity("visa-officer", r#"{"display":"visa-officer"}"#);
    db.edge(pub_note, seen, "mentions");
    db.edge(priv_note, unseen, "mentions");

    let plan = db.plan(&[]);

    let names: Vec<&str> = plan.entities.iter().map(|e| e.name.as_str()).collect();
    assert_eq!(names, vec!["zola"]);
    assert!(!manifest(&plan).contains("visa-officer"));
}

#[test]
fn symbol_entity_requires_allowlisted_repo() {
    let mut db = Db::new();
    let pub_note = db.note("/n/public.md", PUBLIC_BODY);
    let sym = db.entity(
        "SecretJob",
        r#"{"file":"app/jobs/secret_job.rb","repo":"work-repo","lang":"ruby"}"#,
    );
    db.edge(pub_note, sym, "mentions");

    let denied = db.plan(&[]);
    assert!(denied.entities.is_empty());
    assert!(!manifest(&denied).contains("secret_job"));

    db.project("work-repo", "{}");
    let allowed = db.plan(&["work-repo"]);
    assert_eq!(allowed.entities.len(), 1);
}

#[test]
fn wiki_link_to_private_target_is_flagged() {
    let mut db = Db::new();
    let body = "---\npublish: true\n---\nsee [[Visa Plan]] and [[raft]]\n";
    db.note("/n/public.md", body);
    db.project("raft", "{}");

    let plan = db.plan(&["raft"]);

    assert_eq!(plan.flags.len(), 1);
    assert_eq!(plan.flags[0].target, "Visa Plan");
}

#[test]
fn entity_mirroring_private_note_title_still_flags() {
    let mut db = Db::new();
    let body = "---\npublish: true\n---\nsee [[secret plan]]\n";
    let note = db.note("/n/public.md", body);
    db.note("/n/secret-plan.md", "# secret plan\nprivate\n");
    let entity = db.entity("secret plan", r#"{"display":"secret plan"}"#);
    db.edge(note, entity, "wikilink");

    let plan = db.plan(&[]);

    assert_eq!(plan.entities.len(), 1);
    assert_eq!(plan.flags.len(), 1);
    assert_eq!(plan.flags[0].target, "secret plan");
}

#[test]
fn dropped_edges_counts_half_public_only() {
    let mut db = Db::new();
    let pub_note = db.note("/n/public.md", PUBLIC_BODY);
    let priv_a = db.note("/n/priv-a.md", "# A\n");
    let priv_b = db.note("/n/priv-b.md", "# B\n");
    let pub_proj = db.project("raft", "{}");
    let priv_proj = db.project("secret", "{}");
    db.edge(pub_note, pub_proj, "mentions");
    db.edge(pub_note, priv_proj, "mentions");
    db.edge(priv_a, pub_proj, "mentions");
    db.edge(priv_a, priv_b, "mentions");

    let plan = db.plan(&["raft"]);

    assert_eq!(plan.edges.len(), 1);
    assert_eq!(plan.dropped_edges, 2);
}

#[test]
fn dropped_edges_never_serialized() {
    let mut db = Db::new();
    let pub_note = db.note("/n/public.md", PUBLIC_BODY);
    let priv_proj = db.project("secret", "{}");
    db.edge(pub_note, priv_proj, "mentions");

    let plan = db.plan(&[]);

    assert_eq!(plan.dropped_edges, 1);
    let text = manifest(&plan);
    assert!(!text.contains("dropped"));
    assert!(!text.contains("secret"));
}

#[test]
fn plan_is_deterministic() {
    let mut db = Db::new();
    let n1 = db.note("/n/b.md", PUBLIC_BODY);
    let n2 = db.note("/n/a.md", PUBLIC_BODY);
    let p = db.project("raft", "{}");
    db.edge(n1, p, "mentions");
    db.edge(n2, p, "mentions");

    let a = db.plan(&["raft"]);
    let b = db.plan(&["raft"]);
    assert_eq!(manifest(&a), manifest(&b));
    let paths: Vec<&str> = a.notes.iter().map(|n| n.path.as_str()).collect();
    assert_eq!(paths, vec!["/n/a.md", "/n/b.md"]);
}

#[test]
fn no_name_comes_twice_in_the_manifest() {
    let mut db = Db::new();
    db.project("b", "{}");
    db.note("/n/b.md", PUBLIC_BODY);
    db.entity("b", "{}");
    db.project("a", "{}");
    db.note("/n/a.md", PUBLIC_BODY);
    db.open_loop("/n/a.md", 1, "second");
    db.open_loop("/n/a.md", 0, "first");
    let plan = db.plan(&["a", "b"]);
    let notes: Vec<&str> = plan.notes.iter().map(|n| n.path.as_str()).collect();
    let projects: Vec<&str> = plan.projects.iter().map(|p| p.name.as_str()).collect();
    let loops: Vec<&str> = plan.loops.iter().map(|l| l.name.as_str()).collect();
    assert_eq!(notes, vec!["/n/a.md", "/n/b.md"]);
    assert_eq!(projects, vec!["a", "b"]);
    assert_eq!(loops, vec!["/n/a.md#loop-0", "/n/a.md#loop-1"]);
}

#[test]
fn edges_sort_lexicographically_regardless_of_insertion_order() {
    let mut db = Db::new();
    let note = db.note("/n/public.md", PUBLIC_BODY);
    let p_z = db.project("zola", "{}");
    let p_a = db.project("argo", "{}");
    let p_m = db.project("mid", "{}");
    db.edge(note, p_z, "mentions");
    db.edge(note, p_a, "mentions");
    db.edge(note, p_m, "mentions");

    let plan = db.plan(&["zola", "argo", "mid"]);

    let dsts: Vec<&str> = plan.edges.iter().map(|e| e.dst_name.as_str()).collect();
    assert_eq!(dsts, vec!["argo", "mid", "zola"]);
}

#[test]
fn publishing_one_note_changes_only_that_node_and_its_edges() {
    let mut db = Db::new();
    let n1 = db.note("/n/a.md", PUBLIC_BODY);
    let n2 = db.note("/n/b.md", "# Private\n");
    let p = db.project("raft", "{}");
    db.edge(n1, p, "mentions");
    db.edge(n2, p, "mentions");

    let before = db.plan(&["raft"]);
    assert_eq!(before.notes.len(), 1);
    assert_eq!(before.edges.len(), 1);

    db.index.notes[1].body = PUBLIC_BODY.to_string();

    let after = db.plan(&["raft"]);
    assert_eq!(after.notes.len(), 2);
    assert_eq!(after.edges.len(), 2);
    assert!(after.notes.iter().any(|n| n.path == "/n/a.md"));
    assert!(after
        .edges
        .iter()
        .any(|e| e.src_name == "/n/a.md" && e.dst_name == "raft"));
}

#[test]
fn is_published_parses_frontmatter_only() {
    assert!(is_published("---\npublish: true\n---\nbody\n"));
    assert!(is_published("---\ntitle: x\npublish: true\n---\n"));
    assert!(!is_published("publish: true\n"));
    assert!(!is_published("---\npublish: false\n---\n"));
    assert!(!is_published("---\npublish: yes\n---\n"));
    assert!(!is_published("body\n---\npublish: true\n---\n"));
    assert!(!is_published(""));
}

#[test]
fn a_private_edit_leaves_the_manifest_alone() {
    let mut db = Db::new();
    let shown = db.note("/n/public.md", PUBLIC_BODY);
    let hidden = db.note("/n/private.md", "# Private\n");
    let p = db.project("raft", "{}");
    db.edge(shown, p, "mentions");
    let before = manifest(&db.plan(&["raft"]));
    db.index.notes[1].body = "entirely [[different]]\n".to_string();
    db.edge(hidden, p, "mentions");
    assert_eq!(manifest(&db.plan(&["raft"])), before);
}

#[test]
fn the_last_publish_line_counts() {
    assert!(!is_published("---\npublish: true\npublish: false\n---\n"));
    assert!(is_published("---\npublish: false\npublish: true\n---\n"));
}

#[test]
fn the_stamp_of_the_git_cache_is_not_published() {
    let mut db = Db::new();
    db.project("raft", r#"{"branch":"main","commits":[],"git_fingerprint":"12345"}"#);
    let plan = db.plan(&["raft"]);
    assert_eq!(plan.projects.len(), 1);
    let git: serde_json::Value = serde_json::from_str(&plan.projects[0].git).unwrap();
    let want: serde_json::Value = serde_json::from_str(r#"{"branch":"main","commits":[]}"#).unwrap();
    assert_eq!(git, want);
}

#[test]
fn only_public_notes_and_projects_bring_entities_along() {
    let mut db = Db::new();
    let note = db.note("/n/public.md", PUBLIC_BODY);
    let item = db.open_loop("/n/public.md", 0, "do it");
    let project = db.project("raft", "{}");
    let of_loop = db.entity("of-loop", "{}");
    let leading = db.entity("leading", "{}");
    let of_project = db.entity("of-project", "{}");
    db.edge(note, item, "contains");
    db.edge(item, of_loop, "mentions");
    db.edge(leading, note, "mentions");
    db.edge(project, of_project, "defines");
    let plan = db.plan(&["raft"]);
    let names: Vec<&str> = plan.entities.iter().map(|e| e.name.as_str()).collect();
    assert_eq!(names, vec!["of-project"]);
    assert_eq!(plan.dropped_edges, 2);
}

#[test]
fn private_nodes_leave_no_trace() {
    let fill = |private: bool| {
        let mut db = Db::new();
        if private {
            db.note("/n/a.md", "# Private\n");
            db.project("secret", "{}");
        }
        let shown = db.note("/n/public.md", PUBLIC_BODY);
        let project = db.project("raft", "{}");
        let entity = db.entity("widget", "{}");
        db.edge(shown, project, "mentions");
        db.edge(shown, entity, "mentions");
        if private {
            db.edge(1, entity, "mentions");
            db.edge(shown, 2, "mentions");
            db.edge(1, 2, "mentions");
        }
        manifest(&db.plan(&["raft"]))
    };
    assert_eq!(fill(true), fill(false));
}
