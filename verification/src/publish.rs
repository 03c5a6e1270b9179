//! The publish kernel: compute exactly what would go public, before anything renders.
//!
//! - Notes are opt-in per node: only a note whose frontmatter says `publish: true` is public.
//! - Projects require an explicit allowlist.
//! - Loops follow their containing note.
//! - Entities appear only when a public note or a public project links to them. Symbol entities,
//!   which name a repo, also require that repo on the allowlist.
//! - Edges appear only when both endpoints are public. Private neighbours leave no trace.

use vstd::prelude::*;

use crate::config::PublishConfig;
use crate::evidence::distinct_nodes;
use crate::extract::{
    canonical, canonical_set, canonicalize, canonicals, closes_frontmatter, extract, extraction_of,
    lemma_with_name, NameSet,
};
use crate::json::{
    field, json_of, json_shape, json_text_field, json_without, text_field, without_field, JsonShape,
    ShapeModel,
};
use crate::lint::{closing_line, closing_line_of, key_and_value, line_key, line_value};
use crate::order::{
    before, is_order, key_le, keys_ok, order_of, ordered, places, stable_order, text_le, KeyModel,
    KeyPart, PartModel, SortKey,
};
use crate::select::{arrange, lemma_ordered, lemma_picked, pick, picked};
use crate::store::{
    copy_text, find_node, find_note, has_node, has_note, index_ok, lemma_node_place,
    lemma_note_place, node_by_id, node_place, note_by_id, note_place, notes_sorted, EdgeModel, Index,
    IndexModel, Node, NodeModel, NoteModel,
};
use crate::text::{cat3, chars_of, lines, lines_of, same_text, text_of, trim_end_of, CharClass};

verus! {

/// A note that would be published.
#[derive(Debug)]
pub struct PlanNote {
    /// Full path, the note's node name in the index.
    pub path: String,
    pub note_date: Option<String>,
    /// Body text, for the emitter; not part of the written manifest.
    pub body: String,
}

/// A project that would be published.
#[derive(Debug)]
pub struct PlanProject {
    pub name: String,
    /// Git metadata as a JSON text (branch, recent commits).
    pub git: String,
}

/// An entity that would appear because public content references it.
#[derive(Debug)]
pub struct PlanEntity {
    pub name: String,
    /// Display spelling or symbol definition, as a JSON text.
    pub meta: String,
}

/// An open loop carried along with its published note.
#[derive(Debug)]
pub struct PlanLoop {
    /// Loop identity, `<note path>#loop-<ordinal>`.
    pub name: String,
    pub note_path: String,
    pub text: String,
    pub section: Option<String>,
}

/// An edge where both endpoints are public. The weight is in thousandths.
#[derive(Debug)]
pub struct PlanEdge {
    pub src_kind: String,
    pub src_name: String,
    pub dst_kind: String,
    pub dst_name: String,
    pub kind: String,
    pub provenance: String,
    pub weight: i128,
    pub rationale: Option<String>,
}

/// Something the audit wants a human to look at before publishing.
#[derive(Debug)]
pub struct PlanFlag {
    pub note_path: String,
    /// The wiki-link target as written in the public note's prose.
    pub target: String,
    pub reason: String,
}

/// The complete manifest of what would be made public.
#[derive(Debug)]
pub struct PublishPlan {
    pub notes: Vec<PlanNote>,
    pub projects: Vec<PlanProject>,
    pub entities: Vec<PlanEntity>,
    pub loops: Vec<PlanLoop>,
    pub edges: Vec<PlanEdge>,
    /// Wiki links in published prose whose targets are not public projects. The link text itself
    /// would still be visible, so these need a human decision.
    pub flags: Vec<PlanFlag>,
    /// Edges held back because exactly one endpoint is public. For the owner's eyes only, not part
    /// of the written manifest.
    pub dropped_edges: usize,
}

/// The value of a `PlanNote`.
pub struct PlanNoteModel {
    pub path: Seq<char>,
    pub note_date: Option<Seq<char>>,
    pub body: Seq<char>,
}

/// The value of a `PlanProject`.
pub struct PlanProjectModel {
    pub name: Seq<char>,
    pub git: Seq<char>,
}

/// The value of a `PlanEntity`.
pub struct PlanEntityModel {
    pub name: Seq<char>,
    pub meta: Seq<char>,
}

/// The value of a `PlanLoop`.
pub struct PlanLoopModel {
    pub name: Seq<char>,
    pub note_path: Seq<char>,
    pub text: Seq<char>,
    pub section: Option<Seq<char>>,
}

/// The value of a `PlanEdge`.
pub struct PlanEdgeModel {
    pub src_kind: Seq<char>,
    pub src_name: Seq<char>,
    pub dst_kind: Seq<char>,
    pub dst_name: Seq<char>,
    pub kind: Seq<char>,
    pub provenance: Seq<char>,
    pub weight: int,
    pub rationale: Option<Seq<char>>,
}

/// The value of a `PlanFlag`.
pub struct PlanFlagModel {
    pub note_path: Seq<char>,
    pub target: Seq<char>,
    pub reason: Seq<char>,
}

/// The value of a `PublishPlan`.
#[verifier::ext_equal]
pub struct PlanModel {
    pub notes: Seq<PlanNoteModel>,
    pub projects: Seq<PlanProjectModel>,
    pub entities: Seq<PlanEntityModel>,
    pub loops: Seq<PlanLoopModel>,
    pub edges: Seq<PlanEdgeModel>,
    pub flags: Seq<PlanFlagModel>,
    pub dropped_edges: int,
}

impl DeepView for PlanNote {
    type V = PlanNoteModel;

    open spec fn deep_view(&self) -> PlanNoteModel {
        PlanNoteModel {
            path: self.path@,
            note_date: self.note_date.deep_view(),
            body: self.body@,
        }
    }
}

impl DeepView for PlanProject {
    type V = PlanProjectModel;

    open spec fn deep_view(&self) -> PlanProjectModel {
        PlanProjectModel { name: self.name@, git: self.git@ }
    }
}

impl DeepView for PlanEntity {
    type V = PlanEntityModel;

    open spec fn deep_view(&self) -> PlanEntityModel {
        PlanEntityModel { name: self.name@, meta: self.meta@ }
    }
}

impl DeepView for PlanLoop {
    type V = PlanLoopModel;

    open spec fn deep_view(&self) -> PlanLoopModel {
        PlanLoopModel {
            name: self.name@,
            note_path: self.note_path@,
            text: self.text@,
            section: self.section.deep_view(),
        }
    }
}

impl DeepView for PlanEdge {
    type V = PlanEdgeModel;

    open spec fn deep_view(&self) -> PlanEdgeModel {
        PlanEdgeModel {
            src_kind: self.src_kind@,
            src_name: self.src_name@,
            dst_kind: self.dst_kind@,
            dst_name: self.dst_name@,
            kind: self.kind@,
            provenance: self.provenance@,
            weight: self.weight as int,
            rationale: self.rationale.deep_view(),
        }
    }
}

impl DeepView for PlanFlag {
    type V = PlanFlagModel;

    open spec fn deep_view(&self) -> PlanFlagModel {
        PlanFlagModel {
            note_path: self.note_path@,
            target: self.target@,
            reason: self.reason@,
        }
    }
}

impl DeepView for PublishPlan {
    type V = PlanModel;

    open spec fn deep_view(&self) -> PlanModel {
        PlanModel {
            notes: self.notes.deep_view(),
            projects: self.projects.deep_view(),
            entities: self.entities.deep_view(),
            loops: self.loops.deep_view(),
            edges: self.edges.deep_view(),
            flags: self.flags.deep_view(),
            dropped_edges: self.dropped_edges as int,
        }
    }
}

/// Whether the last `publish` line among lines 1 up to `n` says `true`.
pub open spec fn publish_flag(lines: Seq<Seq<char>>, n: int) -> bool
    decreases n,
{
    if n <= 1 {
        false
    } else if line_key(lines[n - 1]) == "publish"@ {
        line_value(lines[n - 1]) == "true"@
    } else {
        publish_flag(lines, n - 1)
    }
}

/// Whether a note opts into publishing: it starts with a closed frontmatter block whose last
/// `publish` line says `true`.
pub open spec fn published(body: Seq<char>) -> bool {
    let all = lines(body);
    &&& all.len() > 0
    &&& closes_frontmatter(all[0])
    &&& closing_line(all, 1) matches Some(end) && publish_flag(all, end)
}

/// Whether the note body opts into publishing: a leading `---` frontmatter block containing a
/// `publish: true` line. Only the frontmatter counts; the phrase appearing in prose does nothing.
pub fn is_published(body: &str) -> (r: bool)
    ensures
        r == published(body@),
{
    let all_lines = lines_of(body);
    let ghost all = all_lines.deep_view();
    if all_lines.len() == 0 {
        return false;
    }
    assert(all[0] == all_lines@[0]@);
    let first = text_of(&trim_end_of(&chars_of(&all_lines[0]), CharClass::White));
    if !same_text(&first, "---") {
        return false;
    }
    match closing_line_of(&all_lines) {
        None => false,
        Some(end) => {
            let mut flag = false;
            let mut i: usize = 1;
            while i < end
                invariant
                    1 <= i <= end < all.len(),
                    all == all_lines.deep_view(),
                    flag == publish_flag(all, i as int),
                decreases end - i,
            {
                assert(all[i as int] == all_lines@[i as int]@);
                let (key, value) = key_and_value(&all_lines[i]);
                if same_text(&key, "publish") {
                    flag = same_text(&value, "true");
                }
                i += 1;
            }
            flag
        },
    }
}

/// Whether a project name is on the allowlist, compared canonically.
pub open spec fn allowlisted(repos: Seq<Seq<char>>, name: Seq<char>) -> bool {
    canonicals(repos).contains(canonical(name))
}

/// Whether node `i` is a note that opts in.
pub open spec fn public_note(m: IndexModel, i: int) -> bool {
    &&& m.nodes[i].kind == "note"@
    &&& has_note(m.notes, m.nodes[i].id)
    &&& published(note_by_id(m.notes, m.nodes[i].id).body)
}

/// Whether node `i` is a project on the allowlist.
pub open spec fn public_project(m: IndexModel, repos: Seq<Seq<char>>, i: int) -> bool {
    m.nodes[i].kind == "project"@ && allowlisted(repos, m.nodes[i].name)
}

/// Whether a public note has the path `path`.
pub open spec fn public_path(m: IndexModel, path: Seq<char>) -> bool {
    exists|j: int| 0 <= j < m.nodes.len() && #[trigger] public_note(m, j) && m.nodes[j].name == path
}

/// Whether node `i` is a loop of a public note.
pub open spec fn public_loop(m: IndexModel, i: int) -> bool {
    &&& m.nodes[i].kind == "loop"@
    &&& m.nodes[i].path matches Some(path) && public_path(m, path)
}

/// Whether node `i` is public by its own right: a note, a project or a loop.
pub open spec fn public_seed(m: IndexModel, repos: Seq<Seq<char>>, i: int) -> bool {
    public_note(m, i) || public_project(m, repos, i) || public_loop(m, i)
}

/// Whether an edge leads from a public note or a public project to node `i`.
pub open spec fn refers_to(m: IndexModel, repos: Seq<Seq<char>>, edge: EdgeModel, i: int) -> bool {
    let from = node_place(m.nodes, edge.src);
    edge.dst == m.nodes[i].id && (public_note(m, from) || public_project(m, repos, from))
}

/// Whether one of the first `n` edges leads from a public note or a public project to node `i`.
pub open spec fn referenced(m: IndexModel, repos: Seq<Seq<char>>, i: int, n: int) -> bool {
    exists|e: int| 0 <= e < n && #[trigger] refers_to(m, repos, m.edges[e], i)
}

/// Whether node `i` is an entity that public content references, and whose repo, where it names
/// one, is on the allowlist.
pub open spec fn public_entity(m: IndexModel, repos: Seq<Seq<char>>, i: int) -> bool {
    &&& m.nodes[i].kind == "entity"@
    &&& referenced(m, repos, i, m.edges.len() as int)
    &&& text_field(m.nodes[i].meta, "repo"@) matches Some(repo) ==> allowlisted(repos, repo)
}

/// Whether node `i` is public.
pub open spec fn public_node(m: IndexModel, repos: Seq<Seq<char>>, i: int) -> bool {
    public_seed(m, repos, i) || public_entity(m, repos, i)
}

/// Whether node `id` is public.
pub open spec fn public_id(m: IndexModel, repos: Seq<Seq<char>>, id: int) -> bool {
    public_node(m, repos, node_place(m.nodes, id))
}

/// Which nodes are public notes.
pub open spec fn note_flags(m: IndexModel) -> Seq<bool> {
    Seq::new(m.nodes.len(), |i: int| public_note(m, i))
}

/// Which nodes are public projects.
pub open spec fn project_flags(m: IndexModel, repos: Seq<Seq<char>>) -> Seq<bool> {
    Seq::new(m.nodes.len(), |i: int| public_project(m, repos, i))
}

/// Which nodes are public loops.
pub open spec fn loop_flags(m: IndexModel) -> Seq<bool> {
    Seq::new(m.nodes.len(), |i: int| public_loop(m, i))
}

/// Which nodes are public entities.
pub open spec fn entity_flags(m: IndexModel, repos: Seq<Seq<char>>) -> Seq<bool> {
    Seq::new(m.nodes.len(), |i: int| public_entity(m, repos, i))
}

/// Which edges have two public endpoints.
pub open spec fn edge_flags(m: IndexModel, repos: Seq<Seq<char>>) -> Seq<bool> {
    Seq::new(
        m.edges.len(),
        |e: int| public_id(m, repos, m.edges[e].src) && public_id(m, repos, m.edges[e].dst),
    )
}

/// Which edges have exactly one public endpoint.
pub open spec fn half_flags(m: IndexModel, repos: Seq<Seq<char>>) -> Seq<bool> {
    Seq::new(
        m.edges.len(),
        |e: int| public_id(m, repos, m.edges[e].src) != public_id(m, repos, m.edges[e].dst),
    )
}

/// The names of the given nodes, as sort keys.
pub open spec fn name_keys(nodes: Seq<NodeModel>, picks: Seq<int>) -> Seq<KeyModel> {
    Seq::new(picks.len(), |k: int| seq![PartModel::Text(nodes[picks[k]].name)])
}

/// The flagged nodes in the order of their names.
pub open spec fn by_name(nodes: Seq<NodeModel>, flags: Seq<bool>) -> Seq<int> {
    ordered(picked(flags), name_keys(nodes, picked(flags)))
}

/// The manifest entry of a note.
pub open spec fn note_item(m: IndexModel, i: int) -> PlanNoteModel {
    let row = note_by_id(m.notes, m.nodes[i].id);
    PlanNoteModel { path: m.nodes[i].name, note_date: row.note_date, body: row.body }
}

/// What is published of a project's metadata: all of it but the stamp of the git cache, or `null`
/// where it is not JSON. The stamp is stored as `git_fingerprint`; a plain `fingerprint` goes too.
pub open spec fn published_git(meta: Seq<char>) -> Seq<char> {
    match json_of(meta) {
        ShapeModel::Invalid => "null"@,
        ShapeModel::Fields(_) => without_field(
            without_field(meta, "fingerprint"@),
            "git_fingerprint"@,
        ),
        _ => meta,
    }
}

/// The manifest entry of a project.
pub open spec fn project_item(m: IndexModel, i: int) -> PlanProjectModel {
    PlanProjectModel { name: m.nodes[i].name, git: published_git(m.nodes[i].meta) }
}

/// The manifest entry of a loop.
pub open spec fn loop_item(m: IndexModel, i: int) -> PlanLoopModel {
    PlanLoopModel {
        name: m.nodes[i].name,
        note_path: m.nodes[i].path->0,
        text: match text_field(m.nodes[i].meta, "text"@) {
            Some(text) => text,
            None => ""@,
        },
        section: text_field(m.nodes[i].meta, "section"@),
    }
}

/// The metadata of an entity, or `null` where it is not JSON.
pub open spec fn published_meta(meta: Seq<char>) -> Seq<char> {
    if json_of(meta) is Invalid {
        "null"@
    } else {
        meta
    }
}

/// The manifest entry of an entity.
pub open spec fn entity_item(m: IndexModel, i: int) -> PlanEntityModel {
    PlanEntityModel { name: m.nodes[i].name, meta: published_meta(m.nodes[i].meta) }
}

/// The manifest entry of an edge.
pub open spec fn edge_item(m: IndexModel, e: int) -> PlanEdgeModel {
    let edge = m.edges[e];
    let src = node_by_id(m.nodes, edge.src);
    let dst = node_by_id(m.nodes, edge.dst);
    PlanEdgeModel {
        src_kind: src.kind,
        src_name: src.name,
        dst_kind: dst.kind,
        dst_name: dst.name,
        kind: edge.kind,
        provenance: edge.provenance,
        weight: edge.weight,
        rationale: edge.rationale,
    }
}

/// What edges are sorted by: the kinds and names of their ends and their kind, then their row.
pub open spec fn edge_key(m: IndexModel, e: int) -> KeyModel {
    let item = edge_item(m, e);
    seq![
        PartModel::Text(item.src_kind),
        PartModel::Text(item.src_name),
        PartModel::Text(item.dst_kind),
        PartModel::Text(item.dst_name),
        PartModel::Text(item.kind),
        PartModel::Num(m.edges[e].src),
        PartModel::Num(m.edges[e].dst),
        PartModel::Text(item.provenance),
    ]
}

/// The sort keys of the given edges.
pub open spec fn edge_keys(m: IndexModel, picks: Seq<int>) -> Seq<KeyModel> {
    Seq::new(picks.len(), |k: int| edge_key(m, picks[k]))
}

/// The public notes of the manifest.
pub open spec fn plan_notes(m: IndexModel) -> Seq<PlanNoteModel> {
    let order = by_name(m.nodes, note_flags(m));
    Seq::new(order.len(), |k: int| note_item(m, order[k]))
}

/// The public projects of the manifest.
pub open spec fn plan_projects(m: IndexModel, repos: Seq<Seq<char>>) -> Seq<PlanProjectModel> {
    let order = by_name(m.nodes, project_flags(m, repos));
    Seq::new(order.len(), |k: int| project_item(m, order[k]))
}

/// The public loops of the manifest.
pub open spec fn plan_loops(m: IndexModel) -> Seq<PlanLoopModel> {
    let order = by_name(m.nodes, loop_flags(m));
    Seq::new(order.len(), |k: int| loop_item(m, order[k]))
}

/// The public entities of the manifest.
pub open spec fn plan_entities(m: IndexModel, repos: Seq<Seq<char>>) -> Seq<PlanEntityModel> {
    let order = by_name(m.nodes, entity_flags(m, repos));
    Seq::new(order.len(), |k: int| entity_item(m, order[k]))
}

/// The public edges in their order.
pub open spec fn edge_order(m: IndexModel, repos: Seq<Seq<char>>) -> Seq<int> {
    ordered(picked(edge_flags(m, repos)), edge_keys(m, picked(edge_flags(m, repos))))
}

/// The public edges of the manifest.
pub open spec fn plan_edges(m: IndexModel, repos: Seq<Seq<char>>) -> Seq<PlanEdgeModel> {
    let order = edge_order(m, repos);
    Seq::new(order.len(), |k: int| edge_item(m, order[k]))
}

/// The canonical names of the public projects.
pub open spec fn project_names(projects: Seq<PlanProjectModel>) -> Seq<Seq<char>> {
    Seq::new(projects.len(), |i: int| canonical(projects[i].name))
}

/// The flag for a link to a target that is not a public project.
pub open spec fn flag_item(path: Seq<char>, target: Seq<char>) -> PlanFlagModel {
    PlanFlagModel {
        note_path: path,
        target,
        reason: "published prose links [["@ + target
            + "]], whose target is not a public project; the name itself will be visible"@,
    }
}

/// The flags for the first `n` link targets of a note.
pub open spec fn flags_of_links(
    path: Seq<char>,
    targets: Seq<Seq<char>>,
    names: Seq<Seq<char>>,
    n: int,
) -> Seq<PlanFlagModel>
    decreases n,
{
    if n <= 0 {
        Seq::empty()
    } else {
        let before = flags_of_links(path, targets, names, n - 1);
        if names.contains(canonical(targets[n - 1])) {
            before
        } else {
            before.push(flag_item(path, targets[n - 1]))
        }
    }
}

/// The wiki-link targets in a note's prose.
pub open spec fn prose_links(body: Seq<char>) -> Seq<Seq<char>> {
    extraction_of(body, Seq::empty()).wiki_links
}

/// The flags for the links of the first `n` public notes.
pub open spec fn flags_upto(
    notes: Seq<PlanNoteModel>,
    names: Seq<Seq<char>>,
    n: int,
) -> Seq<PlanFlagModel>
    decreases n,
{
    if n <= 0 {
        Seq::empty()
    } else {
        let targets = prose_links(notes[n - 1].body);
        flags_upto(notes, names, n - 1) + flags_of_links(
            notes[n - 1].path,
            targets,
            names,
            targets.len() as int,
        )
    }
}

/// What flags are sorted by: the note, then the target.
pub open spec fn flag_keys(flags: Seq<PlanFlagModel>) -> Seq<KeyModel> {
    Seq::new(
        flags.len(),
        |k: int| seq![PartModel::Text(flags[k].note_path), PartModel::Text(flags[k].target)],
    )
}

/// The flags of the manifest.
pub open spec fn plan_flags(
    notes: Seq<PlanNoteModel>,
    projects: Seq<PlanProjectModel>,
) -> Seq<PlanFlagModel> {
    let flags = flags_upto(notes, project_names(projects), notes.len() as int);
    ordered(flags, flag_keys(flags))
}

fn note_flags_of(index: &Index) -> (r: Vec<bool>)
    requires
        index_ok(index.deep_view()),
    ensures
        r@ == note_flags(index.deep_view()),
{
    let ghost m = index.deep_view();
    let mut out: Vec<bool> = Vec::new();
    let mut i: usize = 0;
    while i < index.nodes.len()
        invariant
            m == index.deep_view(),
            index_ok(m),
            i <= m.nodes.len(),
            out@ == note_flags(m).take(i as int),
        decreases m.nodes.len() - i,
    {
        let node = &index.nodes[i];
        assert(m.nodes[i as int] == node.deep_view());
        let mut public = false;
        if same_text(&node.kind, "note") {
            if let Some(k) = find_note(&index.notes, node.id) {
                assert(m.notes[k as int] == index.notes@[k as int].deep_view());
                public = is_published(&index.notes[k].body);
            }
        }
        assert(public == public_note(m, i as int));
        out.push(public);
        assert(note_flags(m).take(i + 1) =~= note_flags(m).take(i as int).push(public));
        i += 1;
    }
    assert(note_flags(m).take(m.nodes.len() as int) =~= note_flags(m));
    out
}

fn project_flags_of(index: &Index, allowed: &NameSet, Ghost(repos): Ghost<Seq<Seq<char>>>) -> (r: Vec<bool>)
    requires
        forall|t: Seq<char>| #[trigger] allowed@.contains(t) <==> canonicals(repos).contains(t),
    ensures
        r@ == project_flags(index.deep_view(), repos),
{
    let ghost m = index.deep_view();
    let mut out: Vec<bool> = Vec::new();
    let mut i: usize = 0;
    while i < index.nodes.len()
        invariant
            m == index.deep_view(),
            forall|t: Seq<char>| #[trigger] allowed@.contains(t) <==> canonicals(repos).contains(t),
            i <= m.nodes.len(),
            out@ == project_flags(m, repos).take(i as int),
        decreases m.nodes.len() - i,
    {
        let node = &index.nodes[i];
        assert(m.nodes[i as int] == node.deep_view());
        let public = same_text(&node.kind, "project") && allowed.contains(&canonicalize(&node.name));
        assert(public == public_project(m, repos, i as int));
        out.push(public);
        assert(project_flags(m, repos).take(i + 1) =~= project_flags(m, repos).take(i as int).push(
            public,
        ));
        i += 1;
    }
    assert(project_flags(m, repos).take(m.nodes.len() as int) =~= project_flags(m, repos));
    out
}

/// The paths of the public notes.
fn public_paths(index: &Index, notes: &Vec<bool>) -> (r: NameSet)
    requires
        notes@ == note_flags(index.deep_view()),
    ensures
        forall|t: Seq<char>| #[trigger] r@.contains(t) <==> public_path(index.deep_view(), t),
{
    let ghost m = index.deep_view();
    let mut out = NameSet::new();
    let mut i: usize = 0;
    while i < index.nodes.len()
        invariant
            m == index.deep_view(),
            notes@ == note_flags(m),
            i <= m.nodes.len(),
            forall|t: Seq<char>| #[trigger]
                out@.contains(t) <==> (exists|j: int|
                    0 <= j < i && #[trigger] public_note(m, j) && m.nodes[j].name == t),
        decreases m.nodes.len() - i,
    {
        let ghost before = out@;
        assert(m.nodes[i as int] == index.nodes@[i as int].deep_view());
        if notes[i] {
            let ghost name = m.nodes[i as int].name;
            out = out.with(&index.nodes[i].name);
            proof {
                lemma_with_name(before, name);
                assert(public_note(m, i as int));
            }
        }
        proof {
            assert forall|t: Seq<char>| #[trigger]
                out@.contains(t) <==> (exists|j: int|
                    0 <= j < i + 1 && #[trigger] public_note(m, j) && m.nodes[j].name == t) by {
                if exists|j: int| 0 <= j < i + 1 && #[trigger] public_note(m, j) && m.nodes[j].name == t {
                    let j = choose|j: int|
                        0 <= j < i + 1 && #[trigger] public_note(m, j) && m.nodes[j].name == t;
                    if j < i {
                        assert(before.contains(t));
                    }
                }
                if before.contains(t) {
                    let j = choose|j: int|
                        0 <= j < i && #[trigger] public_note(m, j) && m.nodes[j].name == t;
                    assert(public_note(m, j));
                }
            }
        }
        i += 1;
    }
    out
}

fn loop_flags_of(index: &Index, notes: &Vec<bool>) -> (r: Vec<bool>)
    requires
        notes@ == note_flags(index.deep_view()),
    ensures
        r@ == loop_flags(index.deep_view()),
{
    let ghost m = index.deep_view();
    let paths = public_paths(index, notes);
    let mut out: Vec<bool> = Vec::new();
    let mut i: usize = 0;
    while i < index.nodes.len()
        invariant
            m == index.deep_view(),
            forall|t: Seq<char>| #[trigger] paths@.contains(t) <==> public_path(m, t),
            i <= m.nodes.len(),
            out@ == loop_flags(m).take(i as int),
        decreases m.nodes.len() - i,
    {
        let node = &index.nodes[i];
        assert(m.nodes[i as int] == node.deep_view());
        let mut public = false;
        if same_text(&node.kind, "loop") {
            if let Some(path) = &node.path {
                public = paths.contains(path);
            }
        }
        assert(public == public_loop(m, i as int));
        out.push(public);
        assert(loop_flags(m).take(i + 1) =~= loop_flags(m).take(i as int).push(public));
        i += 1;
    }
    assert(loop_flags(m).take(m.nodes.len() as int) =~= loop_flags(m));
    out
}

/// Which nodes a public note or a public project links to.
fn referenced_of(index: &Index, sources: &Vec<bool>, Ghost(repos): Ghost<Seq<Seq<char>>>) -> (r: Vec<bool>)
    requires
        index_ok(index.deep_view()),
        sources@.len() == index.nodes@.len(),
        forall|i: int|
            0 <= i < sources@.len() ==> #[trigger] sources@[i] == (public_note(
                index.deep_view(),
                i,
            ) || public_project(index.deep_view(), repos, i)),
    ensures
        r@.len() == index.nodes@.len(),
        forall|i: int|
            0 <= i < r@.len() ==> #[trigger] r@[i] == referenced(
                index.deep_view(),
                repos,
                i,
                index.edges@.len() as int,
            ),
{
    let ghost m = index.deep_view();
    let mut out: Vec<bool> = Vec::new();
    let mut k: usize = 0;
    while k < index.nodes.len()
        invariant
            k <= index.nodes@.len(),
            out@.len() == k,
            forall|i: int| 0 <= i < k ==> !#[trigger] out@[i],
        decreases index.nodes@.len() - k,
    {
        out.push(false);
        k += 1;
    }
    let mut e: usize = 0;
    while e < index.edges.len()
        invariant
            m == index.deep_view(),
            index_ok(m),
            sources@.len() == m.nodes.len(),
            forall|i: int|
                0 <= i < sources@.len() ==> #[trigger] sources@[i] == (public_note(m, i)
                    || public_project(m, repos, i)),
            e <= m.edges.len(),
            out@.len() == m.nodes.len(),
            forall|i: int|
                0 <= i < out@.len() ==> #[trigger] out@[i] == referenced(m, repos, i, e as int),
        decreases m.edges.len() - e,
    {
        let ghost before = out@;
        let edge = &index.edges[e];
        assert(m.edges[e as int] == edge.deep_view());
        let src = find_node(&index.nodes, edge.src);
        let dst = find_node(&index.nodes, edge.dst);
        if let (Some(s), Some(d)) = (src, dst) {
            if sources[s] {
                out.set(d, true);
            }
            proof {
                assert forall|i: int| 0 <= i < out@.len() implies #[trigger] out@[i] == referenced(
                    m,
                    repos,
                    i,
                    e + 1,
                ) by {
                    lemma_node_place(m.nodes, i);
                    if referenced(m, repos, i, e as int) {
                        let x = choose|x: int|
                            0 <= x < e && #[trigger] refers_to(m, repos, m.edges[x], i);
                        assert(refers_to(m, repos, m.edges[x], i));
                    }
                    if refers_to(m, repos, m.edges[e as int], i) {
                        assert(referenced(m, repos, i, e + 1));
                    }
                    assert(before[i] == referenced(m, repos, i, e as int));
                    if referenced(m, repos, i, e + 1) {
                        let x = choose|x: int|
                            0 <= x < e + 1 && #[trigger] refers_to(m, repos, m.edges[x], i);
                        if x < e {
                            assert(referenced(m, repos, i, e as int));
                        }
                    }
                }
            }
        }
        e += 1;
    }
    out
}

fn entity_flags_of(
    index: &Index,
    referenced: &Vec<bool>,
    allowed: &NameSet,
    Ghost(repos): Ghost<Seq<Seq<char>>>,
) -> (r: Vec<bool>)
    requires
        referenced@.len() == index.nodes@.len(),
        forall|i: int|
            0 <= i < referenced@.len() ==> #[trigger] referenced@[i] == self::referenced(
                index.deep_view(),
                repos,
                i,
                index.edges@.len() as int,
            ),
        forall|t: Seq<char>| #[trigger] allowed@.contains(t) <==> canonicals(repos).contains(t),
    ensures
        r@ == entity_flags(index.deep_view(), repos),
{
    let ghost m = index.deep_view();
    let mut out: Vec<bool> = Vec::new();
    let mut i: usize = 0;
    while i < index.nodes.len()
        invariant
            m == index.deep_view(),
            referenced@.len() == m.nodes.len(),
            forall|k: int|
                0 <= k < referenced@.len() ==> #[trigger] referenced@[k] == self::referenced(
                    m,
                    repos,
                    k,
                    m.edges.len() as int,
                ),
            forall|t: Seq<char>| #[trigger] allowed@.contains(t) <==> canonicals(repos).contains(t),
            i <= m.nodes.len(),
            out@ == entity_flags(m, repos).take(i as int),
        decreases m.nodes.len() - i,
    {
        let node = &index.nodes[i];
        assert(m.nodes[i as int] == node.deep_view());
        let mut public = false;
        if same_text(&node.kind, "entity") && referenced[i] {
            public = match json_text_field(&node.meta, "repo") {
                Some(repo) => allowed.contains(&canonicalize(&repo)),
                None => true,
            };
        }
        assert(public == public_entity(m, repos, i as int));
        out.push(public);
        assert(entity_flags(m, repos).take(i + 1) =~= entity_flags(m, repos).take(i as int).push(
            public,
        ));
        i += 1;
    }
    assert(entity_flags(m, repos).take(m.nodes.len() as int) =~= entity_flags(m, repos));
    out
}

/// The publish manifest of an index.
pub open spec fn plan_of(m: IndexModel, repos: Seq<Seq<char>>) -> PlanModel {
    PlanModel {
        notes: plan_notes(m),
        projects: plan_projects(m, repos),
        entities: plan_entities(m, repos),
        loops: plan_loops(m),
        edges: plan_edges(m, repos),
        flags: plan_flags(plan_notes(m), plan_projects(m, repos)),
        dropped_edges: picked(half_flags(m, repos)).len() as int,
    }
}

/// A sort key of one text.
pub fn text_key(text: &str) -> (r: SortKey)
    ensures
        r.deep_view() == seq![PartModel::Text(text@)],
{
    let mut parts: Vec<KeyPart> = Vec::new();
    parts.push(KeyPart::Text(text.to_owned()));
    let key = SortKey { parts };
    assert(key.deep_view() =~= seq![PartModel::Text(text@)]);
    key
}

/// What `by_name` lists: the flagged nodes, in the order of their names.
pub proof fn lemma_by_name(nodes: Seq<NodeModel>, flags: Seq<bool>)
    requires
        flags.len() == nodes.len(),
    ensures
        keys_ok(name_keys(nodes, picked(flags))),
        by_name(nodes, flags).len() == picked(flags).len(),
        forall|k: int|
            0 <= k < by_name(nodes, flags).len() ==> 0 <= #[trigger] by_name(nodes, flags)[k]
                < nodes.len() && flags[by_name(nodes, flags)[k]],
        forall|i: int|
            0 <= i < nodes.len() ==> (#[trigger] by_name(nodes, flags).contains(i) <==> flags[i]),
        forall|k: int, l: int|
            0 <= k < l < by_name(nodes, flags).len() ==> text_le(
                nodes[#[trigger] by_name(nodes, flags)[k]].name,
                nodes[#[trigger] by_name(nodes, flags)[l]].name,
            ),
{
    let picks = picked(flags);
    let keys = name_keys(nodes, picks);
    lemma_picked(flags);
    assert(keys_ok(keys));
    lemma_ordered(picks, keys);
    assert forall|i: int| 0 <= i < nodes.len() implies (#[trigger] by_name(nodes, flags).contains(
        i,
    ) <==> flags[i]) by {
        if flags[i] {
            assert(picks.contains(i));
        }
        if picks.contains(i) {
            let k = choose|k: int| 0 <= k < picks.len() && picks[k] == i;
            assert(flags[picks[k]]);
        }
    }
    let order = order_of(keys);
    assert forall|k: int, l: int| 0 <= k < l < by_name(nodes, flags).len() implies text_le(
        nodes[#[trigger] by_name(nodes, flags)[k]].name,
        nodes[#[trigger] by_name(nodes, flags)[l]].name,
    ) by {
        assert(before(keys, order[k], order[l]));
        let a = keys[order[k]];
        let b = keys[order[l]];
        assert(key_le(a, b));
        assert(a[0] == PartModel::Text(nodes[picks[order[k]]].name));
        assert(b[0] == PartModel::Text(nodes[picks[order[l]]].name));
    }
}

proof fn lemma_by_name_once(nodes: Seq<NodeModel>, flags: Seq<bool>, kind: Seq<char>)
    requires
        flags.len() == nodes.len(),
        distinct_nodes(nodes),
        forall|i: int| 0 <= i < nodes.len() && #[trigger] flags[i] ==> nodes[i].kind == kind,
    ensures
        forall|k: int, l: int|
            0 <= k < l < by_name(nodes, flags).len() ==> nodes[#[trigger] by_name(
                nodes,
                flags,
            )[k]].name != nodes[#[trigger] by_name(nodes, flags)[l]].name,
{
    let picks = picked(flags);
    let keys = name_keys(nodes, picks);
    lemma_picked(flags);
    lemma_by_name(nodes, flags);
    lemma_ordered(picks, keys);
    let order = order_of(keys);
    assert forall|k: int, l: int| 0 <= k < l < by_name(nodes, flags).len() implies nodes[
        #[trigger] by_name(nodes, flags)[k]].name != nodes[#[trigger] by_name(
        nodes,
        flags,
    )[l]].name by {
        assert(before(keys, order[k], order[l]));
        let a = order[k];
        let b = order[l];
        assert(a != b);
        assert(flags[picks[a]] && flags[picks[b]]);
        if a < b {
            assert(picks[a] < picks[b]);
        } else {
            assert(picks[b] < picks[a]);
        }
    }
}

fn by_name_of(nodes: &Vec<Node>, flags: &Vec<bool>) -> (r: Vec<usize>)
    requires
        flags@.len() == nodes@.len(),
    ensures
        places(r@) == by_name(nodes.deep_view(), flags@),
        forall|k: int| 0 <= k < r@.len() ==> #[trigger] r@[k] < nodes@.len() && flags@[r@[k] as int],
{
    let ghost all = nodes.deep_view();
    let picks = pick(flags);
    let mut keys: Vec<SortKey> = Vec::new();
    let mut k: usize = 0;
    proof {
        lemma_picked(flags@);
        lemma_by_name(all, flags@);
    }
    assert(keys.deep_view() =~= Seq::<KeyModel>::empty());
    while k < picks.len()
        invariant
            k <= picks@.len(),
            all == nodes.deep_view(),
            flags@.len() == all.len(),
            places(picks@) == picked(flags@),
            forall|j: int| 0 <= j < picked(flags@).len() ==> 0 <= #[trigger] picked(flags@)[j] < flags@.len(),
            keys.deep_view() == name_keys(all, places(picks@)).take(k as int),
        decreases picks@.len() - k,
    {
        let ghost before = keys.deep_view();
        assert(places(picks@)[k as int] == picks@[k as int]);
        assert(picked(flags@)[k as int] == picks@[k as int]);
        let node = &nodes[picks[k]];
        assert(all[picks@[k as int] as int] == node.deep_view());
        let key = text_key(&node.name);
        keys.push(key);
        assert(keys.deep_view() =~= before.push(key.deep_view()));
        assert(name_keys(all, places(picks@)).take(k + 1) =~= before.push(key.deep_view()));
        k += 1;
    }
    assert(name_keys(all, places(picks@)).take(picks@.len() as int) =~= name_keys(all, places(picks@)));
    let r = arrange(&picks, &keys);
    proof {
        assert forall|j: int| 0 <= j < r@.len() implies #[trigger] r@[j] < nodes@.len()
            && flags@[r@[j] as int] by {
            assert(places(r@)[j] == r@[j]);
            assert(by_name(all, flags@)[j] == r@[j]);
        }
    }
    r
}

fn plan_notes_of(index: &Index, flags: &Vec<bool>) -> (r: Vec<PlanNote>)
    requires
        index_ok(index.deep_view()),
        flags@ == note_flags(index.deep_view()),
    ensures
        r.deep_view() == plan_notes(index.deep_view()),
{
    let ghost m = index.deep_view();
    let order = by_name_of(&index.nodes, flags);
    let mut out: Vec<PlanNote> = Vec::new();
    let mut k: usize = 0;
    assert(out.deep_view() =~= Seq::<PlanNoteModel>::empty());
    while k < order.len()
        invariant
            k <= order@.len(),
            m == index.deep_view(),
            index_ok(m),
            flags@ == note_flags(m),
            places(order@) == by_name(m.nodes, flags@),
            forall|j: int|
                0 <= j < order@.len() ==> #[trigger] order@[j] < m.nodes.len()
                    && flags@[order@[j] as int],
            out.deep_view() == plan_notes(m).take(k as int),
        decreases order@.len() - k,
    {
        let ghost before = out.deep_view();
        let i = order[k];
        assert(places(order@)[k as int] == i as int);
        assert(public_note(m, i as int));
        let node = &index.nodes[i];
        assert(m.nodes[i as int] == node.deep_view());
        if let Some(n) = find_note(&index.notes, node.id) {
            let row = &index.notes[n];
            assert(m.notes[n as int] == row.deep_view());
            let item = PlanNote {
                path: node.name.clone(),
                note_date: copy_text(&row.note_date),
                body: row.body.clone(),
            };
            out.push(item);
            assert(item.deep_view() == note_item(m, i as int));
            assert(out.deep_view() =~= before.push(item.deep_view()));
            assert(plan_notes(m).take(k + 1) =~= before.push(note_item(m, i as int)));
        }
        k += 1;
    }
    assert(plan_notes(m).take(order@.len() as int) =~= plan_notes(m));
    out
}

/// Whether `git` is the object `meta` without the stamp of the git cache, its other members kept.
pub open spec fn without_fingerprint(meta: Seq<char>, git: Seq<char>) -> bool {
    json_of(meta) is Fields ==> {
        &&& field(git, "fingerprint"@) is None
        &&& field(git, "git_fingerprint"@) is None
        &&& forall|key: Seq<char>|
            key != "fingerprint"@ && key != "git_fingerprint"@ ==> (#[trigger] field(git, key)
                is Some <==> field(meta, key) is Some)
        &&& forall|key: Seq<char>|
            key != "fingerprint"@ && key != "git_fingerprint"@ ==> #[trigger] text_field(git, key)
                == text_field(meta, key)
    }
}

fn git_text(meta: &str) -> (r: String)
    ensures
        r@ == published_git(meta@),
        without_fingerprint(meta@, r@),
{
    match json_shape(meta) {
        JsonShape::Invalid => "null".to_owned(),
        JsonShape::Fields(_) => {
            proof {
                reveal_strlit("fingerprint");
                reveal_strlit("git_fingerprint");
                assert("fingerprint"@.len() != "git_fingerprint"@.len());
            }
            let less = json_without(meta, "fingerprint");
            let git = json_without(&less, "git_fingerprint");
            assert(field(less@, "fingerprint"@) is None);
            assert(field(git@, "fingerprint"@) is None);
            git
        },
        _ => meta.to_owned(),
    }
}

fn meta_text(meta: &str) -> (r: String)
    ensures
        r@ == published_meta(meta@),
{
    match json_shape(meta) {
        JsonShape::Invalid => "null".to_owned(),
        _ => meta.to_owned(),
    }
}

fn plan_projects_of(index: &Index, flags: &Vec<bool>, Ghost(repos): Ghost<Seq<Seq<char>>>) -> (r: Vec<PlanProject>)
    requires
        flags@ == project_flags(index.deep_view(), repos),
    ensures
        r.deep_view() == plan_projects(index.deep_view(), repos),
        forall|k: int|
            0 <= k < r@.len() ==> without_fingerprint(
                index.deep_view().nodes[by_name(
                    index.deep_view().nodes,
                    project_flags(index.deep_view(), repos),
                )[k]].meta,
                (#[trigger] r@[k]).git@,
            ),
{
    let ghost m = index.deep_view();
    let order = by_name_of(&index.nodes, flags);
    let mut out: Vec<PlanProject> = Vec::new();
    let mut k: usize = 0;
    assert(out.deep_view() =~= Seq::<PlanProjectModel>::empty());
    while k < order.len()
        invariant
            k <= order@.len(),
            m == index.deep_view(),
            flags@ == project_flags(m, repos),
            places(order@) == by_name(m.nodes, flags@),
            forall|j: int| 0 <= j < order@.len() ==> #[trigger] order@[j] < m.nodes.len(),
            out.deep_view() == plan_projects(m, repos).take(k as int),
            forall|j: int|
                0 <= j < k ==> without_fingerprint(
                    m.nodes[by_name(m.nodes, flags@)[j]].meta,
                    (#[trigger] out@[j]).git@,
                ),
        decreases order@.len() - k,
    {
        let ghost before = out.deep_view();
        let i = order[k];
        assert(places(order@)[k as int] == i as int);
        let node = &index.nodes[i];
        assert(m.nodes[i as int] == node.deep_view());
        let item = PlanProject { name: node.name.clone(), git: git_text(&node.meta) };
        out.push(item);
        assert(item.deep_view() == project_item(m, i as int));
        assert(out.deep_view() =~= before.push(item.deep_view()));
        assert(plan_projects(m, repos).take(k + 1) =~= before.push(project_item(m, i as int)));
        k += 1;
    }
    assert(plan_projects(m, repos).take(order@.len() as int) =~= plan_projects(m, repos));
    out
}

fn plan_entities_of(index: &Index, flags: &Vec<bool>, Ghost(repos): Ghost<Seq<Seq<char>>>) -> (r: Vec<PlanEntity>)
    requires
        flags@ == entity_flags(index.deep_view(), repos),
    ensures
        r.deep_view() == plan_entities(index.deep_view(), repos),
{
    let ghost m = index.deep_view();
    let order = by_name_of(&index.nodes, flags);
    let mut out: Vec<PlanEntity> = Vec::new();
    let mut k: usize = 0;
    assert(out.deep_view() =~= Seq::<PlanEntityModel>::empty());
    while k < order.len()
        invariant
            k <= order@.len(),
            m == index.deep_view(),
            flags@ == entity_flags(m, repos),
            places(order@) == by_name(m.nodes, flags@),
            forall|j: int| 0 <= j < order@.len() ==> #[trigger] order@[j] < m.nodes.len(),
            out.deep_view() == plan_entities(m, repos).take(k as int),
        decreases order@.len() - k,
    {
        let ghost before = out.deep_view();
        let i = order[k];
        assert(places(order@)[k as int] == i as int);
        let node = &index.nodes[i];
        assert(m.nodes[i as int] == node.deep_view());
        let item = PlanEntity { name: node.name.clone(), meta: meta_text(&node.meta) };
        out.push(item);
        assert(item.deep_view() == entity_item(m, i as int));
        assert(out.deep_view() =~= before.push(item.deep_view()));
        assert(plan_entities(m, repos).take(k + 1) =~= before.push(entity_item(m, i as int)));
        k += 1;
    }
    assert(plan_entities(m, repos).take(order@.len() as int) =~= plan_entities(m, repos));
    out
}

fn plan_loops_of(index: &Index, flags: &Vec<bool>) -> (r: Vec<PlanLoop>)
    requires
        flags@ == loop_flags(index.deep_view()),
    ensures
        r.deep_view() == plan_loops(index.deep_view()),
{
    let ghost m = index.deep_view();
    let order = by_name_of(&index.nodes, flags);
    let mut out: Vec<PlanLoop> = Vec::new();
    let mut k: usize = 0;
    assert(out.deep_view() =~= Seq::<PlanLoopModel>::empty());
    while k < order.len()
        invariant
            k <= order@.len(),
            m == index.deep_view(),
            flags@ == loop_flags(m),
            places(order@) == by_name(m.nodes, flags@),
            forall|j: int|
                0 <= j < order@.len() ==> #[trigger] order@[j] < m.nodes.len()
                    && flags@[order@[j] as int],
            out.deep_view() == plan_loops(m).take(k as int),
        decreases order@.len() - k,
    {
        let ghost before = out.deep_view();
        let i = order[k];
        assert(places(order@)[k as int] == i as int);
        let node = &index.nodes[i];
        assert(m.nodes[i as int] == node.deep_view());
        assert(public_loop(m, i as int));
        if let Some(path) = &node.path {
            let item = PlanLoop {
                name: node.name.clone(),
                note_path: path.clone(),
                text: match json_text_field(&node.meta, "text") {
                    Some(text) => text,
                    None => "".to_owned(),
                },
                section: json_text_field(&node.meta, "section"),
            };
            out.push(item);
            assert(item.deep_view() == loop_item(m, i as int));
            assert(out.deep_view() =~= before.push(item.deep_view()));
            assert(plan_loops(m).take(k + 1) =~= before.push(loop_item(m, i as int)));
        }
        k += 1;
    }
    assert(plan_loops(m).take(order@.len() as int) =~= plan_loops(m));
    out
}

/// Which of the flags of either list are set.
fn either(a: &Vec<bool>, b: &Vec<bool>) -> (r: Vec<bool>)
    requires
        a@.len() == b@.len(),
    ensures
        r@ == Seq::new(a@.len(), |i: int| a@[i] || b@[i]),
{
    let mut out: Vec<bool> = Vec::new();
    let mut i: usize = 0;
    while i < a.len()
        invariant
            i <= a@.len(),
            a@.len() == b@.len(),
            out@.len() == i,
            forall|k: int| 0 <= k < i ==> #[trigger] out@[k] == (a@[k] || b@[k]),
        decreases a@.len() - i,
    {
        out.push(a[i] || b[i]);
        i += 1;
    }
    assert(out@ =~= Seq::new(a@.len(), |k: int| a@[k] || b@[k]));
    out
}

/// Which edges are public, and which are public at one end only.
fn edge_flags_of(index: &Index, public: &Vec<bool>, Ghost(repos): Ghost<Seq<Seq<char>>>) -> (r: (
    Vec<bool>,
    Vec<bool>,
))
    requires
        index_ok(index.deep_view()),
        public@.len() == index.nodes@.len(),
        forall|i: int|
            0 <= i < public@.len() ==> #[trigger] public@[i] == public_node(
                index.deep_view(),
                repos,
                i,
            ),
    ensures
        r.0@ == edge_flags(index.deep_view(), repos),
        r.1@ == half_flags(index.deep_view(), repos),
{
    let ghost m = index.deep_view();
    let mut both: Vec<bool> = Vec::new();
    let mut half: Vec<bool> = Vec::new();
    let mut e: usize = 0;
    while e < index.edges.len()
        invariant
            m == index.deep_view(),
            index_ok(m),
            public@.len() == m.nodes.len(),
            forall|i: int|
                0 <= i < public@.len() ==> #[trigger] public@[i] == public_node(m, repos, i),
            e <= m.edges.len(),
            both@ == edge_flags(m, repos).take(e as int),
            half@ == half_flags(m, repos).take(e as int),
        decreases m.edges.len() - e,
    {
        let edge = &index.edges[e];
        assert(m.edges[e as int] == edge.deep_view());
        let mut src_public = false;
        let mut dst_public = false;
        if let Some(s) = find_node(&index.nodes, edge.src) {
            src_public = public[s];
        }
        if let Some(d) = find_node(&index.nodes, edge.dst) {
            dst_public = public[d];
        }
        assert(src_public == public_id(m, repos, m.edges[e as int].src));
        assert(dst_public == public_id(m, repos, m.edges[e as int].dst));
        both.push(src_public && dst_public);
        half.push(src_public != dst_public);
        assert(edge_flags(m, repos).take(e + 1) =~= edge_flags(m, repos).take(e as int).push(
            src_public && dst_public,
        ));
        assert(half_flags(m, repos).take(e + 1) =~= half_flags(m, repos).take(e as int).push(
            src_public != dst_public,
        ));
        e += 1;
    }
    assert(edge_flags(m, repos).take(m.edges.len() as int) =~= edge_flags(m, repos));
    assert(half_flags(m, repos).take(m.edges.len() as int) =~= half_flags(m, repos));
    (both, half)
}

fn edge_item_of(index: &Index, e: usize) -> (r: PlanEdge)
    requires
        index_ok(index.deep_view()),
        e < index.edges@.len(),
    ensures
        r.deep_view() == edge_item(index.deep_view(), e as int),
{
    let ghost m = index.deep_view();
    let edge = &index.edges[e];
    assert(m.edges[e as int] == edge.deep_view());
    let src = match find_node(&index.nodes, edge.src) {
        Some(s) => s,
        None => 0,
    };
    let dst = match find_node(&index.nodes, edge.dst) {
        Some(d) => d,
        None => 0,
    };
    assert(m.nodes[src as int] == index.nodes@[src as int].deep_view());
    assert(m.nodes[dst as int] == index.nodes@[dst as int].deep_view());
    PlanEdge {
        src_kind: index.nodes[src].kind.clone(),
        src_name: index.nodes[src].name.clone(),
        dst_kind: index.nodes[dst].kind.clone(),
        dst_name: index.nodes[dst].name.clone(),
        kind: edge.kind.clone(),
        provenance: edge.provenance.clone(),
        weight: edge.weight,
        rationale: copy_text(&edge.rationale),
    }
}

fn edge_key_of(index: &Index, e: usize) -> (r: SortKey)
    requires
        index_ok(index.deep_view()),
        e < index.edges@.len(),
    ensures
        r.deep_view() == edge_key(index.deep_view(), e as int),
{
    let ghost m = index.deep_view();
    let item = edge_item_of(index, e);
    assert(m.edges[e as int] == index.edges@[e as int].deep_view());
    let mut parts: Vec<KeyPart> = Vec::new();
    parts.push(KeyPart::Text(item.src_kind));
    parts.push(KeyPart::Text(item.src_name));
    parts.push(KeyPart::Text(item.dst_kind));
    parts.push(KeyPart::Text(item.dst_name));
    parts.push(KeyPart::Text(item.kind));
    parts.push(KeyPart::Num(index.edges[e].src as i128));
    parts.push(KeyPart::Num(index.edges[e].dst as i128));
    parts.push(KeyPart::Text(item.provenance));
    let key = SortKey { parts };
    assert(key.deep_view() =~= edge_key(m, e as int));
    key
}

fn plan_edges_of(index: &Index, flags: &Vec<bool>, Ghost(repos): Ghost<Seq<Seq<char>>>) -> (r: Vec<PlanEdge>)
    requires
        index_ok(index.deep_view()),
        flags@ == edge_flags(index.deep_view(), repos),
    ensures
        r.deep_view() == plan_edges(index.deep_view(), repos),
{
    let ghost m = index.deep_view();
    let picks = pick(flags);
    let ghost ghost_picks = picked(flags@);
    proof {
        lemma_picked(flags@);
    }
    let mut keys: Vec<SortKey> = Vec::new();
    let mut k: usize = 0;
    assert(keys.deep_view() =~= Seq::<KeyModel>::empty());
    while k < picks.len()
        invariant
            k <= picks@.len(),
            m == index.deep_view(),
            index_ok(m),
            places(picks@) == ghost_picks,
            forall|j: int| 0 <= j < ghost_picks.len() ==> 0 <= #[trigger] ghost_picks[j] < m.edges.len(),
            keys.deep_view() == edge_keys(m, ghost_picks).take(k as int),
        decreases picks@.len() - k,
    {
        let ghost before = keys.deep_view();
        assert(places(picks@)[k as int] == picks@[k as int]);
        assert(ghost_picks[k as int] == picks@[k as int]);
        let key = edge_key_of(index, picks[k]);
        keys.push(key);
        assert(keys.deep_view() =~= before.push(key.deep_view()));
        assert(edge_keys(m, ghost_picks).take(k + 1) =~= before.push(key.deep_view()));
        k += 1;
    }
    assert(edge_keys(m, ghost_picks).take(picks@.len() as int) =~= edge_keys(m, ghost_picks));
    assert(keys_ok(keys.deep_view()));
    let order = arrange(&picks, &keys);
    proof {
        lemma_ordered(ghost_picks, edge_keys(m, ghost_picks));
    }
    let mut out: Vec<PlanEdge> = Vec::new();
    let mut l: usize = 0;
    assert(out.deep_view() =~= Seq::<PlanEdgeModel>::empty());
    while l < order.len()
        invariant
            l <= order@.len(),
            m == index.deep_view(),
            index_ok(m),
            places(order@) == edge_order(m, repos),
            ghost_picks == picked(edge_flags(m, repos)),
            edge_order(m, repos) == ordered(ghost_picks, edge_keys(m, ghost_picks)),
            order@.len() == ghost_picks.len(),
            forall|j: int| 0 <= j < ghost_picks.len() ==> 0 <= #[trigger] ghost_picks[j] < m.edges.len(),
            forall|j: int|
                0 <= j < ghost_picks.len() ==> 0 <= order_of(edge_keys(m, ghost_picks))[j]
                    < ghost_picks.len() && #[trigger] ordered(
                    ghost_picks,
                    edge_keys(m, ghost_picks),
                )[j] == ghost_picks[order_of(edge_keys(m, ghost_picks))[j]],
            out.deep_view() == plan_edges(m, repos).take(l as int),
        decreases order@.len() - l,
    {
        let ghost before = out.deep_view();
        assert(places(order@)[l as int] == order@[l as int]);
        assert(edge_order(m, repos)[l as int] == order@[l as int]);
        let item = edge_item_of(index, order[l]);
        out.push(item);
        assert(out.deep_view() =~= before.push(item.deep_view()));
        assert(plan_edges(m, repos).take(l + 1) =~= before.push(item.deep_view()));
        l += 1;
    }
    assert(plan_edges(m, repos).take(order@.len() as int) =~= plan_edges(m, repos));
    out
}

/// The flags for the links of one note.
pub fn flag_links(path: &str, targets: &Vec<String>, names: &NameSet) -> (r: Vec<PlanFlag>)
    ensures
        r.deep_view() == flags_of_links(
            path@,
            targets.deep_view(),
            names@,
            targets@.len() as int,
        ),
{
    let ghost all = targets.deep_view();
    let mut out: Vec<PlanFlag> = Vec::new();
    let mut i: usize = 0;
    assert(out.deep_view() =~= Seq::<PlanFlagModel>::empty());
    while i < targets.len()
        invariant
            all == targets.deep_view(),
            i <= all.len(),
            out.deep_view() == flags_of_links(path@, all, names@, i as int),
        decreases all.len() - i,
    {
        let ghost before = out.deep_view();
        assert(all[i as int] == targets@[i as int]@);
        if !names.contains(&canonicalize(&targets[i])) {
            let item = PlanFlag {
                note_path: path.to_owned(),
                target: targets[i].clone(),
                reason: cat3(
                    "published prose links [[",
                    &targets[i],
                    "]], whose target is not a public project; the name itself will be visible",
                ),
            };
            out.push(item);
            assert(out.deep_view() =~= before.push(item.deep_view()));
        }
        i += 1;
    }
    out
}

/// The canonical names of public projects, as a set.
fn project_names_of(projects: &Vec<PlanProject>) -> (r: NameSet)
    ensures
        forall|t: Seq<char>| #[trigger]
            r@.contains(t) <==> project_names(projects.deep_view()).contains(t),
{
    let mut names: Vec<String> = Vec::new();
    let ghost all = projects.deep_view();
    let mut i: usize = 0;
    while i < projects.len()
        invariant
            all == projects.deep_view(),
            i <= all.len(),
            names@.len() == i,
            forall|k: int| 0 <= k < i ==> (#[trigger] names@[k])@ == all[k].name,
        decreases all.len() - i,
    {
        assert(all[i as int] == projects@[i as int].deep_view());
        names.push(projects[i].name.clone());
        i += 1;
    }
    let r = canonical_set(&names);
    assert(canonicals(names.deep_view()) =~= project_names(all));
    r
}

proof fn lemma_flags_of_links(
    path: Seq<char>,
    targets: Seq<Seq<char>>,
    a: Seq<Seq<char>>,
    b: Seq<Seq<char>>,
    n: int,
)
    requires
        forall|t: Seq<char>| #[trigger] a.contains(t) <==> b.contains(t),
    ensures
        flags_of_links(path, targets, a, n) == flags_of_links(path, targets, b, n),
    decreases n,
{
    if n > 0 {
        lemma_flags_of_links(path, targets, a, b, n - 1);
        assert(a.contains(canonical(targets[n - 1])) <==> b.contains(canonical(targets[n - 1])));
    }
}

fn flag_key(flag: &PlanFlag) -> (r: SortKey)
    ensures
        r.deep_view() == seq![
            PartModel::Text(flag.deep_view().note_path),
            PartModel::Text(flag.deep_view().target),
        ],
{
    let mut parts: Vec<KeyPart> = Vec::new();
    parts.push(KeyPart::Text(flag.note_path.clone()));
    parts.push(KeyPart::Text(flag.target.clone()));
    let key = SortKey { parts };
    assert(key.deep_view() =~= seq![
        PartModel::Text(flag.deep_view().note_path),
        PartModel::Text(flag.deep_view().target),
    ]);
    key
}

fn copy_flag(flag: &PlanFlag) -> (r: PlanFlag)
    ensures
        r.deep_view() == flag.deep_view(),
{
    PlanFlag {
        note_path: flag.note_path.clone(),
        target: flag.target.clone(),
        reason: flag.reason.clone(),
    }
}

/// Flags in the order of their notes and targets.
pub fn sort_flags(flags: &Vec<PlanFlag>) -> (r: Vec<PlanFlag>)
    ensures
        r.deep_view() == ordered(flags.deep_view(), flag_keys(flags.deep_view())),
{
    let ghost all = flags.deep_view();
    let mut keys: Vec<SortKey> = Vec::new();
    let mut i: usize = 0;
    assert(keys.deep_view() =~= Seq::<KeyModel>::empty());
    while i < flags.len()
        invariant
            all == flags.deep_view(),
            i <= all.len(),
            keys.deep_view() == flag_keys(all).take(i as int),
        decreases all.len() - i,
    {
        let ghost before = keys.deep_view();
        assert(all[i as int] == flags@[i as int].deep_view());
        let key = flag_key(&flags[i]);
        keys.push(key);
        assert(keys.deep_view() =~= before.push(key.deep_view()));
        assert(flag_keys(all).take(i + 1) =~= before.push(key.deep_view()));
        i += 1;
    }
    assert(flag_keys(all).take(all.len() as int) =~= flag_keys(all));
    assert(keys_ok(keys.deep_view()));
    let order = stable_order(&keys);
    let ghost km = flag_keys(all);
    let mut out: Vec<PlanFlag> = Vec::new();
    let mut l: usize = 0;
    assert(out.deep_view() =~= Seq::<PlanFlagModel>::empty());
    while l < order.len()
        invariant
            l <= order@.len(),
            all == flags.deep_view(),
            km.len() == all.len(),
            places(order@) == order_of(km),
            is_order(km, places(order@)),
            out.deep_view() == ordered(all, km).take(l as int),
        decreases order@.len() - l,
    {
        let ghost before = out.deep_view();
        let slot = order[l];
        assert(places(order@)[l as int] == slot as int);
        let item = copy_flag(&flags[slot]);
        assert(all[slot as int] == flags@[slot as int].deep_view());
        out.push(item);
        assert(out.deep_view() =~= before.push(all[slot as int]));
        assert(ordered(all, km).take(l + 1) =~= before.push(all[slot as int]));
        l += 1;
    }
    assert(places(order@).len() == order@.len());
    assert(ordered(all, km).take(all.len() as int) =~= ordered(all, km));
    out
}

fn plan_flags_of(notes: &Vec<PlanNote>, projects: &Vec<PlanProject>) -> (r: Vec<PlanFlag>)
    ensures
        r.deep_view() == plan_flags(notes.deep_view(), projects.deep_view()),
{
    let ghost all = notes.deep_view();
    let ghost names = project_names(projects.deep_view());
    let name_set = project_names_of(projects);
    let none = NameSet::new();
    let mut flags: Vec<PlanFlag> = Vec::new();
    let mut i: usize = 0;
    assert(flags.deep_view() =~= Seq::<PlanFlagModel>::empty());
    while i < notes.len()
        invariant
            all == notes.deep_view(),
            i <= all.len(),
            none@ == Seq::<Seq<char>>::empty(),
            forall|t: Seq<char>| #[trigger] name_set@.contains(t) <==> names.contains(t),
            flags.deep_view() == flags_upto(all, names, i as int),
        decreases all.len() - i,
    {
        let ghost before = flags.deep_view();
        let note = &notes[i];
        assert(all[i as int] == note.deep_view());
        let extraction = extract(&note.body, &none);
        let mut more = flag_links(&note.path, &extraction.wiki_links, &name_set);
        let ghost added = more.deep_view();
        proof {
            let targets = prose_links(note.body@);
            assert(extraction.deep_view().wiki_links == targets);
            lemma_flags_of_links(note.path@, targets, name_set@, names, targets.len() as int);
        }
        flags.append(&mut more);
        assert(flags.deep_view() =~= before + added);
        i += 1;
    }
    sort_flags(&flags)
}

/// Compute the publish manifest from an index.
pub fn plan(index: &Index, cfg: &PublishConfig) -> (r: PublishPlan)
    requires
        index_ok(index.deep_view()),
    ensures
        r.deep_view() == plan_of(index.deep_view(), cfg.repos.deep_view()),
        forall|k: int|
            0 <= k < r.projects@.len() ==> without_fingerprint(
                index.deep_view().nodes[by_name(
                    index.deep_view().nodes,
                    project_flags(index.deep_view(), cfg.repos.deep_view()),
                )[k]].meta,
                (#[trigger] r.projects@[k]).git@,
            ),
{
    let ghost m = index.deep_view();
    let ghost repos = cfg.repos.deep_view();
    let allowed = canonical_set(&cfg.repos);
    let note_list = note_flags_of(index);
    let project_list = project_flags_of(index, &allowed, Ghost(repos));
    let loop_list = loop_flags_of(index, &note_list);
    let sources = either(&note_list, &project_list);
    let seeds = either(&sources, &loop_list);
    let referenced = referenced_of(index, &sources, Ghost(repos));
    let entity_list = entity_flags_of(index, &referenced, &allowed, Ghost(repos));
    let public = either(&seeds, &entity_list);
    let (edge_list, half_list) = edge_flags_of(index, &public, Ghost(repos));
    let notes = plan_notes_of(index, &note_list);
    let projects = plan_projects_of(index, &project_list, Ghost(repos));
    let entities = plan_entities_of(index, &entity_list, Ghost(repos));
    let loops = plan_loops_of(index, &loop_list);
    let edges = plan_edges_of(index, &edge_list, Ghost(repos));
    let flags = plan_flags_of(&notes, &projects);
    let dropped = pick(&half_list);
    let dropped_edges = dropped.len();
    assert(places(dropped@).len() == dropped_edges);
    PublishPlan { notes, projects, entities, loops, edges, flags, dropped_edges }
}

/// Notes are opt-in: the manifest lists the notes that say `publish: true` in their frontmatter,
/// and no others.
pub proof fn law_notes_opt_in(m: IndexModel, repos: Seq<Seq<char>>)
    ensures
        forall|k: int|
            0 <= k < plan_of(m, repos).notes.len() ==> published(
                (#[trigger] plan_of(m, repos).notes[k]).body,
            ),
        forall|i: int|
            0 <= i < m.nodes.len() && #[trigger] public_note(m, i) ==> plan_of(
                m,
                repos,
            ).notes.contains(note_item(m, i)),
{
    let flags = note_flags(m);
    let order = by_name(m.nodes, flags);
    lemma_by_name(m.nodes, flags);
    assert forall|i: int| 0 <= i < m.nodes.len() && #[trigger] public_note(m, i) implies plan_of(
        m,
        repos,
    ).notes.contains(note_item(m, i)) by {
        assert(order.contains(i));
        let k = choose|k: int| 0 <= k < order.len() && order[k] == i;
        assert(plan_notes(m)[k] == note_item(m, i));
    }
    assert forall|k: int| 0 <= k < plan_of(m, repos).notes.len() implies published(
        (#[trigger] plan_of(m, repos).notes[k]).body,
    ) by {
        assert(flags[order[k]]);
    }
}

/// Projects require consent: the manifest lists the projects whose name is on the allowlist, and
/// no others.
pub proof fn law_projects_need_allowlist(m: IndexModel, repos: Seq<Seq<char>>)
    ensures
        forall|k: int|
            0 <= k < plan_of(m, repos).projects.len() ==> allowlisted(
                repos,
                (#[trigger] plan_of(m, repos).projects[k]).name,
            ),
        forall|i: int|
            0 <= i < m.nodes.len() && #[trigger] public_project(m, repos, i) ==> plan_of(
                m,
                repos,
            ).projects.contains(project_item(m, i)),
{
    let flags = project_flags(m, repos);
    let order = by_name(m.nodes, flags);
    lemma_by_name(m.nodes, flags);
    assert forall|i: int|
        0 <= i < m.nodes.len() && #[trigger] public_project(m, repos, i) implies plan_of(
        m,
        repos,
    ).projects.contains(project_item(m, i)) by {
        assert(order.contains(i));
        let k = choose|k: int| 0 <= k < order.len() && order[k] == i;
        assert(plan_projects(m, repos)[k] == project_item(m, i));
    }
    assert forall|k: int| 0 <= k < plan_of(m, repos).projects.len() implies allowlisted(
        repos,
        (#[trigger] plan_of(m, repos).projects[k]).name,
    ) by {
        assert(flags[order[k]]);
    }
}

/// Whether a manifest lists a note with this path.
pub open spec fn lists_note(p: PlanModel, path: Seq<char>) -> bool {
    exists|k: int| 0 <= k < p.notes.len() && (#[trigger] p.notes[k]).path == path
}

/// Loops follow their containing note: every listed loop belongs to a listed note, and every loop
/// of a listed note is listed.
pub proof fn law_loops_follow_notes(m: IndexModel, repos: Seq<Seq<char>>)
    ensures
        forall|k: int|
            0 <= k < plan_of(m, repos).loops.len() ==> lists_note(
                plan_of(m, repos),
                (#[trigger] plan_of(m, repos).loops[k]).note_path,
            ),
        forall|i: int|
            0 <= i < m.nodes.len() && (#[trigger] m.nodes[i]).kind == "loop"@ && m.nodes[i].path
                is Some && lists_note(plan_of(m, repos), m.nodes[i].path->0) ==> plan_of(
                m,
                repos,
            ).loops.contains(loop_item(m, i)),
{
    let p = plan_of(m, repos);
    let flags = loop_flags(m);
    let order = by_name(m.nodes, flags);
    let notes = by_name(m.nodes, note_flags(m));
    lemma_by_name(m.nodes, flags);
    lemma_by_name(m.nodes, note_flags(m));
    assert forall|k: int| 0 <= k < p.loops.len() implies lists_note(
        p,
        (#[trigger] p.loops[k]).note_path,
    ) by {
        assert(flags[order[k]]);
        let path = p.loops[k].note_path;
        assert(public_path(m, path));
        let j = choose|j: int|
            0 <= j < m.nodes.len() && #[trigger] public_note(m, j) && m.nodes[j].name == path;
        assert(notes.contains(j));
        let l = choose|l: int| 0 <= l < notes.len() && notes[l] == j;
        assert(p.notes[l] == note_item(m, j));
    }
    assert forall|i: int|
        0 <= i < m.nodes.len() && (#[trigger] m.nodes[i]).kind == "loop"@ && m.nodes[i].path is Some
            && lists_note(p, m.nodes[i].path->0) implies p.loops.contains(loop_item(m, i)) by {
        let path = m.nodes[i].path->0;
        let l = choose|l: int| 0 <= l < p.notes.len() && (#[trigger] p.notes[l]).path == path;
        assert(note_flags(m)[notes[l]]);
        assert(public_note(m, notes[l]) && m.nodes[notes[l]].name == path);
        assert(public_loop(m, i));
        assert(order.contains(i));
        let k = choose|k: int| 0 <= k < order.len() && order[k] == i;
        assert(plan_loops(m)[k] == loop_item(m, i));
    }
}

/// Whether an entity entry is the entry of a public entity node.
pub open spec fn is_entity_entry(
    m: IndexModel,
    repos: Seq<Seq<char>>,
    item: PlanEntityModel,
    i: int,
) -> bool {
    0 <= i < m.nodes.len() && public_entity(m, repos, i) && item == entity_item(m, i)
}

/// Whether an entity entry belongs to a public entity.
pub open spec fn has_entity(m: IndexModel, repos: Seq<Seq<char>>, item: PlanEntityModel) -> bool {
    exists|i: int| #[trigger] is_entity_entry(m, repos, item, i)
}

/// Entities appear only by reference: a public note or a public project links to every listed
/// entity, and its repo, where it names one, is on the allowlist. Every such entity is listed.
pub proof fn law_entities_need_reference(m: IndexModel, repos: Seq<Seq<char>>)
    ensures
        forall|k: int|
            0 <= k < plan_of(m, repos).entities.len() ==> has_entity(
                m,
                repos,
                #[trigger] plan_of(m, repos).entities[k],
            ),
        forall|i: int|
            0 <= i < m.nodes.len() && #[trigger] public_entity(m, repos, i) ==> plan_of(
                m,
                repos,
            ).entities.contains(entity_item(m, i)),
{
    let p = plan_of(m, repos);
    let flags = entity_flags(m, repos);
    let order = by_name(m.nodes, flags);
    lemma_by_name(m.nodes, flags);
    assert forall|k: int| 0 <= k < p.entities.len() implies has_entity(
        m,
        repos,
        #[trigger] p.entities[k],
    ) by {
        assert(flags[order[k]]);
        assert(is_entity_entry(m, repos, p.entities[k], order[k]));
    }
    assert forall|i: int|
        0 <= i < m.nodes.len() && #[trigger] public_entity(m, repos, i) implies p.entities.contains(
        entity_item(m, i),
    ) by {
        assert(order.contains(i));
        let k = choose|k: int| 0 <= k < order.len() && order[k] == i;
        assert(plan_entities(m, repos)[k] == entity_item(m, i));
    }
}

/// Whether an edge entry is the entry of an edge between two public nodes.
pub open spec fn is_edge_entry(
    m: IndexModel,
    repos: Seq<Seq<char>>,
    item: PlanEdgeModel,
    e: int,
) -> bool {
    &&& 0 <= e < m.edges.len()
    &&& public_id(m, repos, m.edges[e].src)
    &&& public_id(m, repos, m.edges[e].dst)
    &&& item == edge_item(m, e)
}

/// Whether an edge entry belongs to an edge between two public nodes.
pub open spec fn has_edge(m: IndexModel, repos: Seq<Seq<char>>, item: PlanEdgeModel) -> bool {
    exists|e: int| #[trigger] is_edge_entry(m, repos, item, e)
}

/// What `edge_order` lists: the public edges.
pub proof fn lemma_edge_order(m: IndexModel, repos: Seq<Seq<char>>)
    ensures
        keys_ok(edge_keys(m, picked(edge_flags(m, repos)))),
        edge_order(m, repos).len() == picked(edge_flags(m, repos)).len(),
        forall|k: int|
            0 <= k < edge_order(m, repos).len() ==> 0 <= #[trigger] edge_order(m, repos)[k]
                < m.edges.len() && edge_flags(m, repos)[edge_order(m, repos)[k]],
        forall|e: int|
            0 <= e < m.edges.len() ==> (#[trigger] edge_order(m, repos).contains(e) <==> edge_flags(
                m,
                repos,
            )[e]),
{
    let flags = edge_flags(m, repos);
    let picks = picked(flags);
    let keys = edge_keys(m, picks);
    lemma_picked(flags);
    assert(keys_ok(keys));
    lemma_ordered(picks, keys);
    assert forall|e: int| 0 <= e < m.edges.len() implies (#[trigger] edge_order(m, repos).contains(
        e,
    ) <==> flags[e]) by {
        if flags[e] {
            assert(picks.contains(e));
        }
        if picks.contains(e) {
            let k = choose|k: int| 0 <= k < picks.len() && picks[k] == e;
            assert(flags[picks[k]]);
        }
    }
}

/// Edges appear only when both endpoints are public, and then they all appear.
pub proof fn law_edges_join_public_nodes(m: IndexModel, repos: Seq<Seq<char>>)
    ensures
        forall|k: int|
            0 <= k < plan_of(m, repos).edges.len() ==> has_edge(
                m,
                repos,
                #[trigger] plan_of(m, repos).edges[k],
            ),
        forall|e: int|
            0 <= e < m.edges.len() && public_id(m, repos, (#[trigger] m.edges[e]).src) && public_id(
                m,
                repos,
                m.edges[e].dst,
            ) ==> plan_of(m, repos).edges.contains(edge_item(m, e)),
{
    let p = plan_of(m, repos);
    let order = edge_order(m, repos);
    lemma_edge_order(m, repos);
    assert forall|k: int| 0 <= k < p.edges.len() implies has_edge(
        m,
        repos,
        #[trigger] p.edges[k],
    ) by {
        assert(edge_flags(m, repos)[order[k]]);
        assert(is_edge_entry(m, repos, p.edges[k], order[k]));
    }
    assert forall|e: int|
        0 <= e < m.edges.len() && public_id(m, repos, (#[trigger] m.edges[e]).src) && public_id(
            m,
            repos,
            m.edges[e].dst,
        ) implies p.edges.contains(edge_item(m, e)) by {
        assert(order.contains(e));
        let k = choose|k: int| 0 <= k < order.len() && order[k] == e;
        assert(plan_edges(m, repos)[k] == edge_item(m, e));
    }
}

/// Whether two manifests agree on everything that is written out.
pub open spec fn same_manifest(a: PlanModel, b: PlanModel) -> bool {
    &&& a.notes == b.notes
    &&& a.projects == b.projects
    &&& a.entities == b.entities
    &&& a.loops == b.loops
    &&& a.edges == b.edges
    &&& a.flags == b.flags
}

/// Taking out a place that is not picked moves the picked places behind it.
pub proof fn lemma_picked_remove(flags: Seq<bool>, e: int)
    requires
        0 <= e < flags.len(),
        !flags[e],
    ensures
        picked(flags.remove(e)).len() == picked(flags).len(),
        forall|k: int|
            0 <= k < picked(flags).len() ==> #[trigger] picked(flags.remove(e))[k] == (if picked(
                flags,
            )[k] > e {
                picked(flags)[k] - 1
            } else {
                picked(flags)[k]
            }),
    decreases flags.len(),
{
    let less = flags.remove(e);
    let rest = flags.drop_last();
    lemma_picked(rest);
    if e == flags.len() - 1 {
        assert(less =~= rest);
    } else {
        lemma_picked_remove(rest, e);
        assert(less.drop_last() =~= rest.remove(e));
        assert(less.last() == flags.last());
    }
}

/// The index without edge `e`.
spec fn without_edge(m: IndexModel, e: int) -> IndexModel {
    IndexModel { edges: m.edges.remove(e), ..m }
}

proof fn lemma_seeds_without_edge(m: IndexModel, repos: Seq<Seq<char>>, e: int)
    ensures
        note_flags(m) == note_flags(without_edge(m, e)),
        project_flags(m, repos) == project_flags(without_edge(m, e), repos),
        loop_flags(m) == loop_flags(without_edge(m, e)),
        forall|i: int| #[trigger]
            public_seed(m, repos, i) == public_seed(without_edge(m, e), repos, i),
{
    let n = without_edge(m, e);
    assert forall|path: Seq<char>| #[trigger] public_path(m, path) == public_path(n, path) by {
        if public_path(m, path) {
            let j = choose|j: int|
                0 <= j < m.nodes.len() && #[trigger] public_note(m, j) && m.nodes[j].name == path;
            assert(public_note(n, j));
        }
        if public_path(n, path) {
            let j = choose|j: int|
                0 <= j < n.nodes.len() && #[trigger] public_note(n, j) && n.nodes[j].name == path;
            assert(public_note(m, j));
        }
    }
    assert forall|i: int| #[trigger] public_seed(m, repos, i) == public_seed(n, repos, i) by {
        if m.nodes[i].path is Some {
            assert(public_path(m, m.nodes[i].path->0) == public_path(n, m.nodes[i].path->0));
        }
    }
    assert(note_flags(m) =~= note_flags(n));
    assert(project_flags(m, repos) =~= project_flags(n, repos));
    assert(loop_flags(m) =~= loop_flags(n));
}

proof fn lemma_entities_without_edge(m: IndexModel, repos: Seq<Seq<char>>, e: int)
    requires
        index_ok(m),
        0 <= e < m.edges.len(),
        !(public_id(m, repos, m.edges[e].src) && public_id(m, repos, m.edges[e].dst)),
    ensures
        entity_flags(m, repos) == entity_flags(without_edge(m, e), repos),
        forall|i: int|
            0 <= i < m.nodes.len() ==> #[trigger] public_entity(m, repos, i) == public_entity(
                without_edge(m, e),
                repos,
                i,
            ),
{
    let n = without_edge(m, e);
    assert forall|i: int|
        0 <= i < m.nodes.len() implies #[trigger] public_entity(m, repos, i) == public_entity(
        n,
        repos,
        i,
    ) by {
        lemma_node_place(m.nodes, i);
        if public_entity(n, repos, i) {
            let x = choose|x: int|
                0 <= x < n.edges.len() && #[trigger] refers_to(n, repos, n.edges[x], i);
            let y = if x < e { x } else { x + 1 };
            assert(m.edges[y] == n.edges[x]);
            assert(refers_to(m, repos, m.edges[y], i));
        }
        if public_entity(m, repos, i) {
            let y = choose|y: int|
                0 <= y < m.edges.len() && #[trigger] refers_to(m, repos, m.edges[y], i);
            assert(y != e);
            let x = if y < e { y } else { y - 1 };
            assert(m.edges[y] == n.edges[x]);
            assert(refers_to(n, repos, n.edges[x], i));
        }
    }
    assert(entity_flags(m, repos) =~= entity_flags(n, repos));
}

proof fn lemma_flags_without_edge(m: IndexModel, repos: Seq<Seq<char>>, e: int)
    requires
        index_ok(m),
        0 <= e < m.edges.len(),
        !(public_id(m, repos, m.edges[e].src) && public_id(m, repos, m.edges[e].dst)),
    ensures
        edge_flags(without_edge(m, e), repos) == edge_flags(m, repos).remove(e),
{
    let n = without_edge(m, e);
    let flags = edge_flags(m, repos);
    let less = edge_flags(n, repos);
    lemma_seeds_without_edge(m, repos, e);
    lemma_entities_without_edge(m, repos, e);
    assert forall|x: int| 0 <= x < n.edges.len() implies #[trigger] less[x] == flags.remove(e)[x] by {
        let y = if x < e { x } else { x + 1 };
        assert(m.edges[y] == n.edges[x]);
        assert(has_node(m.nodes, m.edges[y].src) && has_node(m.nodes, m.edges[y].dst));
        let s = node_place(m.nodes, m.edges[y].src);
        let d = node_place(m.nodes, m.edges[y].dst);
        assert(public_entity(m, repos, s) == public_entity(n, repos, s));
        assert(public_entity(m, repos, d) == public_entity(n, repos, d));
        assert(public_seed(m, repos, s) == public_seed(n, repos, s));
        assert(public_seed(m, repos, d) == public_seed(n, repos, d));
    }
    assert(less =~= flags.remove(e));
}

proof fn lemma_plan_edges_without_edge(m: IndexModel, repos: Seq<Seq<char>>, e: int)
    requires
        index_ok(m),
        0 <= e < m.edges.len(),
        !(public_id(m, repos, m.edges[e].src) && public_id(m, repos, m.edges[e].dst)),
    ensures
        plan_edges(m, repos) == plan_edges(without_edge(m, e), repos),
{
    let n = without_edge(m, e);
    let flags = edge_flags(m, repos);
    let less = edge_flags(n, repos);
    lemma_flags_without_edge(m, repos, e);
    lemma_picked_remove(flags, e);
    lemma_picked(flags);
    lemma_picked(less);
    let pm = picked(flags);
    let pn = picked(less);
    assert forall|k: int| 0 <= k < pm.len() implies m.edges[pm[k]] == n.edges[#[trigger] pn[k]] by {
        assert(flags[pm[k]]);
    }
    assert(edge_keys(m, pm) =~= edge_keys(n, pn)) by {
        assert forall|k: int| 0 <= k < pm.len() implies edge_key(m, pm[k]) == #[trigger] edge_key(
            n,
            pn[k],
        ) by {
            assert(m.edges[pm[k]] == n.edges[pn[k]]);
        }
    }
    lemma_edge_order(m, repos);
    lemma_ordered(pm, edge_keys(m, pm));
    let order = order_of(edge_keys(m, pm));
    assert forall|k: int| 0 <= k < pm.len() implies plan_edges(m, repos)[k] == #[trigger] plan_edges(
        n,
        repos,
    )[k] by {
        assert(edge_order(m, repos)[k] == pm[order[k]]);
        assert(m.edges[pm[order[k]]] == n.edges[pn[order[k]]]);
    }
    assert(plan_edges(m, repos) =~= plan_edges(n, repos));
}

/// Private neighbours leave no trace: an edge with a private endpoint changes nothing that is
/// written out.
#[verifier::spinoff_prover]
pub proof fn law_private_edge_leaves_no_trace(m: IndexModel, repos: Seq<Seq<char>>, e: int)
    requires
        index_ok(m),
        0 <= e < m.edges.len(),
        !(public_id(m, repos, m.edges[e].src) && public_id(m, repos, m.edges[e].dst)),
    ensures
        same_manifest(
            plan_of(m, repos),
            plan_of(IndexModel { edges: m.edges.remove(e), ..m }, repos),
        ),
{
    let n = without_edge(m, e);
    lemma_seeds_without_edge(m, repos, e);
    lemma_entities_without_edge(m, repos, e);
    lemma_plan_edges_without_edge(m, repos, e);
    lemma_by_name(m.nodes, note_flags(m));
    lemma_by_name(m.nodes, project_flags(m, repos));
    lemma_by_name(m.nodes, loop_flags(m));
    lemma_by_name(m.nodes, entity_flags(m, repos));
    assert(plan_notes(m) =~= plan_notes(n));
    assert(plan_projects(m, repos) =~= plan_projects(n, repos));
    assert(plan_loops(m) =~= plan_loops(n));
    assert(plan_entities(m, repos) =~= plan_entities(n, repos));
}

/// The index with the body of note row `k` replaced.
pub open spec fn with_body(m: IndexModel, k: int, body: Seq<char>) -> IndexModel {
    IndexModel { notes: m.notes.update(k, NoteModel { body, ..m.notes[k] }), ..m }
}

/// The text of a private note leaves no trace: rewriting it changes nothing that is written out,
/// nor the count of held-back edges, as long as the note stays private.
pub proof fn law_private_text_leaves_no_trace(
    m: IndexModel,
    repos: Seq<Seq<char>>,
    k: int,
    body: Seq<char>,
)
    requires
        index_ok(m),
        0 <= k < m.notes.len(),
        !published(m.notes[k].body),
        !published(body),
    ensures
        plan_of(m, repos) == plan_of(with_body(m, k, body), repos),
{
    let n = with_body(m, k, body);
    assert(forall|j: int|
        0 <= j < m.notes.len() ==> (#[trigger] n.notes[j]).node_id == m.notes[j].node_id
            && n.notes[j].note_date == m.notes[j].note_date);
    assert(notes_sorted(n.notes));
    assert forall|id: int| #[trigger] has_note(m.notes, id) == has_note(n.notes, id) by {
        if has_note(m.notes, id) {
            let j = choose|j: int| 0 <= j < m.notes.len() && (#[trigger] m.notes[j]).node_id == id;
            assert(n.notes[j].node_id == id);
        }
        if has_note(n.notes, id) {
            let j = choose|j: int| 0 <= j < n.notes.len() && (#[trigger] n.notes[j]).node_id == id;
            assert(m.notes[j].node_id == id);
        }
    }
    assert forall|i: int| #[trigger] public_note(m, i) == public_note(n, i) && (public_note(m, i)
        ==> note_item(m, i) == note_item(n, i)) by {
        let id = m.nodes[i].id;
        assert(has_note(m.notes, id) == has_note(n.notes, id));
        if has_note(m.notes, id) {
            let j = note_place(m.notes, id);
            lemma_note_place(m.notes, j);
            lemma_note_place(n.notes, j);
            if j != k {
                assert(n.notes[j] == m.notes[j]);
            }
        }
    }
    assert forall|path: Seq<char>| #[trigger] public_path(m, path) == public_path(n, path) by {
        if public_path(m, path) {
            let j = choose|j: int|
                0 <= j < m.nodes.len() && #[trigger] public_note(m, j) && m.nodes[j].name == path;
            assert(public_note(n, j));
        }
        if public_path(n, path) {
            let j = choose|j: int|
                0 <= j < n.nodes.len() && #[trigger] public_note(n, j) && n.nodes[j].name == path;
            assert(public_note(m, j));
        }
    }
    assert forall|i: int| #[trigger] public_seed(m, repos, i) == public_seed(n, repos, i) by {
        assert(public_note(m, i) == public_note(n, i));
        if m.nodes[i].path is Some {
            assert(public_path(m, m.nodes[i].path->0) == public_path(n, m.nodes[i].path->0));
        }
    }
    assert forall|i: int| #[trigger] public_entity(m, repos, i) == public_entity(n, repos, i) by {
        if referenced(m, repos, i, m.edges.len() as int) {
            let x = choose|x: int|
                0 <= x < m.edges.len() && #[trigger] refers_to(m, repos, m.edges[x], i);
            assert(refers_to(n, repos, n.edges[x], i));
        }
        if referenced(n, repos, i, n.edges.len() as int) {
            let x = choose|x: int|
                0 <= x < n.edges.len() && #[trigger] refers_to(n, repos, n.edges[x], i);
            assert(refers_to(m, repos, m.edges[x], i));
        }
    }
    assert forall|i: int| #[trigger] public_node(m, repos, i) == public_node(n, repos, i) by {
        assert(public_seed(m, repos, i) == public_seed(n, repos, i));
        assert(public_entity(m, repos, i) == public_entity(n, repos, i));
    }
    assert(note_flags(m) =~= note_flags(n));
    assert(project_flags(m, repos) =~= project_flags(n, repos));
    assert forall|i: int| #[trigger] public_loop(m, i) == public_loop(n, i) by {
        if m.nodes[i].path is Some {
            assert(public_path(m, m.nodes[i].path->0) == public_path(n, m.nodes[i].path->0));
        }
    }
    assert(loop_flags(m) =~= loop_flags(n));
    assert(entity_flags(m, repos) =~= entity_flags(n, repos));
    assert(edge_flags(m, repos) =~= edge_flags(n, repos));
    assert(half_flags(m, repos) =~= half_flags(n, repos));
    lemma_by_name(m.nodes, note_flags(m));
    assert forall|x: int| 0 <= x < plan_notes(m).len() implies plan_notes(m)[x]
        == #[trigger] plan_notes(n)[x] by {
        let i = by_name(m.nodes, note_flags(m))[x];
        assert(note_flags(m)[i]);
        assert(public_note(m, i));
    }
    assert(plan_notes(m) =~= plan_notes(n));
    assert(plan_projects(m, repos) =~= plan_projects(n, repos));
    assert(plan_loops(m) =~= plan_loops(n));
    assert(plan_entities(m, repos) =~= plan_entities(n, repos));
    let picks = picked(edge_flags(m, repos));
    assert(edge_keys(m, picks) =~= edge_keys(n, picks));
    assert(plan_edges(m, repos) =~= plan_edges(n, repos));
}

/// Publishing one more note takes nothing back: projects stay as they are, the notes, loops,
/// entities and edges that were listed stay listed as they were, and the one note that is added is
/// that note.
pub proof fn law_publishing_a_note_only_adds(
    m: IndexModel,
    repos: Seq<Seq<char>>,
    k: int,
    body: Seq<char>,
)
    requires
        index_ok(m),
        0 <= k < m.notes.len(),
        !published(m.notes[k].body),
        published(body),
    ensures
        ({
            let before = plan_of(m, repos);
            let after = plan_of(with_body(m, k, body), repos);
            &&& after.projects == before.projects
            &&& forall|x: PlanNoteModel| #[trigger]
                before.notes.contains(x) ==> after.notes.contains(x)
            &&& forall|x: PlanLoopModel| #[trigger]
                before.loops.contains(x) ==> after.loops.contains(x)
            &&& forall|x: PlanEntityModel| #[trigger]
                before.entities.contains(x) ==> after.entities.contains(x)
            &&& forall|x: PlanEdgeModel| #[trigger]
                before.edges.contains(x) ==> after.edges.contains(x)
            &&& forall|x: PlanNoteModel| #[trigger]
                after.notes.contains(x) ==> before.notes.contains(x) || x.path == node_by_id(
                    m.nodes,
                    m.notes[k].node_id,
                ).name && x.body == body
        }),
{
    let n = with_body(m, k, body);
    assert(forall|j: int|
        0 <= j < m.notes.len() ==> (#[trigger] n.notes[j]).node_id == m.notes[j].node_id
            && n.notes[j].note_date == m.notes[j].note_date);
    assert(notes_sorted(n.notes));
    assert forall|id: int| #[trigger] has_note(m.notes, id) == has_note(n.notes, id) by {
        if has_note(m.notes, id) {
            let j = choose|j: int| 0 <= j < m.notes.len() && (#[trigger] m.notes[j]).node_id == id;
            assert(n.notes[j].node_id == id);
        }
        if has_note(n.notes, id) {
            let j = choose|j: int| 0 <= j < n.notes.len() && (#[trigger] n.notes[j]).node_id == id;
            assert(m.notes[j].node_id == id);
        }
    }
    assert forall|i: int|
        #![trigger public_note(m, i)]
        #![trigger public_note(n, i)]
        (public_note(m, i) ==> public_note(n, i) && note_item(m, i) == note_item(n, i)) && (
        public_note(n, i) ==> public_note(m, i) && note_item(m, i) == note_item(n, i)
            || m.nodes[i].id == m.notes[k].node_id && note_item(n, i).body == body) by {
        let id = m.nodes[i].id;
        assert(has_note(m.notes, id) == has_note(n.notes, id));
        if has_note(m.notes, id) {
            let j = note_place(m.notes, id);
            lemma_note_place(m.notes, j);
            lemma_note_place(n.notes, j);
            if j != k {
                assert(n.notes[j] == m.notes[j]);
            }
        }
    }
    assert forall|path: Seq<char>| #[trigger] public_path(m, path) implies public_path(n, path) by {
        let j = choose|j: int|
            0 <= j < m.nodes.len() && #[trigger] public_note(m, j) && m.nodes[j].name == path;
        assert(public_note(n, j));
    }
    assert forall|i: int| #[trigger] public_loop(m, i) implies public_loop(n, i) by {
        assert(public_path(n, m.nodes[i].path->0));
    }
    assert forall|i: int| #[trigger] public_seed(m, repos, i) implies public_seed(n, repos, i) by {
        if public_loop(m, i) {
            assert(public_loop(n, i));
        }
    }
    assert forall|i: int| #[trigger] public_entity(m, repos, i) implies public_entity(
        n,
        repos,
        i,
    ) by {
        let x = choose|x: int|
            0 <= x < m.edges.len() && #[trigger] refers_to(m, repos, m.edges[x], i);
        assert(refers_to(n, repos, n.edges[x], i));
    }
    lemma_by_name(m.nodes, note_flags(m));
    lemma_by_name(n.nodes, note_flags(n));
    lemma_by_name(m.nodes, loop_flags(m));
    lemma_by_name(n.nodes, loop_flags(n));
    lemma_by_name(m.nodes, entity_flags(m, repos));
    lemma_by_name(n.nodes, entity_flags(n, repos));
    assert(project_flags(m, repos) =~= project_flags(n, repos));
    assert(plan_projects(m, repos) =~= plan_projects(n, repos));
    assert forall|x: PlanNoteModel| #[trigger] plan_notes(m).contains(x) implies plan_notes(
        n,
    ).contains(x) by {
        let at = choose|at: int| 0 <= at < plan_notes(m).len() && plan_notes(m)[at] == x;
        let i = by_name(m.nodes, note_flags(m))[at];
        assert(note_flags(m)[i] && public_note(m, i));
        assert(note_flags(n)[i]);
        let order = by_name(n.nodes, note_flags(n));
        assert(order.contains(i));
        let to = choose|to: int| 0 <= to < order.len() && order[to] == i;
        assert(plan_notes(n)[to] == x);
    }
    assert forall|x: PlanNoteModel| #[trigger] plan_notes(n).contains(x) implies plan_notes(
        m,
    ).contains(x) || x.path == node_by_id(m.nodes, m.notes[k].node_id).name && x.body == body by {
        let at = choose|at: int| 0 <= at < plan_notes(n).len() && plan_notes(n)[at] == x;
        let i = by_name(n.nodes, note_flags(n))[at];
        assert(note_flags(n)[i] && public_note(n, i));
        if public_note(m, i) && note_item(m, i) == note_item(n, i) {
            assert(note_flags(m)[i]);
            let order = by_name(m.nodes, note_flags(m));
            assert(order.contains(i));
            let to = choose|to: int| 0 <= to < order.len() && order[to] == i;
            assert(plan_notes(m)[to] == x);
        } else {
            lemma_node_place(m.nodes, i);
        }
    }
    assert forall|x: PlanLoopModel| #[trigger] plan_loops(m).contains(x) implies plan_loops(
        n,
    ).contains(x) by {
        let at = choose|at: int| 0 <= at < plan_loops(m).len() && plan_loops(m)[at] == x;
        let i = by_name(m.nodes, loop_flags(m))[at];
        assert(loop_flags(m)[i] && public_loop(m, i));
        assert(loop_flags(n)[i]);
        let order = by_name(n.nodes, loop_flags(n));
        assert(order.contains(i));
        let to = choose|to: int| 0 <= to < order.len() && order[to] == i;
        assert(plan_loops(n)[to] == x);
    }
    assert forall|x: PlanEntityModel| #[trigger]
        plan_entities(m, repos).contains(x) implies plan_entities(n, repos).contains(x) by {
        let at = choose|at: int|
            0 <= at < plan_entities(m, repos).len() && plan_entities(m, repos)[at] == x;
        let i = by_name(m.nodes, entity_flags(m, repos))[at];
        assert(entity_flags(m, repos)[i] && public_entity(m, repos, i));
        assert(entity_flags(n, repos)[i]);
        let order = by_name(n.nodes, entity_flags(n, repos));
        assert(order.contains(i));
        let to = choose|to: int| 0 <= to < order.len() && order[to] == i;
        assert(plan_entities(n, repos)[to] == x);
    }
    assert forall|x: PlanEdgeModel| #[trigger] plan_edges(m, repos).contains(x) implies plan_edges(
        n,
        repos,
    ).contains(x) by {
        let fm = edge_flags(m, repos);
        let gm = edge_flags(n, repos);
        lemma_edge_order(m, repos);
        lemma_edge_order(n, repos);
        let at = choose|at: int|
            0 <= at < plan_edges(m, repos).len() && plan_edges(m, repos)[at] == x;
        let e = edge_order(m, repos)[at];
        assert(fm[e]);
        let s = node_place(m.nodes, m.edges[e].src);
        let d = node_place(m.nodes, m.edges[e].dst);
        assert(public_node(m, repos, s) && public_node(m, repos, d));
        assert(public_seed(m, repos, s) || public_entity(m, repos, s));
        assert(public_seed(m, repos, d) || public_entity(m, repos, d));
        assert(gm[e]);
        assert(edge_order(n, repos).contains(e));
        let to = choose|to: int|
            0 <= to < edge_order(n, repos).len() && edge_order(n, repos)[to] == e;
        assert(plan_edges(n, repos)[to] == x);
    }
}

/// The manifest is ordered: notes by path; projects, entities and loops by name. Where no two nodes
/// share their kind and name, as in a rebuilt index, none of these comes twice.
pub proof fn law_plan_is_ordered(m: IndexModel, repos: Seq<Seq<char>>)
    ensures
        forall|k: int, l: int|
            0 <= k < l < plan_of(m, repos).notes.len() ==> text_le(
                (#[trigger] plan_of(m, repos).notes[k]).path,
                (#[trigger] plan_of(m, repos).notes[l]).path,
            ),
        forall|k: int, l: int|
            0 <= k < l < plan_of(m, repos).projects.len() ==> text_le(
                (#[trigger] plan_of(m, repos).projects[k]).name,
                (#[trigger] plan_of(m, repos).projects[l]).name,
            ),
        forall|k: int, l: int|
            0 <= k < l < plan_of(m, repos).entities.len() ==> text_le(
                (#[trigger] plan_of(m, repos).entities[k]).name,
                (#[trigger] plan_of(m, repos).entities[l]).name,
            ),
        forall|k: int, l: int|
            0 <= k < l < plan_of(m, repos).loops.len() ==> text_le(
                (#[trigger] plan_of(m, repos).loops[k]).name,
                (#[trigger] plan_of(m, repos).loops[l]).name,
            ),
        distinct_nodes(m.nodes) ==> {
            &&& forall|k: int, l: int|
                0 <= k < l < plan_of(m, repos).notes.len() ==> (#[trigger] plan_of(
                    m,
                    repos,
                ).notes[k]).path != (#[trigger] plan_of(m, repos).notes[l]).path
            &&& forall|k: int, l: int|
                0 <= k < l < plan_of(m, repos).projects.len() ==> (#[trigger] plan_of(
                    m,
                    repos,
                ).projects[k]).name != (#[trigger] plan_of(m, repos).projects[l]).name
            &&& forall|k: int, l: int|
                0 <= k < l < plan_of(m, repos).entities.len() ==> (#[trigger] plan_of(
                    m,
                    repos,
                ).entities[k]).name != (#[trigger] plan_of(m, repos).entities[l]).name
            &&& forall|k: int, l: int|
                0 <= k < l < plan_of(m, repos).loops.len() ==> (#[trigger] plan_of(
                    m,
                    repos,
                ).loops[k]).name != (#[trigger] plan_of(m, repos).loops[l]).name
        },
{
    if distinct_nodes(m.nodes) {
        lemma_by_name_once(m.nodes, note_flags(m), "note"@);
        lemma_by_name_once(m.nodes, project_flags(m, repos), "project"@);
        lemma_by_name_once(m.nodes, entity_flags(m, repos), "entity"@);
        lemma_by_name_once(m.nodes, loop_flags(m), "loop"@);
    }
    lemma_by_name(m.nodes, note_flags(m));
    lemma_by_name(m.nodes, project_flags(m, repos));
    lemma_by_name(m.nodes, entity_flags(m, repos));
    lemma_by_name(m.nodes, loop_flags(m));
}

/// The key of an edge entry: the kinds and names of its ends, and its kind.
pub open spec fn entry_key(item: PlanEdgeModel) -> KeyModel {
    seq![
        PartModel::Text(item.src_kind),
        PartModel::Text(item.src_name),
        PartModel::Text(item.dst_kind),
        PartModel::Text(item.dst_name),
        PartModel::Text(item.kind),
    ]
}

proof fn lemma_key_prefix(a: KeyModel, b: KeyModel, n: int)
    requires
        key_le(a, b),
        0 <= n <= a.len(),
        n <= b.len(),
    ensures
        key_le(a.take(n), b.take(n)),
    decreases n,
{
    if n > 0 {
        assert(a.take(n).skip(1) =~= a.skip(1).take(n - 1));
        assert(b.take(n).skip(1) =~= b.skip(1).take(n - 1));
        if key_le(a.skip(1), b.skip(1)) {
            lemma_key_prefix(a.skip(1), b.skip(1), n - 1);
        }
    }
}

/// The edges of the manifest are ordered by the kinds and names of their ends and their kind,
/// whatever the order of the rows in the index.
pub proof fn law_edges_are_ordered(m: IndexModel, repos: Seq<Seq<char>>)
    ensures
        forall|k: int, l: int|
            0 <= k < l < plan_of(m, repos).edges.len() ==> key_le(
                entry_key(#[trigger] plan_of(m, repos).edges[k]),
                entry_key(#[trigger] plan_of(m, repos).edges[l]),
            ),
{
    let flags = edge_flags(m, repos);
    let picks = picked(flags);
    let keys = edge_keys(m, picks);
    lemma_edge_order(m, repos);
    lemma_ordered(picks, keys);
    let order = order_of(keys);
    assert forall|k: int, l: int| 0 <= k < l < plan_edges(m, repos).len() implies key_le(
        entry_key(#[trigger] plan_edges(m, repos)[k]),
        entry_key(#[trigger] plan_edges(m, repos)[l]),
    ) by {
        assert(before(keys, order[k], order[l]));
        let a = keys[order[k]];
        let b = keys[order[l]];
        lemma_key_prefix(a, b, 5);
        assert(edge_order(m, repos)[k] == picks[order[k]]);
        assert(edge_order(m, repos)[l] == picks[order[l]]);
        assert(a.take(5) =~= entry_key(plan_edges(m, repos)[k]));
        assert(b.take(5) =~= entry_key(plan_edges(m, repos)[l]));
    }
}

proof fn lemma_flag_of_link(
    path: Seq<char>,
    targets: Seq<Seq<char>>,
    names: Seq<Seq<char>>,
    n: int,
    t: int,
)
    requires
        0 <= t < n <= targets.len(),
        !names.contains(canonical(targets[t])),
    ensures
        flags_of_links(path, targets, names, n).contains(flag_item(path, targets[t])),
    decreases n,
{
    let flags = flags_of_links(path, targets, names, n);
    let rest = flags_of_links(path, targets, names, n - 1);
    if t == n - 1 {
        assert(flags[rest.len() as int] == flag_item(path, targets[t]));
    } else {
        lemma_flag_of_link(path, targets, names, n - 1, t);
        let k = choose|k: int| 0 <= k < rest.len() && rest[k] == flag_item(path, targets[t]);
        assert(flags[k] == rest[k]);
    }
}

proof fn lemma_flag_of_note(
    notes: Seq<PlanNoteModel>,
    names: Seq<Seq<char>>,
    n: int,
    i: int,
    t: int,
)
    requires
        0 <= i < n <= notes.len(),
        0 <= t < prose_links(notes[i].body).len(),
        !names.contains(canonical(prose_links(notes[i].body)[t])),
    ensures
        flags_upto(notes, names, n).contains(
            flag_item(notes[i].path, prose_links(notes[i].body)[t]),
        ),
    decreases n,
{
    let rest = flags_upto(notes, names, n - 1);
    let links = prose_links(notes[n - 1].body);
    let more = flags_of_links(notes[n - 1].path, links, names, links.len() as int);
    let flags = flags_upto(notes, names, n);
    let item = flag_item(notes[i].path, prose_links(notes[i].body)[t]);
    assert(flags == rest + more);
    if i == n - 1 {
        lemma_flag_of_link(notes[i].path, links, names, links.len() as int, t);
        let k = choose|k: int| 0 <= k < more.len() && more[k] == item;
        assert(flags[rest.len() + k] == item);
    } else {
        lemma_flag_of_note(notes, names, n - 1, i, t);
        let k = choose|k: int| 0 <= k < rest.len() && rest[k] == item;
        assert(flags[k] == item);
    }
}

/// A wiki link in published prose is flagged unless its target is a published project. That an
/// entity of that name is published does not count.
pub proof fn law_links_to_private_targets_are_flagged(
    m: IndexModel,
    repos: Seq<Seq<char>>,
    i: int,
    t: int,
)
    requires
        0 <= i < plan_of(m, repos).notes.len(),
        0 <= t < prose_links(plan_of(m, repos).notes[i].body).len(),
        !project_names(plan_of(m, repos).projects).contains(
            canonical(prose_links(plan_of(m, repos).notes[i].body)[t]),
        ),
    ensures
        plan_of(m, repos).flags.contains(
            flag_item(
                plan_of(m, repos).notes[i].path,
                prose_links(plan_of(m, repos).notes[i].body)[t],
            ),
        ),
{
    let p = plan_of(m, repos);
    let names = project_names(p.projects);
    let flags = flags_upto(p.notes, names, p.notes.len() as int);
    lemma_flag_of_note(p.notes, names, p.notes.len() as int, i, t);
    assert(keys_ok(flag_keys(flags)));
    lemma_ordered(flags, flag_keys(flags));
}

} // verus!
