//! What the publish manifest says, row by row of the index: which nodes and edges are listed, and
//! what is listed of each.

use vstd::prelude::*;

use crate::extract::{canonical, canonicals, extraction_of};
use crate::json::{json_of, text_field, without_field};
use crate::order::{before, key_le, keys_ok, lemma_text_le_total, order_of, text_le, PartModel};
use crate::publish::{
    allowlisted, by_name, edge_flags, edge_order, entity_flags, flag_item, flag_keys,
    flags_of_links, flags_upto, half_flags, law_links_to_private_targets_are_flagged, lemma_by_name,
    lemma_edge_order, loop_flags, note_flags, plan_of, project_flags, project_names, prose_links,
    public_entity, public_id, public_loop, public_note, public_path, public_project, published,
    refers_to, PlanEdgeModel, PlanEntityModel, PlanFlagModel, PlanLoopModel, PlanNoteModel,
    PlanProjectModel,
};
use crate::select::{lemma_ordered, lemma_picked_count};
use crate::store::{
    has_node, index_ok, lemma_node_place, lemma_note_place, node_place, note_place, IndexModel,
};

verus! {

/// Whether a name is that of a repo on the allowlist.
pub open spec fn consented(repos: Seq<Seq<char>>, name: Seq<char>) -> bool {
    exists|q: int| 0 <= q < repos.len() && canonical(#[trigger] repos[q]) == canonical(name)
}

/// Whether node `i` is a note whose text opts in.
pub open spec fn shown_note(m: IndexModel, i: int) -> bool {
    &&& m.nodes[i].kind == "note"@
    &&& exists|n: int|
        0 <= n < m.notes.len() && (#[trigger] m.notes[n]).node_id == m.nodes[i].id && published(
            m.notes[n].body,
        )
}

/// Whether node `i` is a project on the allowlist.
pub open spec fn shown_project(m: IndexModel, repos: Seq<Seq<char>>, i: int) -> bool {
    m.nodes[i].kind == "project"@ && consented(repos, m.nodes[i].name)
}

/// Whether node `i` is a loop whose path is that of a note that is shown.
pub open spec fn shown_loop(m: IndexModel, i: int) -> bool {
    &&& m.nodes[i].kind == "loop"@
    &&& exists|j: int|
        0 <= j < m.nodes.len() && #[trigger] shown_note(m, j) && m.nodes[i].path == Some(
            m.nodes[j].name,
        )
}

/// Whether edge `e` leads from node `s`, a note or a project that is shown, to node `i`.
pub open spec fn brings_along(
    m: IndexModel,
    repos: Seq<Seq<char>>,
    e: int,
    s: int,
    i: int,
) -> bool {
    &&& 0 <= e < m.edges.len()
    &&& 0 <= s < m.nodes.len()
    &&& m.edges[e].src == m.nodes[s].id
    &&& m.edges[e].dst == m.nodes[i].id
    &&& shown_note(m, s) || shown_project(m, repos, s)
}

/// Whether node `i` is an entity that a note or project that is shown links to, and whose repo,
/// where it names one, is on the allowlist.
pub open spec fn shown_entity(m: IndexModel, repos: Seq<Seq<char>>, i: int) -> bool {
    &&& m.nodes[i].kind == "entity"@
    &&& exists|e: int, s: int| #[trigger] brings_along(m, repos, e, s, i)
    &&& text_field(m.nodes[i].meta, "repo"@) matches Some(repo) ==> consented(repos, repo)
}

/// Whether node `i` is shown.
pub open spec fn shown(m: IndexModel, repos: Seq<Seq<char>>, i: int) -> bool {
    shown_note(m, i) || shown_project(m, repos, i) || shown_loop(m, i) || shown_entity(m, repos, i)
}

/// Whether there is a node `id` and it is shown.
pub open spec fn shown_id(m: IndexModel, repos: Seq<Seq<char>>, id: int) -> bool {
    exists|i: int| 0 <= i < m.nodes.len() && (#[trigger] m.nodes[i]).id == id && shown(m, repos, i)
}

proof fn lemma_consented(repos: Seq<Seq<char>>, name: Seq<char>)
    ensures
        allowlisted(repos, name) <==> consented(repos, name),
{
    let all = canonicals(repos);
    if all.contains(canonical(name)) {
        let q = choose|q: int| 0 <= q < all.len() && all[q] == canonical(name);
        assert(canonical(repos[q]) == canonical(name));
    }
    if consented(repos, name) {
        let q = choose|q: int|
            0 <= q < repos.len() && canonical(#[trigger] repos[q]) == canonical(name);
        assert(all[q] == canonical(name));
    }
}

proof fn lemma_shown_note(m: IndexModel, i: int)
    requires
        index_ok(m),
    ensures
        public_note(m, i) <==> shown_note(m, i),
{
    let id = m.nodes[i].id;
    if public_note(m, i) {
        let n = note_place(m.notes, id);
        assert(m.notes[n].node_id == id);
    }
    if shown_note(m, i) {
        let n = choose|n: int|
            0 <= n < m.notes.len() && (#[trigger] m.notes[n]).node_id == id && published(
                m.notes[n].body,
            );
        lemma_note_place(m.notes, n);
    }
}

proof fn lemma_shown_project(m: IndexModel, repos: Seq<Seq<char>>, i: int)
    ensures
        public_project(m, repos, i) <==> shown_project(m, repos, i),
{
    lemma_consented(repos, m.nodes[i].name);
}

proof fn lemma_shown_loop(m: IndexModel, i: int)
    requires
        index_ok(m),
    ensures
        public_loop(m, i) <==> shown_loop(m, i),
{
    if public_loop(m, i) {
        let path = m.nodes[i].path->0;
        let j = choose|j: int|
            0 <= j < m.nodes.len() && #[trigger] public_note(m, j) && m.nodes[j].name == path;
        lemma_shown_note(m, j);
        assert(shown_note(m, j));
    }
    if shown_loop(m, i) {
        let j = choose|j: int|
            0 <= j < m.nodes.len() && #[trigger] shown_note(m, j) && m.nodes[i].path == Some(
                m.nodes[j].name,
            );
        lemma_shown_note(m, j);
        assert(public_note(m, j));
        assert(public_path(m, m.nodes[j].name));
    }
}

proof fn lemma_shown_entity(m: IndexModel, repos: Seq<Seq<char>>, i: int)
    requires
        index_ok(m),
        0 <= i < m.nodes.len(),
    ensures
        public_entity(m, repos, i) <==> shown_entity(m, repos, i),
{
    if let Some(repo) = text_field(m.nodes[i].meta, "repo"@) {
        lemma_consented(repos, repo);
    }
    if public_entity(m, repos, i) {
        let e = choose|e: int|
            0 <= e < m.edges.len() && #[trigger] refers_to(m, repos, m.edges[e], i);
        assert(has_node(m.nodes, m.edges[e].src));
        let s = node_place(m.nodes, m.edges[e].src);
        lemma_shown_note(m, s);
        lemma_shown_project(m, repos, s);
        assert(brings_along(m, repos, e, s, i));
    }
    if shown_entity(m, repos, i) {
        let (e, s) = choose|e: int, s: int| #[trigger] brings_along(m, repos, e, s, i);
        lemma_node_place(m.nodes, s);
        lemma_shown_note(m, s);
        lemma_shown_project(m, repos, s);
        assert(refers_to(m, repos, m.edges[e], i));
    }
}

proof fn lemma_shown_id(m: IndexModel, repos: Seq<Seq<char>>, id: int)
    requires
        index_ok(m),
        has_node(m.nodes, id),
    ensures
        public_id(m, repos, id) <==> shown_id(m, repos, id),
{
    let p = node_place(m.nodes, id);
    assert(m.nodes[p].id == id);
    lemma_shown_note(m, p);
    lemma_shown_project(m, repos, p);
    lemma_shown_loop(m, p);
    lemma_shown_entity(m, repos, p);
    if shown_id(m, repos, id) {
        let i = choose|i: int|
            0 <= i < m.nodes.len() && (#[trigger] m.nodes[i]).id == id && shown(m, repos, i);
        lemma_node_place(m.nodes, i);
    }
}

/// Whether a note entry says what note node `i` with note row `n` holds, and that note is shown.
pub open spec fn is_note_entry(m: IndexModel, i: int, n: int, item: PlanNoteModel) -> bool {
    &&& 0 <= i < m.nodes.len()
    &&& 0 <= n < m.notes.len()
    &&& shown_note(m, i)
    &&& m.notes[n].node_id == m.nodes[i].id
    &&& item.path == m.nodes[i].name
    &&& item.note_date == m.notes[n].note_date
    &&& item.body == m.notes[n].body
}

/// Whether an entry is that of a note of the index that is shown.
pub open spec fn from_note(m: IndexModel, item: PlanNoteModel) -> bool {
    exists|i: int, n: int| is_note_entry(m, i, n, item)
}

/// The notes of the manifest: for every note that opts in, one entry with its path, its date and
/// its text, and no others.
pub proof fn law_manifest_notes(m: IndexModel, repos: Seq<Seq<char>>)
    requires
        index_ok(m),
    ensures
        forall|i: int, n: int|
            0 <= i < m.nodes.len() && #[trigger] shown_note(m, i) && 0 <= n < m.notes.len() && (
            #[trigger] m.notes[n]).node_id == m.nodes[i].id ==> exists|k: int|
                0 <= k < plan_of(m, repos).notes.len() && is_note_entry(
                    m,
                    i,
                    n,
                    #[trigger] plan_of(m, repos).notes[k],
                ),
        forall|k: int|
            0 <= k < plan_of(m, repos).notes.len() ==> from_note(
                m,
                #[trigger] plan_of(m, repos).notes[k],
            ),
        plan_of(m, repos).notes.len() == Set::new(
            |i: int| 0 <= i < m.nodes.len() && shown_note(m, i),
        ).len(),
{
    let p = plan_of(m, repos);
    let flags = note_flags(m);
    let order = by_name(m.nodes, flags);
    lemma_by_name(m.nodes, flags);
    assert forall|i: int, n: int|
        0 <= i < m.nodes.len() && #[trigger] shown_note(m, i) && 0 <= n < m.notes.len() && (
        #[trigger] m.notes[n]).node_id == m.nodes[i].id implies exists|k: int|
        0 <= k < p.notes.len() && is_note_entry(m, i, n, #[trigger] p.notes[k]) by {
        lemma_shown_note(m, i);
        lemma_note_place(m.notes, n);
        assert(flags[i]);
        assert(order.contains(i));
        let k = choose|k: int| 0 <= k < order.len() && order[k] == i;
        assert(is_note_entry(m, i, n, p.notes[k]));
    }
    assert forall|k: int| 0 <= k < p.notes.len() implies from_note(m, #[trigger] p.notes[k]) by {
        let i = order[k];
        assert(flags[i] && public_note(m, i));
        lemma_shown_note(m, i);
        let n = note_place(m.notes, m.nodes[i].id);
        assert(is_note_entry(m, i, n, p.notes[k]));
    }
    let places = Set::new(|i: int| 0 <= i < m.nodes.len() && shown_note(m, i));
    assert forall|i: int| #[trigger] places.contains(i) <==> 0 <= i < flags.len() && flags[i] by {
        lemma_shown_note(m, i);
    }
    lemma_picked_count(flags, places);
}

/// Whether a project entry says what project node `i` holds, and that project is shown.
pub open spec fn is_project_entry(
    m: IndexModel,
    repos: Seq<Seq<char>>,
    i: int,
    item: PlanProjectModel,
) -> bool {
    &&& 0 <= i < m.nodes.len()
    &&& shown_project(m, repos, i)
    &&& item.name == m.nodes[i].name
    &&& is_git_of(item.git, m.nodes[i].meta)
}

/// Whether an entry is that of a project of the index that is shown.
pub open spec fn from_project(m: IndexModel, repos: Seq<Seq<char>>, item: PlanProjectModel) -> bool {
    exists|i: int| is_project_entry(m, repos, i, item)
}

/// The projects of the manifest: for every project on the allowlist, one entry with its name and
/// its metadata without the stamps of the git cache, and no others.
pub proof fn law_manifest_projects(m: IndexModel, repos: Seq<Seq<char>>)
    ensures
        forall|i: int|
            0 <= i < m.nodes.len() && #[trigger] shown_project(m, repos, i) ==> exists|k: int|
                0 <= k < plan_of(m, repos).projects.len() && is_project_entry(
                    m,
                    repos,
                    i,
                    #[trigger] plan_of(m, repos).projects[k],
                ),
        forall|k: int|
            0 <= k < plan_of(m, repos).projects.len() ==> from_project(
                m,
                repos,
                #[trigger] plan_of(m, repos).projects[k],
            ),
        plan_of(m, repos).projects.len() == Set::new(
            |i: int| 0 <= i < m.nodes.len() && shown_project(m, repos, i),
        ).len(),
{
    let p = plan_of(m, repos);
    let flags = project_flags(m, repos);
    let order = by_name(m.nodes, flags);
    lemma_by_name(m.nodes, flags);
    assert forall|i: int| 0 <= i < m.nodes.len() && #[trigger] shown_project(m, repos, i) implies exists|
        k: int,
    |
        0 <= k < p.projects.len() && is_project_entry(m, repos, i, #[trigger] p.projects[k]) by {
        lemma_shown_project(m, repos, i);
        assert(flags[i]);
        assert(order.contains(i));
        let k = choose|k: int| 0 <= k < order.len() && order[k] == i;
        assert(is_project_entry(m, repos, i, p.projects[k]));
    }
    assert forall|k: int| 0 <= k < p.projects.len() implies from_project(
        m,
        repos,
        #[trigger] p.projects[k],
    ) by {
        let i = order[k];
        assert(flags[i]);
        lemma_shown_project(m, repos, i);
        assert(is_project_entry(m, repos, i, p.projects[k]));
    }
    let places = Set::new(|i: int| 0 <= i < m.nodes.len() && shown_project(m, repos, i));
    assert forall|i: int| #[trigger] places.contains(i) <==> 0 <= i < flags.len() && flags[i] by {
        lemma_shown_project(m, repos, i);
    }
    lemma_picked_count(flags, places);
}

/// Whether a text is metadata without the members `fingerprint` and `git_fingerprint` where that is
/// an object, `null` where it is not JSON, and the metadata itself otherwise.
pub open spec fn is_git_of(git: Seq<char>, meta: Seq<char>) -> bool {
    &&& json_of(meta) is Invalid ==> git == "null"@
    &&& json_of(meta) is Fields ==> git == without_field(
        without_field(meta, "fingerprint"@),
        "git_fingerprint"@,
    )
    &&& !(json_of(meta) is Invalid) && !(json_of(meta) is Fields) ==> git == meta
}

/// Whether an entry is that of a loop of the index that is shown.
pub open spec fn from_loop(m: IndexModel, item: PlanLoopModel) -> bool {
    exists|i: int| is_loop_entry(m, i, item)
}

/// The loops of the manifest: for every loop of a note that is shown, one entry with its name, the
/// path of the note, and the text and section that its metadata holds, and no others.
pub proof fn law_manifest_loops(m: IndexModel, repos: Seq<Seq<char>>)
    requires
        index_ok(m),
    ensures
        forall|i: int|
            0 <= i < m.nodes.len() && #[trigger] shown_loop(m, i) ==> exists|k: int|
                0 <= k < plan_of(m, repos).loops.len() && is_loop_entry(
                    m,
                    i,
                    #[trigger] plan_of(m, repos).loops[k],
                ),
        forall|k: int|
            0 <= k < plan_of(m, repos).loops.len() ==> from_loop(
                m,
                #[trigger] plan_of(m, repos).loops[k],
            ),
        plan_of(m, repos).loops.len() == Set::new(
            |i: int| 0 <= i < m.nodes.len() && shown_loop(m, i),
        ).len(),
{
    let p = plan_of(m, repos);
    let flags = loop_flags(m);
    let order = by_name(m.nodes, flags);
    lemma_by_name(m.nodes, flags);
    assert forall|i: int| 0 <= i < m.nodes.len() && #[trigger] shown_loop(m, i) implies exists|
        k: int,
    |
        0 <= k < p.loops.len() && is_loop_entry(m, i, #[trigger] p.loops[k]) by {
        lemma_shown_loop(m, i);
        assert(flags[i]);
        assert(order.contains(i));
        let k = choose|k: int| 0 <= k < order.len() && order[k] == i;
        assert(is_loop_entry(m, i, p.loops[k]));
    }
    assert forall|k: int| 0 <= k < p.loops.len() implies from_loop(m, #[trigger] p.loops[k]) by {
        let i = order[k];
        assert(flags[i]);
        lemma_shown_loop(m, i);
        assert(is_loop_entry(m, i, p.loops[k]));
    }
    let places = Set::new(|i: int| 0 <= i < m.nodes.len() && shown_loop(m, i));
    assert forall|i: int| #[trigger] places.contains(i) <==> 0 <= i < flags.len() && flags[i] by {
        lemma_shown_loop(m, i);
    }
    lemma_picked_count(flags, places);
}

/// Whether a loop entry says what loop node `i` holds, and that loop is shown.
pub open spec fn is_loop_entry(m: IndexModel, i: int, item: PlanLoopModel) -> bool {
    &&& 0 <= i < m.nodes.len()
    &&& shown_loop(m, i)
    &&& item.name == m.nodes[i].name
    &&& m.nodes[i].path == Some(item.note_path)
    &&& match text_field(m.nodes[i].meta, "text"@) {
        Some(text) => item.text == text,
        None => item.text == ""@,
    }
    &&& item.section == text_field(m.nodes[i].meta, "section"@)
}

/// Whether an entity entry says what entity node `i` holds, `null` for metadata that is not JSON,
/// and that entity is shown.
pub open spec fn is_entity_entry(
    m: IndexModel,
    repos: Seq<Seq<char>>,
    i: int,
    item: PlanEntityModel,
) -> bool {
    &&& 0 <= i < m.nodes.len()
    &&& shown_entity(m, repos, i)
    &&& item.name == m.nodes[i].name
    &&& json_of(m.nodes[i].meta) is Invalid ==> item.meta == "null"@
    &&& !(json_of(m.nodes[i].meta) is Invalid) ==> item.meta == m.nodes[i].meta
}

/// Whether an entry is that of an entity of the index that is shown.
pub open spec fn from_entity(m: IndexModel, repos: Seq<Seq<char>>, item: PlanEntityModel) -> bool {
    exists|i: int| is_entity_entry(m, repos, i, item)
}

/// The entities of the manifest: for every entity that is brought along, one entry with its name
/// and its metadata, and no others.
pub proof fn law_manifest_entities(m: IndexModel, repos: Seq<Seq<char>>)
    requires
        index_ok(m),
    ensures
        forall|i: int|
            0 <= i < m.nodes.len() && #[trigger] shown_entity(m, repos, i) ==> exists|k: int|
                0 <= k < plan_of(m, repos).entities.len() && is_entity_entry(
                    m,
                    repos,
                    i,
                    #[trigger] plan_of(m, repos).entities[k],
                ),
        forall|k: int|
            0 <= k < plan_of(m, repos).entities.len() ==> from_entity(
                m,
                repos,
                #[trigger] plan_of(m, repos).entities[k],
            ),
        plan_of(m, repos).entities.len() == Set::new(
            |i: int| 0 <= i < m.nodes.len() && shown_entity(m, repos, i),
        ).len(),
{
    let p = plan_of(m, repos);
    let flags = entity_flags(m, repos);
    let order = by_name(m.nodes, flags);
    lemma_by_name(m.nodes, flags);
    assert forall|i: int| 0 <= i < m.nodes.len() && #[trigger] shown_entity(m, repos, i) implies exists|
        k: int,
    |
        0 <= k < p.entities.len() && is_entity_entry(m, repos, i, #[trigger] p.entities[k]) by {
        lemma_shown_entity(m, repos, i);
        assert(flags[i]);
        assert(order.contains(i));
        let k = choose|k: int| 0 <= k < order.len() && order[k] == i;
        assert(is_entity_entry(m, repos, i, p.entities[k]));
    }
    assert forall|k: int| 0 <= k < p.entities.len() implies from_entity(
        m,
        repos,
        #[trigger] p.entities[k],
    ) by {
        let i = order[k];
        assert(flags[i]);
        lemma_shown_entity(m, repos, i);
        assert(is_entity_entry(m, repos, i, p.entities[k]));
    }
    let places = Set::new(|i: int| 0 <= i < m.nodes.len() && shown_entity(m, repos, i));
    assert forall|i: int| #[trigger] places.contains(i) <==> 0 <= i < flags.len() && flags[i] by {
        if 0 <= i < m.nodes.len() {
            lemma_shown_entity(m, repos, i);
        }
    }
    lemma_picked_count(flags, places);
}

/// Whether an edge entry says what edge `e` of the index holds, with the kinds and names of the
/// nodes `s` and `d` that it joins.
pub open spec fn is_entry_of(
    m: IndexModel,
    item: PlanEdgeModel,
    e: int,
    s: int,
    d: int,
) -> bool {
    &&& 0 <= s < m.nodes.len()
    &&& 0 <= d < m.nodes.len()
    &&& m.nodes[s].id == m.edges[e].src
    &&& m.nodes[d].id == m.edges[e].dst
    &&& item.src_kind == m.nodes[s].kind
    &&& item.src_name == m.nodes[s].name
    &&& item.dst_kind == m.nodes[d].kind
    &&& item.dst_name == m.nodes[d].name
    &&& item.kind == m.edges[e].kind
    &&& item.provenance == m.edges[e].provenance
    &&& item.weight == m.edges[e].weight
    &&& item.rationale == m.edges[e].rationale
}

/// Whether an entry is that of an edge of the index whose two ends are shown.
pub open spec fn from_edge(m: IndexModel, repos: Seq<Seq<char>>, item: PlanEdgeModel) -> bool {
    exists|e: int, s: int, d: int|
        0 <= e < m.edges.len() && shown_id(m, repos, m.edges[e].src) && shown_id(
            m,
            repos,
            m.edges[e].dst,
        ) && #[trigger] is_entry_of(m, item, e, s, d)
}

/// The edges of the manifest: for every edge whose two ends are shown, one entry with the kinds and
/// names of its ends and its own kind, provenance, weight and rationale, and no others. The edges
/// with one end shown are counted.
pub proof fn law_manifest_edges(m: IndexModel, repos: Seq<Seq<char>>)
    requires
        index_ok(m),
    ensures
        forall|e: int|
            0 <= e < m.edges.len() && shown_id(m, repos, (#[trigger] m.edges[e]).src) && shown_id(
                m,
                repos,
                m.edges[e].dst,
            ) ==> exists|k: int, s: int, d: int|
                0 <= k < plan_of(m, repos).edges.len() && #[trigger] is_entry_of(
                    m,
                    plan_of(m, repos).edges[k],
                    e,
                    s,
                    d,
                ),
        forall|k: int|
            0 <= k < plan_of(m, repos).edges.len() ==> from_edge(
                m,
                repos,
                #[trigger] plan_of(m, repos).edges[k],
            ),
        plan_of(m, repos).edges.len() == Set::new(
            |e: int|
                0 <= e < m.edges.len() && shown_id(m, repos, m.edges[e].src) && shown_id(
                    m,
                    repos,
                    m.edges[e].dst,
                ),
        ).len(),
        plan_of(m, repos).dropped_edges == Set::new(
            |e: int|
                0 <= e < m.edges.len() && shown_id(m, repos, m.edges[e].src) != shown_id(
                    m,
                    repos,
                    m.edges[e].dst,
                ),
        ).len(),
{
    let p = plan_of(m, repos);
    let flags = edge_flags(m, repos);
    let order = edge_order(m, repos);
    lemma_edge_order(m, repos);
    assert forall|e: int|
        0 <= e < m.edges.len() && shown_id(m, repos, (#[trigger] m.edges[e]).src) && shown_id(
            m,
            repos,
            m.edges[e].dst,
        ) implies exists|k: int, s: int, d: int|
        0 <= k < p.edges.len() && #[trigger] is_entry_of(m, p.edges[k], e, s, d) by {
        lemma_shown_id(m, repos, m.edges[e].src);
        lemma_shown_id(m, repos, m.edges[e].dst);
        assert(flags[e]);
        assert(order.contains(e));
        let k = choose|k: int| 0 <= k < order.len() && order[k] == e;
        let s = node_place(m.nodes, m.edges[e].src);
        let d = node_place(m.nodes, m.edges[e].dst);
        assert(is_entry_of(m, p.edges[k], e, s, d));
    }
    assert forall|k: int| 0 <= k < p.edges.len() implies from_edge(
        m,
        repos,
        #[trigger] p.edges[k],
    ) by {
        let e = order[k];
        assert(flags[e]);
        assert(has_node(m.nodes, m.edges[e].src) && has_node(m.nodes, m.edges[e].dst));
        lemma_shown_id(m, repos, m.edges[e].src);
        lemma_shown_id(m, repos, m.edges[e].dst);
        let s = node_place(m.nodes, m.edges[e].src);
        let d = node_place(m.nodes, m.edges[e].dst);
        assert(is_entry_of(m, p.edges[k], e, s, d));
    }
    let places = Set::new(
        |e: int|
            0 <= e < m.edges.len() && shown_id(m, repos, m.edges[e].src) && shown_id(
                m,
                repos,
                m.edges[e].dst,
            ),
    );
    assert forall|e: int| #[trigger] places.contains(e) <==> 0 <= e < flags.len() && flags[e] by {
        if 0 <= e < m.edges.len() {
            assert(has_node(m.nodes, m.edges[e].src) && has_node(m.nodes, m.edges[e].dst));
            lemma_shown_id(m, repos, m.edges[e].src);
            lemma_shown_id(m, repos, m.edges[e].dst);
        }
    }
    lemma_picked_count(flags, places);
    let half = half_flags(m, repos);
    let dropped = Set::new(
        |e: int|
            0 <= e < m.edges.len() && shown_id(m, repos, m.edges[e].src) != shown_id(
                m,
                repos,
                m.edges[e].dst,
            ),
    );
    assert forall|e: int| #[trigger] dropped.contains(e) <==> 0 <= e < half.len() && half[e] by {
        if 0 <= e < m.edges.len() {
            assert(has_node(m.nodes, m.edges[e].src) && has_node(m.nodes, m.edges[e].dst));
            lemma_shown_id(m, repos, m.edges[e].src);
            lemma_shown_id(m, repos, m.edges[e].dst);
        }
    }
    lemma_picked_count(half, dropped);
}

/// Whether a flag is that of a link in the text of a listed note whose target is no listed project.
pub open spec fn is_flag_of(
    m: IndexModel,
    repos: Seq<Seq<char>>,
    item: PlanFlagModel,
    i: int,
    n: int,
    t: int,
) -> bool {
    let links = extraction_of(m.notes[n].body, Seq::empty()).wiki_links;
    &&& 0 <= i < m.nodes.len()
    &&& 0 <= n < m.notes.len()
    &&& shown_note(m, i)
    &&& m.notes[n].node_id == m.nodes[i].id
    &&& 0 <= t < links.len()
    &&& forall|j: int|
        0 <= j < m.nodes.len() && #[trigger] shown_project(m, repos, j) ==> canonical(
            m.nodes[j].name,
        ) != canonical(links[t])
    &&& item.note_path == m.nodes[i].name
    &&& item.target == links[t]
    &&& item.reason == "published prose links [["@ + links[t]
        + "]], whose target is not a public project; the name itself will be visible"@
}

/// Whether a flag is that of some link.
pub open spec fn from_link(m: IndexModel, repos: Seq<Seq<char>>, item: PlanFlagModel) -> bool {
    exists|i: int, n: int, t: int| #[trigger] is_flag_of(m, repos, item, i, n, t)
}

proof fn lemma_not_shown(m: IndexModel, repos: Seq<Seq<char>>, target: Seq<char>)
    ensures
        !project_names(plan_of(m, repos).projects).contains(canonical(target)) <==> forall|j: int|
            0 <= j < m.nodes.len() && #[trigger] shown_project(m, repos, j) ==> canonical(
                m.nodes[j].name,
            ) != canonical(target),
{
    let p = plan_of(m, repos);
    let names = project_names(p.projects);
    law_manifest_projects(m, repos);
    if names.contains(canonical(target)) {
        let k = choose|k: int| 0 <= k < names.len() && names[k] == canonical(target);
        assert(from_project(m, repos, p.projects[k]));
        let j = choose|j: int| is_project_entry(m, repos, j, p.projects[k]);
        assert(shown_project(m, repos, j));
    } else {
        assert forall|j: int|
            0 <= j < m.nodes.len() && #[trigger] shown_project(m, repos, j) implies canonical(
            m.nodes[j].name,
        ) != canonical(target) by {
            let k = choose|k: int|
                0 <= k < p.projects.len() && is_project_entry(
                    m,
                    repos,
                    j,
                    #[trigger] p.projects[k],
                );
            assert(names[k] == canonical(m.nodes[j].name));
        }
    }
}

proof fn lemma_flags_of_links(
    path: Seq<char>,
    targets: Seq<Seq<char>>,
    names: Seq<Seq<char>>,
    n: int,
)
    requires
        0 <= n <= targets.len(),
    ensures
        forall|k: int|
            #![trigger flags_of_links(path, targets, names, n)[k]]
            0 <= k < flags_of_links(path, targets, names, n).len() ==> exists|t: int|
                #![trigger targets[t]]
                0 <= t < n && !names.contains(canonical(targets[t])) && flag_of(
                    path,
                    targets[t],
                    flags_of_links(path, targets, names, n)[k],
                ),
    decreases n,
{
    if n > 0 {
        lemma_flags_of_links(path, targets, names, n - 1);
        let rest = flags_of_links(path, targets, names, n - 1);
        let all = flags_of_links(path, targets, names, n);
        assert forall|k: int|
            #![trigger all[k]]
            0 <= k < all.len() implies exists|t: int|
            #![trigger targets[t]]
            0 <= t < n && !names.contains(canonical(targets[t])) && flag_of(
                path,
                targets[t],
                all[k],
            ) by {
            if k < rest.len() {
                assert(all[k] == rest[k]);
                let t = choose|t: int|
                    #![trigger targets[t]]
                    0 <= t < n - 1 && !names.contains(canonical(targets[t])) && flag_of(
                        path,
                        targets[t],
                        rest[k],
                    );
                assert(flag_of(path, targets[t], all[k]));
            } else {
                assert(flag_of(path, targets[n - 1], all[k]));
            }
        }
    }
}

/// Whether a flag is that of a link target in the note at `path`.
pub open spec fn flag_of(path: Seq<char>, target: Seq<char>, item: PlanFlagModel) -> bool {
    &&& item.note_path == path
    &&& item.target == target
    &&& item.reason == "published prose links [["@ + target
        + "]], whose target is not a public project; the name itself will be visible"@
}

/// Whether a flag is that of link `t` of entry `i`.
spec fn flag_at(
    notes: Seq<PlanNoteModel>,
    names: Seq<Seq<char>>,
    item: PlanFlagModel,
    i: int,
    t: int,
) -> bool {
    let links = extraction_of(notes[i].body, Seq::empty()).wiki_links;
    &&& 0 <= i < notes.len()
    &&& 0 <= t < links.len()
    &&& !names.contains(canonical(links[t]))
    &&& flag_of(notes[i].path, links[t], item)
}

spec fn flag_somewhere(
    notes: Seq<PlanNoteModel>,
    names: Seq<Seq<char>>,
    item: PlanFlagModel,
) -> bool {
    exists|i: int, t: int| flag_at(notes, names, item, i, t)
}

proof fn lemma_flags_upto(notes: Seq<PlanNoteModel>, names: Seq<Seq<char>>, n: int)
    requires
        0 <= n <= notes.len(),
    ensures
        forall|k: int|
            0 <= k < flags_upto(notes, names, n).len() ==> flag_somewhere(
                notes,
                names,
                #[trigger] flags_upto(notes, names, n)[k],
            ),
    decreases n,
{
    if n > 0 {
        lemma_flags_upto(notes, names, n - 1);
        let links = prose_links(notes[n - 1].body);
        let path = notes[n - 1].path;
        lemma_flags_of_links(path, links, names, links.len() as int);
        let rest = flags_upto(notes, names, n - 1);
        let more = flags_of_links(path, links, names, links.len() as int);
        let all = flags_upto(notes, names, n);
        assert forall|k: int| 0 <= k < all.len() implies flag_somewhere(
            notes,
            names,
            #[trigger] all[k],
        ) by {
            if k < rest.len() {
                assert(all[k] == rest[k]);
            } else {
                let j = k - rest.len();
                assert(all[k] == more[j]);
                let t = choose|t: int|
                    #![trigger links[t]]
                    0 <= t < links.len() && !names.contains(canonical(links[t])) && flag_of(
                        path,
                        links[t],
                        more[j],
                    );
                assert(flag_at(notes, names, all[k], n - 1, t));
            }
        }
    }
}

/// The flags of the manifest: every link in the text of a listed note whose target is no listed
/// project is flagged, with the path of the note, the target as it is written and the reason, and
/// nothing else is.
pub proof fn law_manifest_flags(m: IndexModel, repos: Seq<Seq<char>>)
    requires
        index_ok(m),
    ensures
        forall|k: int|
            0 <= k < plan_of(m, repos).flags.len() ==> from_link(
                m,
                repos,
                #[trigger] plan_of(m, repos).flags[k],
            ),
        forall|item: PlanFlagModel| #[trigger]
            from_link(m, repos, item) ==> plan_of(m, repos).flags.contains(item),
{
    assert forall|k: int| 0 <= k < plan_of(m, repos).flags.len() implies from_link(
        m,
        repos,
        #[trigger] plan_of(m, repos).flags[k],
    ) by {
        lemma_flag_is_of_link(m, repos, k);
    }
    assert forall|item: PlanFlagModel| #[trigger] from_link(m, repos, item) implies plan_of(
        m,
        repos,
    ).flags.contains(item) by {
        let (i, n, t) = choose|i: int, n: int, t: int| #[trigger]
            is_flag_of(m, repos, item, i, n, t);
        lemma_link_is_flagged(m, repos, item, i, n, t);
    }
}

proof fn lemma_flag_is_of_link(m: IndexModel, repos: Seq<Seq<char>>, k: int)
    requires
        index_ok(m),
        0 <= k < plan_of(m, repos).flags.len(),
    ensures
        from_link(m, repos, plan_of(m, repos).flags[k]),
{
    let p = plan_of(m, repos);
    let names = project_names(p.projects);
    let flags = flags_upto(p.notes, names, p.notes.len() as int);
    let item = p.flags[k];
    assert(flags.contains(item)) by {
        assert(keys_ok(flag_keys(flags)));
        lemma_ordered(flags, flag_keys(flags));
        assert(p.flags.contains(item));
    }
    let j = choose|j: int| 0 <= j < flags.len() && flags[j] == item;
    lemma_flags_upto(p.notes, names, p.notes.len() as int);
    assert(flag_somewhere(p.notes, names, flags[j]));
    let (a, t) = choose|a: int, t: int| flag_at(p.notes, names, item, a, t);
    assert(from_note(m, p.notes[a])) by {
        law_manifest_notes(m, repos);
    }
    let (i, n) = choose|i: int, n: int| is_note_entry(m, i, n, p.notes[a]);
    let links = extraction_of(m.notes[n].body, Seq::empty()).wiki_links;
    lemma_not_shown(m, repos, links[t]);
    assert(is_flag_of(m, repos, item, i, n, t));
}

proof fn lemma_link_is_flagged(
    m: IndexModel,
    repos: Seq<Seq<char>>,
    item: PlanFlagModel,
    i: int,
    n: int,
    t: int,
)
    requires
        index_ok(m),
        is_flag_of(m, repos, item, i, n, t),
    ensures
        plan_of(m, repos).flags.contains(item),
{
    let p = plan_of(m, repos);
    let links = extraction_of(m.notes[n].body, Seq::empty()).wiki_links;
    lemma_not_shown(m, repos, links[t]);
    assert(exists|a: int|
        0 <= a < p.notes.len() && is_note_entry(m, i, n, #[trigger] p.notes[a])) by {
        law_manifest_notes(m, repos);
        assert(shown_note(m, i) && m.notes[n].node_id == m.nodes[i].id);
    }
    let a = choose|a: int|
        0 <= a < p.notes.len() && is_note_entry(m, i, n, #[trigger] p.notes[a]);
    law_links_to_private_targets_are_flagged(m, repos, a, t);
    assert(flag_item(p.notes[a].path, links[t]) == item);
}

/// The flags are ordered by note and by target.
pub proof fn law_flags_are_ordered(m: IndexModel, repos: Seq<Seq<char>>)
    ensures
        forall|k: int, l: int|
            0 <= k < l < plan_of(m, repos).flags.len() ==> {
                let a = #[trigger] plan_of(m, repos).flags[k];
                let b = #[trigger] plan_of(m, repos).flags[l];
                &&& text_le(a.note_path, b.note_path)
                &&& a.note_path == b.note_path ==> text_le(a.target, b.target)
            },
{
    let p = plan_of(m, repos);
    let names = project_names(p.projects);
    let flags = flags_upto(p.notes, names, p.notes.len() as int);
    let keys = flag_keys(flags);
    assert(keys_ok(keys));
    lemma_ordered(flags, keys);
    let order = order_of(keys);
    assert forall|k: int, l: int| 0 <= k < l < p.flags.len() implies {
        let a = #[trigger] p.flags[k];
        let b = #[trigger] p.flags[l];
        &&& text_le(a.note_path, b.note_path)
        &&& a.note_path == b.note_path ==> text_le(a.target, b.target)
    } by {
        assert(before(keys, order[k], order[l]));
        let a = keys[order[k]];
        let b = keys[order[l]];
        reveal_with_fuel(key_le, 3);
        assert(key_le(a, b));
        assert(p.flags[k] == flags[order[k]] && p.flags[l] == flags[order[l]]);
        assert(a[0] == PartModel::Text(p.flags[k].note_path));
        assert(b[0] == PartModel::Text(p.flags[l].note_path));
        assert(a.skip(1)[0] == PartModel::Text(p.flags[k].target));
        assert(b.skip(1)[0] == PartModel::Text(p.flags[l].target));
        lemma_text_le_total(p.flags[k].note_path, p.flags[k].note_path);
    }
}

} // verus!
