//! What every rebuilt index keeps: its rows are consistent, every note is in it with everything it
//! says, and every edge has its evidence.

use vstd::prelude::*;

use crate::connect::dates_ok;
use crate::extract::{
    canonical, canonicals, distinct_of, extraction_of, loops_of, mentions_upto, prose_of,
};
use crate::index::{
    add_link, add_links, add_loop, add_loop_mentions, add_loops, add_mentions, add_note, add_notes,
    add_projects, add_span, add_spans, add_symbol, add_symbols, cache_of, cache_upto, cached_for,
    contains_edge, count_loop, defines_edge, dictionary, display_meta, ensure_entity, ensure_node,
    entity_id, has_edge_like, insert_edge, insert_node, is_stopword, known_of,
    lemma_node_named_prefix, link_edge, loop_edge, loop_meta, loop_name, mention_edge, meta_of,
    next_id, node_named, nothing_yet, project_id, rebuilt, same_edge, source_of, span_edge,
    stamp_reads_back, symbol_meta, target_of, with_row, BuildModel, CachedModel, KnownModel,
    RebuildError, SourceModel, TargetModel, SCHEMA_VERSION,
};
use crate::json::text_field;
use crate::patterns::is_date;
use crate::query::{container_flags, holds_loop, is_dangling, seen_on};
use crate::scan::{notes_upto, GitModel, NoteFileModel, ProjectModel, SymbolModel, TextFileModel};
use crate::select::{lemma_picked, picked};
use crate::store::{has_node, index_ok, notes_sorted, EdgeModel, IndexModel, NodeModel};
use crate::text::{byte_len, decimal, digit_char};

verus! {

/// Whether the nodes are numbered from one on.
pub open spec fn numbered(nodes: Seq<NodeModel>) -> bool {
    forall|i: int| 0 <= i < nodes.len() ==> (#[trigger] nodes[i]).id == i + 1
}

/// Whether no two nodes share their kind and name.
pub open spec fn distinct_nodes(nodes: Seq<NodeModel>) -> bool {
    forall|i: int, j: int|
        0 <= i < j < nodes.len() ==> (#[trigger] nodes[i]).kind != (#[trigger] nodes[j]).kind
            || nodes[i].name != nodes[j].name
}

/// Whether no two edges are the same but for their weight and rationale.
pub open spec fn distinct_edges(edges: Seq<EdgeModel>) -> bool {
    forall|i: int, j: int|
        0 <= i < j < edges.len() ==> !same_edge(#[trigger] edges[i], #[trigger] edges[j])
}

/// Whether `id` is the identity of a node.
pub open spec fn in_range(nodes: Seq<NodeModel>, id: int) -> bool {
    1 <= id <= nodes.len()
}

/// Whether `id` is the identity of a node of this kind.
pub open spec fn of_kind(nodes: Seq<NodeModel>, id: int, kind: Seq<char>) -> bool {
    in_range(nodes, id) && nodes[id - 1].kind == kind
}

/// Whether the rows of an index under construction are consistent.
pub open spec fn sound(b: BuildModel) -> bool {
    let m = b.index;
    &&& m.nodes.len() <= i64::MAX
    &&& numbered(m.nodes)
    &&& distinct_nodes(m.nodes)
    &&& notes_sorted(m.notes)
    &&& forall|i: int|
        0 <= i < m.notes.len() ==> of_kind(m.nodes, (#[trigger] m.notes[i]).node_id, "note"@)
    &&& forall|i: int|
        0 <= i < m.edges.len() ==> in_range(m.nodes, (#[trigger] m.edges[i]).src) && in_range(
            m.nodes,
            m.edges[i].dst,
        )
    &&& distinct_edges(m.edges)
    &&& m.edges.len() <= b.edges <= i64::MAX
}

/// Whether one index holds all rows of another, in their places.
pub open spec fn extends(a: IndexModel, b: IndexModel) -> bool {
    &&& a.nodes.len() <= b.nodes.len()
    &&& a.notes.len() <= b.notes.len()
    &&& a.edges.len() <= b.edges.len()
    &&& forall|i: int| 0 <= i < a.nodes.len() ==> #[trigger] b.nodes[i] == a.nodes[i]
    &&& forall|i: int| 0 <= i < a.notes.len() ==> #[trigger] b.notes[i] == a.notes[i]
    &&& forall|i: int| 0 <= i < a.edges.len() ==> #[trigger] b.edges[i] == a.edges[i]
}

proof fn lemma_extends_twice(a: IndexModel, b: IndexModel, c: IndexModel)
    requires
        extends(a, b),
        extends(b, c),
    ensures
        extends(a, c),
{
    assert forall|i: int| 0 <= i < a.nodes.len() implies #[trigger] c.nodes[i] == a.nodes[i] by {
        assert(b.nodes[i] == a.nodes[i]);
    }
    assert forall|i: int| 0 <= i < a.notes.len() implies #[trigger] c.notes[i] == a.notes[i] by {
        assert(b.notes[i] == a.notes[i]);
    }
    assert forall|i: int| 0 <= i < a.edges.len() implies #[trigger] c.edges[i] == a.edges[i] by {
        assert(b.edges[i] == a.edges[i]);
    }
}

/// A node that is found stands where its identity says.
pub proof fn lemma_named_place(nodes: Seq<NodeModel>, kind: Seq<char>, name: Seq<char>)
    requires
        numbered(nodes),
    ensures
        node_named(nodes, kind, name) matches Some(id) ==> in_range(nodes, id) && nodes[id
            - 1].kind == kind && nodes[id - 1].name == name,
        node_named(nodes, kind, name) is None ==> forall|i: int|
            0 <= i < nodes.len() ==> (#[trigger] nodes[i]).kind != kind || nodes[i].name != name,
    decreases nodes.len(),
{
    if nodes.len() > 0 {
        let rest = nodes.drop_last();
        assert(numbered(rest)) by {
            assert forall|i: int| 0 <= i < rest.len() implies (#[trigger] rest[i]).id == i + 1 by {
                assert(rest[i] == nodes[i]);
            }
        }
        lemma_named_place(rest, kind, name);
        if node_named(nodes, kind, name) is None {
            assert forall|i: int| 0 <= i < nodes.len() implies (#[trigger] nodes[i]).kind != kind
                || nodes[i].name != name by {
                if i < rest.len() {
                    assert(rest[i] == nodes[i]);
                }
            }
        }
    }
}

/// A node is found by its kind and name.
proof fn lemma_named_at(nodes: Seq<NodeModel>, i: int)
    requires
        numbered(nodes),
        distinct_nodes(nodes),
        0 <= i < nodes.len(),
    ensures
        node_named(nodes, nodes[i].kind, nodes[i].name) == Some(i + 1),
{
    lemma_named_place(nodes, nodes[i].kind, nodes[i].name);
    match node_named(nodes, nodes[i].kind, nodes[i].name) {
        Some(id) => {
            if id - 1 < i {
                assert(nodes[id - 1].kind != nodes[i].kind || nodes[id - 1].name != nodes[i].name);
            } else if i < id - 1 {
                assert(nodes[i].kind != nodes[id - 1].kind || nodes[i].name != nodes[id - 1].name);
            }
        },
        None => {
            assert(nodes[i].kind != nodes[i].kind);
        },
    }
}

/// What is found stays found in an index that extends another.
proof fn lemma_named_stays(a: IndexModel, b: IndexModel, kind: Seq<char>, name: Seq<char>)
    requires
        extends(a, b),
        node_named(a.nodes, kind, name) is Some,
    ensures
        node_named(b.nodes, kind, name) == node_named(a.nodes, kind, name),
{
    assert(b.nodes.take(a.nodes.len() as int) =~= a.nodes);
    lemma_node_named_prefix(b.nodes, kind, name, a.nodes.len() as int);
}

/// An edge like another stays in an index that extends another.
proof fn lemma_edge_stays(a: IndexModel, b: IndexModel, edge: EdgeModel)
    requires
        extends(a, b),
        has_edge_like(a.edges, edge),
    ensures
        has_edge_like(b.edges, edge),
{
    let k = choose|k: int| 0 <= k < a.edges.len() && same_edge(#[trigger] a.edges[k], edge);
    assert(b.edges[k] == a.edges[k]);
}

proof fn lemma_insert_node(
    b: BuildModel,
    kind: Seq<char>,
    name: Seq<char>,
    path: Option<Seq<char>>,
    meta: Seq<char>,
    c: BuildModel,
)
    requires
        sound(b),
        insert_node(b, kind, name, path, meta) == Ok::<BuildModel, RebuildError>(c),
    ensures
        sound(c),
        extends(b.index, c.index),
        c.index.nodes == b.index.nodes.push(
            NodeModel { id: next_id(b), kind, name, path, meta },
        ),
        c.index.notes == b.index.notes,
        c.index.edges == b.index.edges,
        c.loops == b.loops,
        node_named(c.index.nodes, kind, name) == Some(next_id(b)),
{
    let m = b.index;
    let n = c.index;
    lemma_named_place(m.nodes, kind, name);
    assert(numbered(n.nodes)) by {
        assert forall|i: int| 0 <= i < n.nodes.len() implies (#[trigger] n.nodes[i]).id == i
            + 1 by {
            if i < m.nodes.len() {
                assert(n.nodes[i] == m.nodes[i]);
            }
        }
    }
    assert(distinct_nodes(n.nodes)) by {
        assert forall|i: int, j: int| 0 <= i < j < n.nodes.len() implies (
        #[trigger] n.nodes[i]).kind != (#[trigger] n.nodes[j]).kind || n.nodes[i].name
            != n.nodes[j].name by {
            assert(n.nodes[i] == m.nodes[i]);
            if j < m.nodes.len() {
                assert(n.nodes[j] == m.nodes[j]);
            }
        }
    }
    assert forall|i: int| 0 <= i < n.notes.len() implies of_kind(
        n.nodes,
        (#[trigger] n.notes[i]).node_id,
        "note"@,
    ) by {
        assert(of_kind(m.nodes, m.notes[i].node_id, "note"@));
        assert(n.nodes[n.notes[i].node_id - 1] == m.nodes[n.notes[i].node_id - 1]);
    }
    assert forall|i: int| 0 <= i < n.edges.len() implies in_range(
        n.nodes,
        (#[trigger] n.edges[i]).src,
    ) && in_range(n.nodes, n.edges[i].dst) by {
        assert(in_range(m.nodes, m.edges[i].src));
    }
    assert(n.nodes.drop_last() =~= m.nodes);
}

proof fn lemma_insert_edge(b: BuildModel, edge: EdgeModel, c: BuildModel)
    requires
        sound(b),
        in_range(b.index.nodes, edge.src),
        in_range(b.index.nodes, edge.dst),
        insert_edge(b, edge) == Ok::<BuildModel, RebuildError>(c),
    ensures
        sound(c),
        extends(b.index, c.index),
        c.index.nodes == b.index.nodes,
        c.index.notes == b.index.notes,
        c.loops == b.loops,
        c.index.edges == b.index.edges || c.index.edges == b.index.edges.push(edge),
        has_edge_like(c.index.edges, edge),
{
    let m = b.index;
    let n = c.index;
    if !has_edge_like(m.edges, edge) {
        assert(n.edges == m.edges.push(edge));
        assert(same_edge(n.edges[m.edges.len() as int], edge));
        assert forall|i: int| 0 <= i < n.edges.len() implies in_range(
            n.nodes,
            (#[trigger] n.edges[i]).src,
        ) && in_range(n.nodes, n.edges[i].dst) by {
            if i < m.edges.len() {
                assert(n.edges[i] == m.edges[i]);
            }
        }
        assert(distinct_edges(n.edges)) by {
            assert forall|i: int, j: int| 0 <= i < j < n.edges.len() implies !same_edge(
                #[trigger] n.edges[i],
                #[trigger] n.edges[j],
            ) by {
                assert(n.edges[i] == m.edges[i]);
                if j < m.edges.len() {
                    assert(n.edges[j] == m.edges[j]);
                }
            }
        }
    }
}

/// Whether what names mean fits the nodes: every known project is there, and the names that prose
/// is searched for are names of projects that are not ignored.
pub open spec fn known_ok(known: KnownModel, nodes: Seq<NodeModel>) -> bool {
    &&& forall|i: int|
        0 <= i < known.projects.len() ==> {
            let id = (#[trigger] known.projects[i]).1 as int;
            of_kind(nodes, id, "project"@) && canonical(nodes[id - 1].name) == known.projects[i].0
        }
    &&& forall|i: int|
        0 <= i < known.names.len() ==> !known.ignore.contains(
            canonical(#[trigger] known.names[i]),
        ) && project_id(known.projects, canonical(known.names[i])) is Some
}

/// Whether a canonical name may be that of an entity.
pub open spec fn proper_name(known: KnownModel, name: Seq<char>) -> bool {
    &&& name.len() > 0
    &&& !known.ignore.contains(name)
    &&& project_id(known.projects, name) is None
    &&& byte_len(name) >= 3
    &&& !is_stopword(name)
}

/// Whether a written name stands for node `id`.
pub open spec fn stands_for(
    known: KnownModel,
    nodes: Seq<NodeModel>,
    raw: Seq<char>,
    id: int,
) -> bool {
    match target_of(known, raw) {
        TargetModel::Nothing => false,
        TargetModel::Project(p) => p == id,
        TargetModel::Entity(name) => node_named(nodes, "entity"@, name) == Some(id),
    }
}

/// Whether `edge` is that of wiki link `k` of note row `r`.
pub open spec fn link_at(known: KnownModel, m: IndexModel, r: int, k: int, edge: EdgeModel) -> bool {
    let links = extraction_of(m.notes[r].body, known.names).wiki_links;
    &&& 0 <= r < m.notes.len()
    &&& 0 <= k < links.len()
    &&& edge == link_edge(m.notes[r].node_id, edge.dst, links[k])
    &&& stands_for(known, m.nodes, links[k], edge.dst)
}

/// Whether `edge` is that of project mention `k` of note row `r`.
pub open spec fn mention_at(
    known: KnownModel,
    m: IndexModel,
    r: int,
    k: int,
    edge: EdgeModel,
) -> bool {
    let mentions = extraction_of(m.notes[r].body, known.names).project_mentions;
    &&& 0 <= r < m.notes.len()
    &&& 0 <= k < mentions.len()
    &&& edge == mention_edge(m.notes[r].node_id, edge.dst, mentions[k].0, mentions[k].1)
    &&& project_id(known.projects, canonical(mentions[k].0)) == Some(edge.dst)
}

/// Whether `edge` is that of backticked span `k` of note row `r`.
pub open spec fn span_at(known: KnownModel, m: IndexModel, r: int, k: int, edge: EdgeModel) -> bool {
    let spans = extraction_of(m.notes[r].body, known.names).code_spans;
    &&& 0 <= r < m.notes.len()
    &&& 0 <= k < spans.len()
    &&& edge == span_edge(m.notes[r].node_id, edge.dst, spans[k])
    &&& target_of(known, spans[k]) is Entity
    &&& stands_for(known, m.nodes, spans[k], edge.dst)
}

/// Whether node `id` is loop `l` of note row `r`.
pub open spec fn is_loop_of(m: IndexModel, r: int, l: int, id: int) -> bool {
    let loops = loops_of(m.notes[r].body);
    let path = m.nodes[m.notes[r].node_id - 1].name;
    &&& 0 <= r < m.notes.len()
    &&& 0 <= l < loops.len()
    &&& of_kind(m.nodes, id, "loop"@)
    &&& m.nodes[id - 1].name == loop_name(path, l)
    &&& m.nodes[id - 1].path == Some(path)
    &&& m.nodes[id - 1].meta == loop_meta(loops[l])
}

/// Whether `edge` leads from note row `r` to its loop `l`.
pub open spec fn contains_at(m: IndexModel, r: int, l: int, edge: EdgeModel) -> bool {
    is_loop_of(m, r, l, edge.dst) && edge == contains_edge(m.notes[r].node_id, edge.dst)
}

/// Whether `edge` is that of project mention `k` of loop `l` of note row `r`.
pub open spec fn loop_mention_at(
    known: KnownModel,
    m: IndexModel,
    r: int,
    l: int,
    k: int,
    edge: EdgeModel,
) -> bool {
    let mentions = extraction_of(
        loops_of(m.notes[r].body)[l].text,
        known.names,
    ).project_mentions;
    &&& is_loop_of(m, r, l, edge.src)
    &&& 0 <= k < mentions.len()
    &&& edge == loop_edge(edge.src, edge.dst, mentions[k].0)
    &&& project_id(known.projects, canonical(mentions[k].0)) == Some(edge.dst)
}

/// Whether `edge` is that of the definition of code symbol `s`.
pub open spec fn defines_at(
    known: KnownModel,
    m: IndexModel,
    symbols: Seq<SymbolModel>,
    s: int,
    edge: EdgeModel,
) -> bool {
    &&& 0 <= s < symbols.len()
    &&& edge == defines_edge(edge.src, edge.dst, symbols[s].file)
    &&& project_id(known.projects, canonical(symbols[s].repo)) == Some(edge.src)
    &&& target_of(known, symbols[s].name) is Entity
    &&& stands_for(known, m.nodes, symbols[s].name, edge.dst)
}

/// Whether something that was scanned is a reason for `edge`.
pub open spec fn evidence(
    known: KnownModel,
    symbols: Seq<SymbolModel>,
    m: IndexModel,
    edge: EdgeModel,
) -> bool {
    ||| exists|r: int, k: int| link_at(known, m, r, k, edge)
    ||| exists|r: int, k: int| mention_at(known, m, r, k, edge)
    ||| exists|r: int, k: int| span_at(known, m, r, k, edge)
    ||| exists|r: int, l: int| contains_at(m, r, l, edge)
    ||| exists|r: int, l: int, k: int| loop_mention_at(known, m, r, l, k, edge)
    ||| exists|s: int| defines_at(known, m, symbols, s, edge)
}

/// Whether every edge has a reason.
pub open spec fn evident(known: KnownModel, symbols: Seq<SymbolModel>, m: IndexModel) -> bool {
    forall|e: int| 0 <= e < m.edges.len() ==> evidence(known, symbols, m, #[trigger] m.edges[e])
}

/// Whether node `id` is a loop of a note.
pub open spec fn is_some_loop(m: IndexModel, id: int) -> bool {
    exists|r: int, l: int| is_loop_of(m, r, l, id)
}

/// What the construction keeps while symbols and notes are added.
pub open spec fn kept(known: KnownModel, symbols: Seq<SymbolModel>, b: BuildModel) -> bool {
    let m = b.index;
    &&& sound(b)
    &&& known_ok(known, m.nodes)
    &&& evident(known, symbols, m)
    &&& forall|i: int|
        0 <= i < m.nodes.len() && (#[trigger] m.nodes[i]).kind == "entity"@ ==> proper_name(
            known,
            m.nodes[i].name,
        )
    &&& forall|i: int|
        0 <= i < m.nodes.len() && (#[trigger] m.nodes[i]).kind == "loop"@ ==> is_some_loop(m, i + 1)
}

/// A known project has its name.
pub proof fn lemma_project_id(projects: Seq<(Seq<char>, i64)>, name: Seq<char>)
    ensures
        project_id(projects, name) matches Some(id) ==> exists|i: int|
            0 <= i < projects.len() && (#[trigger] projects[i]).0 == name && projects[i].1 as int
                == id,
    decreases projects.len(),
{
    if projects.len() > 0 && projects[0].0 != name {
        lemma_project_id(projects.skip(1), name);
        if let Some(id) = project_id(projects, name) {
            let rest = projects.skip(1);
            let i = choose|i: int|
                0 <= i < rest.len() && (#[trigger] rest[i]).0 == name && rest[i].1 as int == id;
            assert(projects[i + 1] == rest[i]);
        }
    }
}

pub proof fn lemma_project_there(known: KnownModel, nodes: Seq<NodeModel>, name: Seq<char>)
    requires
        known_ok(known, nodes),
        project_id(known.projects, name) is Some,
    ensures
        of_kind(nodes, project_id(known.projects, name)->0, "project"@),
        canonical(nodes[project_id(known.projects, name)->0 - 1].name) == name,
{
    lemma_project_id(known.projects, name);
    let id = project_id(known.projects, name)->0;
    let i = choose|i: int|
        0 <= i < known.projects.len() && (#[trigger] known.projects[i]).0 == name
            && known.projects[i].1 as int == id;
    assert(known.projects[i].0 == name);
}

proof fn lemma_stands_stays(
    known: KnownModel,
    a: IndexModel,
    b: IndexModel,
    raw: Seq<char>,
    id: int,
)
    requires
        extends(a, b),
        stands_for(known, a.nodes, raw, id),
    ensures
        stands_for(known, b.nodes, raw, id),
{
    if let TargetModel::Entity(name) = target_of(known, raw) {
        lemma_named_stays(a, b, "entity"@, name);
    }
}

proof fn lemma_loop_stays(a: BuildModel, b: IndexModel, r: int, l: int, id: int)
    requires
        sound(a),
        extends(a.index, b),
        is_loop_of(a.index, r, l, id),
    ensures
        is_loop_of(b, r, l, id),
{
    let m = a.index;
    assert(b.notes[r] == m.notes[r]);
    assert(of_kind(m.nodes, m.notes[r].node_id, "note"@));
    assert(b.nodes[m.notes[r].node_id - 1] == m.nodes[m.notes[r].node_id - 1]);
    assert(b.nodes[id - 1] == m.nodes[id - 1]);
}

/// A reason stays a reason when rows are added.
proof fn lemma_evidence_stays(
    known: KnownModel,
    symbols: Seq<SymbolModel>,
    a: BuildModel,
    b: IndexModel,
    edge: EdgeModel,
)
    requires
        sound(a),
        extends(a.index, b),
        evidence(known, symbols, a.index, edge),
    ensures
        evidence(known, symbols, b, edge),
{
    let m = a.index;
    if exists|r: int, k: int| link_at(known, m, r, k, edge) {
        let (r, k) = choose|r: int, k: int| link_at(known, m, r, k, edge);
        assert(b.notes[r] == m.notes[r]);
        let links = extraction_of(m.notes[r].body, known.names).wiki_links;
        lemma_stands_stays(known, m, b, links[k], edge.dst);
        assert(link_at(known, b, r, k, edge));
    } else if exists|r: int, k: int| mention_at(known, m, r, k, edge) {
        let (r, k) = choose|r: int, k: int| mention_at(known, m, r, k, edge);
        assert(b.notes[r] == m.notes[r]);
        assert(mention_at(known, b, r, k, edge));
    } else if exists|r: int, k: int| span_at(known, m, r, k, edge) {
        let (r, k) = choose|r: int, k: int| span_at(known, m, r, k, edge);
        assert(b.notes[r] == m.notes[r]);
        let spans = extraction_of(m.notes[r].body, known.names).code_spans;
        lemma_stands_stays(known, m, b, spans[k], edge.dst);
        assert(span_at(known, b, r, k, edge));
    } else if exists|r: int, l: int| contains_at(m, r, l, edge) {
        let (r, l) = choose|r: int, l: int| contains_at(m, r, l, edge);
        assert(b.notes[r] == m.notes[r]);
        lemma_loop_stays(a, b, r, l, edge.dst);
        assert(contains_at(b, r, l, edge));
    } else if exists|r: int, l: int, k: int| loop_mention_at(known, m, r, l, k, edge) {
        let (r, l, k) = choose|r: int, l: int, k: int| loop_mention_at(known, m, r, l, k, edge);
        assert(b.notes[r] == m.notes[r]);
        lemma_loop_stays(a, b, r, l, edge.src);
        assert(loop_mention_at(known, b, r, l, k, edge));
    } else {
        let s = choose|s: int| defines_at(known, m, symbols, s, edge);
        lemma_stands_stays(known, m, b, symbols[s].name, edge.dst);
        assert(defines_at(known, b, symbols, s, edge));
    }
}

proof fn lemma_known_stays(known: KnownModel, a: IndexModel, b: IndexModel)
    requires
        extends(a, b),
        known_ok(known, a.nodes),
    ensures
        known_ok(known, b.nodes),
{
    assert forall|i: int| 0 <= i < known.projects.len() implies {
        let id = (#[trigger] known.projects[i]).1 as int;
        of_kind(b.nodes, id, "project"@) && canonical(b.nodes[id - 1].name) == known.projects[i].0
    } by {
        let id = known.projects[i].1 as int;
        assert(of_kind(a.nodes, id, "project"@));
        assert(b.nodes[id - 1] == a.nodes[id - 1]);
    }
}

/// Adding a node keeps what the construction keeps. The node of a loop is loop `l` of note row
/// `r`.
proof fn lemma_node_step(
    known: KnownModel,
    symbols: Seq<SymbolModel>,
    b: BuildModel,
    kind: Seq<char>,
    name: Seq<char>,
    path: Option<Seq<char>>,
    meta: Seq<char>,
    c: BuildModel,
    r: int,
    l: int,
)
    requires
        kept(known, symbols, b),
        insert_node(b, kind, name, path, meta) == Ok::<BuildModel, RebuildError>(c),
        kind == "entity"@ ==> proper_name(known, name),
        kind == "loop"@ ==> is_loop_of(c.index, r, l, next_id(b)),
    ensures
        kept(known, symbols, c),
        extends(b.index, c.index),
        c.index.nodes == b.index.nodes.push(
            NodeModel { id: next_id(b), kind, name, path, meta },
        ),
        c.index.notes == b.index.notes,
        c.index.edges == b.index.edges,
        node_named(c.index.nodes, kind, name) == Some(next_id(b)),
{
    lemma_insert_node(b, kind, name, path, meta, c);
    lemma_known_stays(known, b.index, c.index);
    let m = b.index;
    let n = c.index;
    assert forall|e: int| 0 <= e < n.edges.len() implies evidence(
        known,
        symbols,
        n,
        #[trigger] n.edges[e],
    ) by {
        assert(evidence(known, symbols, m, m.edges[e]));
        lemma_evidence_stays(known, symbols, b, n, m.edges[e]);
    }
    assert forall|i: int|
        0 <= i < n.nodes.len() && (#[trigger] n.nodes[i]).kind == "entity"@ implies proper_name(
        known,
        n.nodes[i].name,
    ) by {
        if i < m.nodes.len() {
            assert(n.nodes[i] == m.nodes[i]);
        }
    }
    assert forall|i: int|
        0 <= i < n.nodes.len() && (#[trigger] n.nodes[i]).kind == "loop"@ implies is_some_loop(
        n,
        i + 1,
    ) by {
        if i < m.nodes.len() {
            assert(n.nodes[i] == m.nodes[i]);
            assert(is_some_loop(m, i + 1));
            let id = i + 1;
            let (q, k) = choose|q: int, k: int| is_loop_of(m, q, k, id);
            lemma_loop_stays(b, n, q, k, i + 1);
            assert(is_loop_of(n, q, k, i + 1));
        } else {
            assert(is_loop_of(n, r, l, i + 1));
        }
    }
}

/// Adding an edge for which there is a reason keeps what the construction keeps.
proof fn lemma_edge_step(
    known: KnownModel,
    symbols: Seq<SymbolModel>,
    b: BuildModel,
    edge: EdgeModel,
    c: BuildModel,
)
    requires
        kept(known, symbols, b),
        in_range(b.index.nodes, edge.src),
        in_range(b.index.nodes, edge.dst),
        evidence(known, symbols, b.index, edge),
        insert_edge(b, edge) == Ok::<BuildModel, RebuildError>(c),
    ensures
        kept(known, symbols, c),
        extends(b.index, c.index),
        c.index.nodes == b.index.nodes,
        c.index.notes == b.index.notes,
        has_edge_like(c.index.edges, edge),
{
    lemma_insert_edge(b, edge, c);
    let m = b.index;
    let n = c.index;
    assert forall|e: int| 0 <= e < n.edges.len() implies evidence(
        known,
        symbols,
        n,
        #[trigger] n.edges[e],
    ) by {
        if e < m.edges.len() {
            assert(n.edges[e] == m.edges[e]);
            lemma_evidence_stays(known, symbols, b, n, m.edges[e]);
        } else {
            lemma_evidence_stays(known, symbols, b, n, edge);
        }
    }
    assert forall|i: int|
        0 <= i < n.nodes.len() && (#[trigger] n.nodes[i]).kind == "loop"@ implies is_some_loop(
        n,
        i + 1,
    ) by {
        assert(is_some_loop(m, i + 1));
        let id = i + 1;
        let (q, k) = choose|q: int, k: int| is_loop_of(m, q, k, id);
        lemma_loop_stays(b, n, q, k, i + 1);
        assert(is_loop_of(n, q, k, i + 1));
    }
}

/// Whether a project mention of the note `src` is in the graph.
pub open spec fn mention_covered(
    known: KnownModel,
    m: IndexModel,
    src: int,
    mention: (Seq<char>, usize),
) -> bool {
    project_id(known.projects, canonical(mention.0)) matches Some(dst) ==> has_edge_like(
        m.edges,
        mention_edge(src, dst, mention.0, mention.1),
    )
}

/// Whether a wiki link of the note `src` is in the graph.
pub open spec fn link_covered(known: KnownModel, m: IndexModel, src: int, link: Seq<char>) -> bool {
    match target_of(known, link) {
        TargetModel::Nothing => true,
        TargetModel::Project(dst) => has_edge_like(m.edges, link_edge(src, dst, link)),
        TargetModel::Entity(name) => node_named(m.nodes, "entity"@, name) matches Some(dst)
            && has_edge_like(m.edges, link_edge(src, dst, link)),
    }
}

/// Whether a backticked span of the note `src` is in the graph.
pub open spec fn span_covered(known: KnownModel, m: IndexModel, src: int, span: Seq<char>) -> bool {
    match target_of(known, span) {
        TargetModel::Entity(name) => node_named(m.nodes, "entity"@, name) matches Some(dst)
            && has_edge_like(m.edges, span_edge(src, dst, span)),
        _ => true,
    }
}

/// Whether a project that the text of loop `id` mentions is linked to it.
pub open spec fn loop_mention_covered(
    known: KnownModel,
    m: IndexModel,
    id: int,
    mention: (Seq<char>, usize),
) -> bool {
    project_id(known.projects, canonical(mention.0)) matches Some(dst) ==> has_edge_like(
        m.edges,
        loop_edge(id, dst, mention.0),
    )
}

/// Whether node `id` is loop `l` of note row `r`, linked to its note and to what it mentions.
pub open spec fn loop_linked(known: KnownModel, m: IndexModel, r: int, l: int, id: int) -> bool {
    let mentions = extraction_of(
        loops_of(m.notes[r].body)[l].text,
        known.names,
    ).project_mentions;
    &&& is_loop_of(m, r, l, id)
    &&& has_edge_like(m.edges, contains_edge(m.notes[r].node_id, id))
    &&& forall|k: int|
        0 <= k < mentions.len() ==> loop_mention_covered(known, m, id, #[trigger] mentions[k])
}

/// Whether loop `l` of note row `r` is in the graph.
pub open spec fn loop_covered(known: KnownModel, m: IndexModel, r: int, l: int) -> bool {
    exists|id: int| loop_linked(known, m, r, l, id)
}

/// Whether everything that note row `r` says is in the graph.
pub open spec fn note_covered(known: KnownModel, m: IndexModel, r: int) -> bool {
    let src = m.notes[r].node_id;
    let found = extraction_of(m.notes[r].body, known.names);
    let loops = loops_of(m.notes[r].body);
    &&& forall|k: int|
        0 <= k < found.project_mentions.len() ==> mention_covered(
            known,
            m,
            src,
            #[trigger] found.project_mentions[k],
        )
    &&& forall|k: int|
        0 <= k < found.wiki_links.len() ==> link_covered(
            known,
            m,
            src,
            #[trigger] found.wiki_links[k],
        )
    &&& forall|k: int|
        0 <= k < found.code_spans.len() ==> span_covered(
            known,
            m,
            src,
            #[trigger] found.code_spans[k],
        )
    &&& forall|l: int| 0 <= l < loops.len() ==> #[trigger] loop_covered(known, m, r, l)
}

proof fn lemma_mention_stays(
    known: KnownModel,
    a: IndexModel,
    b: IndexModel,
    src: int,
    mention: (Seq<char>, usize),
)
    requires
        extends(a, b),
        mention_covered(known, a, src, mention),
    ensures
        mention_covered(known, b, src, mention),
{
    if let Some(dst) = project_id(known.projects, canonical(mention.0)) {
        lemma_edge_stays(a, b, mention_edge(src, dst, mention.0, mention.1));
    }
}

proof fn lemma_link_stays(
    known: KnownModel,
    a: IndexModel,
    b: IndexModel,
    src: int,
    link: Seq<char>,
)
    requires
        extends(a, b),
        link_covered(known, a, src, link),
    ensures
        link_covered(known, b, src, link),
{
    match target_of(known, link) {
        TargetModel::Nothing => {},
        TargetModel::Project(dst) => {
            lemma_edge_stays(a, b, link_edge(src, dst, link));
        },
        TargetModel::Entity(name) => {
            lemma_named_stays(a, b, "entity"@, name);
            lemma_edge_stays(
                a,
                b,
                link_edge(src, node_named(a.nodes, "entity"@, name)->0, link),
            );
        },
    }
}

proof fn lemma_span_stays(
    known: KnownModel,
    a: IndexModel,
    b: IndexModel,
    src: int,
    span: Seq<char>,
)
    requires
        extends(a, b),
        span_covered(known, a, src, span),
    ensures
        span_covered(known, b, src, span),
{
    if let TargetModel::Entity(name) = target_of(known, span) {
        lemma_named_stays(a, b, "entity"@, name);
        lemma_edge_stays(a, b, span_edge(src, node_named(a.nodes, "entity"@, name)->0, span));
    }
}

proof fn lemma_covered_loop_stays(known: KnownModel, a: BuildModel, b: IndexModel, r: int, l: int)
    requires
        sound(a),
        extends(a.index, b),
        loop_covered(known, a.index, r, l),
    ensures
        loop_covered(known, b, r, l),
{
    let m = a.index;
    let id = choose|id: int| loop_linked(known, m, r, l, id);
    assert(b.notes[r] == m.notes[r]);
    lemma_loop_stays(a, b, r, l, id);
    lemma_edge_stays(m, b, contains_edge(m.notes[r].node_id, id));
    let mentions = extraction_of(
        loops_of(m.notes[r].body)[l].text,
        known.names,
    ).project_mentions;
    assert forall|k: int| 0 <= k < mentions.len() implies loop_mention_covered(
        known,
        b,
        id,
        #[trigger] mentions[k],
    ) by {
        assert(loop_mention_covered(known, m, id, mentions[k]));
        if let Some(dst) = project_id(known.projects, canonical(mentions[k].0)) {
            lemma_edge_stays(m, b, loop_edge(id, dst, mentions[k].0));
        }
    }
    assert(loop_linked(known, b, r, l, id));
}

proof fn lemma_note_stays(known: KnownModel, a: BuildModel, b: IndexModel, r: int)
    requires
        sound(a),
        extends(a.index, b),
        0 <= r < a.index.notes.len(),
        note_covered(known, a.index, r),
    ensures
        note_covered(known, b, r),
{
    let m = a.index;
    assert(b.notes[r] == m.notes[r]);
    let src = m.notes[r].node_id;
    let found = extraction_of(m.notes[r].body, known.names);
    let loops = loops_of(m.notes[r].body);
    assert forall|k: int| 0 <= k < found.project_mentions.len() implies mention_covered(
        known,
        b,
        src,
        #[trigger] found.project_mentions[k],
    ) by {
        lemma_mention_stays(known, m, b, src, found.project_mentions[k]);
    }
    assert forall|k: int| 0 <= k < found.wiki_links.len() implies link_covered(
        known,
        b,
        src,
        #[trigger] found.wiki_links[k],
    ) by {
        lemma_link_stays(known, m, b, src, found.wiki_links[k]);
    }
    assert forall|k: int| 0 <= k < found.code_spans.len() implies span_covered(
        known,
        b,
        src,
        #[trigger] found.code_spans[k],
    ) by {
        lemma_span_stays(known, m, b, src, found.code_spans[k]);
    }
    assert forall|l: int| 0 <= l < loops.len() implies #[trigger] loop_covered(
        known,
        b,
        r,
        l,
    ) by {
        assert(loop_covered(known, m, r, l));
        lemma_covered_loop_stays(known, a, b, r, l);
    }
}

proof fn lemma_add_mentions(
    known: KnownModel,
    symbols: Seq<SymbolModel>,
    b: BuildModel,
    r: int,
    from: int,
    c: BuildModel,
)
    requires
        kept(known, symbols, b),
        0 <= r < b.index.notes.len(),
        0 <= from <= extraction_of(b.index.notes[r].body, known.names).project_mentions.len(),
        add_mentions(
            known,
            b,
            b.index.notes[r].node_id,
            extraction_of(b.index.notes[r].body, known.names).project_mentions,
            from,
        ) == Ok::<BuildModel, RebuildError>(c),
    ensures
        kept(known, symbols, c),
        extends(b.index, c.index),
        c.index.notes == b.index.notes,
        c.index.nodes == b.index.nodes,
        forall|k: int|
            from <= k < extraction_of(
                b.index.notes[r].body,
                known.names,
            ).project_mentions.len() ==> mention_covered(
                known,
                c.index,
                b.index.notes[r].node_id,
                #[trigger] extraction_of(b.index.notes[r].body, known.names).project_mentions[k],
            ),
    decreases
            extraction_of(b.index.notes[r].body, known.names).project_mentions.len() - from,
{
    let src = b.index.notes[r].node_id;
    let mentions = extraction_of(b.index.notes[r].body, known.names).project_mentions;
    if from < mentions.len() {
        let name = canonical(mentions[from].0);
        let mid = match project_id(known.projects, name) {
            None => b,
            Some(dst) => {
                let edge = mention_edge(src, dst, mentions[from].0, mentions[from].1);
                let next = insert_edge(b, edge)->Ok_0;
                lemma_project_there(known, b.index.nodes, name);
                assert(mention_at(known, b.index, r, from, edge));
                assert(of_kind(b.index.nodes, src, "note"@));
                lemma_edge_step(known, symbols, b, edge, next);
                next
            },
        };
        lemma_add_mentions(known, symbols, mid, r, from + 1, c);
        lemma_extends_twice(b.index, mid.index, c.index);
        assert(mention_covered(known, mid.index, src, mentions[from]));
        lemma_mention_stays(known, mid.index, c.index, src, mentions[from]);
        assert forall|k: int| from <= k < mentions.len() implies mention_covered(
            known,
            c.index,
            src,
            #[trigger] mentions[k],
        ) by {
            if k > from {
                assert(from + 1 <= k);
            }
        }
    }
}

/// Adding the entity of a written name keeps what the construction keeps.
proof fn lemma_entity_step(
    known: KnownModel,
    symbols: Seq<SymbolModel>,
    b: BuildModel,
    name: Seq<char>,
    meta: Seq<char>,
    c: BuildModel,
)
    requires
        kept(known, symbols, b),
        proper_name(known, name),
        ensure_node(b, "entity"@, name, None, meta) == Ok::<BuildModel, RebuildError>(c),
    ensures
        kept(known, symbols, c),
        extends(b.index, c.index),
        c.index.notes == b.index.notes,
        node_named(c.index.nodes, "entity"@, name) is Some,
        in_range(c.index.nodes, entity_id(c, name)),
{
    if node_named(b.index.nodes, "entity"@, name) is None {
        reveal_strlit("entity");
        reveal_strlit("loop");
        assert("entity"@.len() != "loop"@.len());
        lemma_node_step(known, symbols, b, "entity"@, name, None, meta, c, 0, 0);
    }
    lemma_named_place(c.index.nodes, "entity"@, name);
}

proof fn lemma_add_link(
    known: KnownModel,
    symbols: Seq<SymbolModel>,
    b: BuildModel,
    r: int,
    k: int,
    c: BuildModel,
)
    requires
        kept(known, symbols, b),
        0 <= r < b.index.notes.len(),
        0 <= k < extraction_of(b.index.notes[r].body, known.names).wiki_links.len(),
        add_link(
            known,
            b,
            b.index.notes[r].node_id,
            extraction_of(b.index.notes[r].body, known.names).wiki_links[k],
        ) == Ok::<BuildModel, RebuildError>(c),
    ensures
        kept(known, symbols, c),
        extends(b.index, c.index),
        c.index.notes == b.index.notes,
        link_covered(
            known,
            c.index,
            b.index.notes[r].node_id,
            extraction_of(b.index.notes[r].body, known.names).wiki_links[k],
        ),
{
    let src = b.index.notes[r].node_id;
    let link = extraction_of(b.index.notes[r].body, known.names).wiki_links[k];
    assert(of_kind(b.index.nodes, src, "note"@));
    match target_of(known, link) {
        TargetModel::Nothing => {},
        TargetModel::Project(dst) => {
            let edge = link_edge(src, dst, link);
            lemma_project_there(known, b.index.nodes, canonical(link));
            assert(link_at(known, b.index, r, k, edge));
            lemma_edge_step(known, symbols, b, edge, c);
        },
        TargetModel::Entity(name) => {
            let mid = ensure_entity(b, name, link)->Ok_0;
            lemma_entity_step(known, symbols, b, name, display_meta(link), mid);
            let edge = link_edge(src, entity_id(mid, name), link);
            assert(mid.index.notes[r] == b.index.notes[r]);
            assert(link_at(known, mid.index, r, k, edge));
            lemma_edge_step(known, symbols, mid, edge, c);
            lemma_extends_twice(b.index, mid.index, c.index);
        },
    }
}

proof fn lemma_add_links(
    known: KnownModel,
    symbols: Seq<SymbolModel>,
    b: BuildModel,
    r: int,
    from: int,
    c: BuildModel,
)
    requires
        kept(known, symbols, b),
        0 <= r < b.index.notes.len(),
        0 <= from <= extraction_of(b.index.notes[r].body, known.names).wiki_links.len(),
        add_links(
            known,
            b,
            b.index.notes[r].node_id,
            extraction_of(b.index.notes[r].body, known.names).wiki_links,
            from,
        ) == Ok::<BuildModel, RebuildError>(c),
    ensures
        kept(known, symbols, c),
        extends(b.index, c.index),
        c.index.notes == b.index.notes,
        forall|k: int|
            from <= k < extraction_of(
                b.index.notes[r].body,
                known.names,
            ).wiki_links.len() ==> link_covered(
                known,
                c.index,
                b.index.notes[r].node_id,
                #[trigger] extraction_of(b.index.notes[r].body, known.names).wiki_links[k],
            ),
    decreases extraction_of(b.index.notes[r].body, known.names).wiki_links.len() - from,
{
    let src = b.index.notes[r].node_id;
    let links = extraction_of(b.index.notes[r].body, known.names).wiki_links;
    if from < links.len() {
        let mid = add_link(known, b, src, links[from])->Ok_0;
        lemma_add_link(known, symbols, b, r, from, mid);
        lemma_add_links(known, symbols, mid, r, from + 1, c);
        lemma_extends_twice(b.index, mid.index, c.index);
        lemma_link_stays(known, mid.index, c.index, src, links[from]);
        assert forall|k: int| from <= k < links.len() implies link_covered(
            known,
            c.index,
            src,
            #[trigger] links[k],
        ) by {
            if k > from {
                assert(from + 1 <= k);
            }
        }
    }
}

proof fn lemma_add_span(
    known: KnownModel,
    symbols: Seq<SymbolModel>,
    b: BuildModel,
    r: int,
    k: int,
    c: BuildModel,
)
    requires
        kept(known, symbols, b),
        0 <= r < b.index.notes.len(),
        0 <= k < extraction_of(b.index.notes[r].body, known.names).code_spans.len(),
        add_span(
            known,
            b,
            b.index.notes[r].node_id,
            extraction_of(b.index.notes[r].body, known.names).code_spans[k],
        ) == Ok::<BuildModel, RebuildError>(c),
    ensures
        kept(known, symbols, c),
        extends(b.index, c.index),
        c.index.notes == b.index.notes,
        span_covered(
            known,
            c.index,
            b.index.notes[r].node_id,
            extraction_of(b.index.notes[r].body, known.names).code_spans[k],
        ),
{
    let src = b.index.notes[r].node_id;
    let span = extraction_of(b.index.notes[r].body, known.names).code_spans[k];
    assert(of_kind(b.index.nodes, src, "note"@));
    if let TargetModel::Entity(name) = target_of(known, span) {
        let mid = ensure_entity(b, name, span)->Ok_0;
        lemma_entity_step(known, symbols, b, name, display_meta(span), mid);
        let edge = span_edge(src, entity_id(mid, name), span);
        assert(mid.index.notes[r] == b.index.notes[r]);
        assert(span_at(known, mid.index, r, k, edge));
        lemma_edge_step(known, symbols, mid, edge, c);
        lemma_extends_twice(b.index, mid.index, c.index);
    }
}

proof fn lemma_add_spans(
    known: KnownModel,
    symbols: Seq<SymbolModel>,
    b: BuildModel,
    r: int,
    from: int,
    c: BuildModel,
)
    requires
        kept(known, symbols, b),
        0 <= r < b.index.notes.len(),
        0 <= from <= extraction_of(b.index.notes[r].body, known.names).code_spans.len(),
        add_spans(
            known,
            b,
            b.index.notes[r].node_id,
            extraction_of(b.index.notes[r].body, known.names).code_spans,
            from,
        ) == Ok::<BuildModel, RebuildError>(c),
    ensures
        kept(known, symbols, c),
        extends(b.index, c.index),
        c.index.notes == b.index.notes,
        forall|k: int|
            from <= k < extraction_of(
                b.index.notes[r].body,
                known.names,
            ).code_spans.len() ==> span_covered(
                known,
                c.index,
                b.index.notes[r].node_id,
                #[trigger] extraction_of(b.index.notes[r].body, known.names).code_spans[k],
            ),
    decreases extraction_of(b.index.notes[r].body, known.names).code_spans.len() - from,
{
    let src = b.index.notes[r].node_id;
    let spans = extraction_of(b.index.notes[r].body, known.names).code_spans;
    if from < spans.len() {
        let mid = add_span(known, b, src, spans[from])->Ok_0;
        lemma_add_span(known, symbols, b, r, from, mid);
        lemma_add_spans(known, symbols, mid, r, from + 1, c);
        lemma_extends_twice(b.index, mid.index, c.index);
        lemma_span_stays(known, mid.index, c.index, src, spans[from]);
        assert forall|k: int| from <= k < spans.len() implies span_covered(
            known,
            c.index,
            src,
            #[trigger] spans[k],
        ) by {
            if k > from {
                assert(from + 1 <= k);
            }
        }
    }
}

proof fn lemma_add_loop_mentions(
    known: KnownModel,
    symbols: Seq<SymbolModel>,
    b: BuildModel,
    r: int,
    l: int,
    id: int,
    from: int,
    c: BuildModel,
)
    requires
        kept(known, symbols, b),
        is_loop_of(b.index, r, l, id),
        0 <= from <= extraction_of(
            loops_of(b.index.notes[r].body)[l].text,
            known.names,
        ).project_mentions.len(),
        add_loop_mentions(
            known,
            b,
            id,
            extraction_of(loops_of(b.index.notes[r].body)[l].text, known.names).project_mentions,
            from,
        ) == Ok::<BuildModel, RebuildError>(c),
    ensures
        kept(known, symbols, c),
        extends(b.index, c.index),
        c.index.notes == b.index.notes,
        c.index.nodes == b.index.nodes,
        forall|k: int|
            from <= k < extraction_of(
                loops_of(b.index.notes[r].body)[l].text,
                known.names,
            ).project_mentions.len() ==> loop_mention_covered(
                known,
                c.index,
                id,
                #[trigger] extraction_of(
                    loops_of(b.index.notes[r].body)[l].text,
                    known.names,
                ).project_mentions[k],
            ),
    decreases
            extraction_of(
                loops_of(b.index.notes[r].body)[l].text,
                known.names,
            ).project_mentions.len() - from,
{
    let mentions = extraction_of(
        loops_of(b.index.notes[r].body)[l].text,
        known.names,
    ).project_mentions;
    if from < mentions.len() {
        let name = canonical(mentions[from].0);
        let mid = match project_id(known.projects, name) {
            None => b,
            Some(dst) => {
                let edge = loop_edge(id, dst, mentions[from].0);
                let next = insert_edge(b, edge)->Ok_0;
                lemma_project_there(known, b.index.nodes, name);
                assert(loop_mention_at(known, b.index, r, l, from, edge));
                lemma_edge_step(known, symbols, b, edge, next);
                next
            },
        };
        lemma_add_loop_mentions(known, symbols, mid, r, l, id, from + 1, c);
        lemma_extends_twice(b.index, mid.index, c.index);
        assert(loop_mention_covered(known, mid.index, id, mentions[from]));
        if let Some(dst) = project_id(known.projects, name) {
            lemma_edge_stays(mid.index, c.index, loop_edge(id, dst, mentions[from].0));
        }
        assert forall|k: int| from <= k < mentions.len() implies loop_mention_covered(
            known,
            c.index,
            id,
            #[trigger] mentions[k],
        ) by {
            if k > from {
                assert(from + 1 <= k);
            }
        }
    }
}

proof fn lemma_add_loop(
    known: KnownModel,
    symbols: Seq<SymbolModel>,
    b: BuildModel,
    r: int,
    path: Seq<char>,
    l: int,
    c: BuildModel,
)
    requires
        kept(known, symbols, b),
        0 <= r < b.index.notes.len(),
        b.index.nodes[b.index.notes[r].node_id - 1].name == path,
        0 <= l < loops_of(b.index.notes[r].body).len(),
        add_loop(
            known,
            b,
            b.index.notes[r].node_id,
            path,
            loops_of(b.index.notes[r].body)[l],
            l,
        ) == Ok::<BuildModel, RebuildError>(c),
    ensures
        kept(known, symbols, c),
        extends(b.index, c.index),
        c.index.notes == b.index.notes,
        loop_covered(known, c.index, r, l),
        c.index.nodes.len() == b.index.nodes.len() + 1,
        c.index.nodes.last().kind == "loop"@,
        c.index.nodes.last().name == loop_name(path, l),
{
    let m = b.index;
    let note_id = m.notes[r].node_id;
    let item = loops_of(m.notes[r].body)[l];
    let id = next_id(b);
    assert(of_kind(m.nodes, note_id, "note"@));
    let with_node = insert_node(b, "loop"@, loop_name(path, l), Some(path), loop_meta(item))->Ok_0;
    lemma_insert_node(b, "loop"@, loop_name(path, l), Some(path), loop_meta(item), with_node);
    assert(with_node.index.nodes[note_id - 1] == m.nodes[note_id - 1]);
    assert(is_loop_of(with_node.index, r, l, id));
    reveal_strlit("entity");
    reveal_strlit("loop");
    assert("entity"@.len() != "loop"@.len());
    lemma_node_step(
        known,
        symbols,
        b,
        "loop"@,
        loop_name(path, l),
        Some(path),
        loop_meta(item),
        with_node,
        r,
        l,
    );
    let edge = contains_edge(note_id, id);
    let with_edge = insert_edge(with_node, edge)->Ok_0;
    assert(contains_at(with_node.index, r, l, edge));
    lemma_edge_step(known, symbols, with_node, edge, with_edge);
    let counted = count_loop(with_edge)->Ok_0;
    assert(counted.index == with_edge.index);
    assert(kept(known, symbols, counted));
    lemma_add_loop_mentions(known, symbols, counted, r, l, id, 0, c);
    lemma_extends_twice(m, with_node.index, with_edge.index);
    lemma_extends_twice(m, with_edge.index, c.index);
    lemma_edge_stays(with_edge.index, c.index, edge);
    lemma_loop_stays(counted, c.index, r, l, id);
    assert(loop_linked(known, c.index, r, l, id));
}

proof fn lemma_add_loops(
    known: KnownModel,
    symbols: Seq<SymbolModel>,
    b: BuildModel,
    r: int,
    path: Seq<char>,
    from: int,
    c: BuildModel,
)
    requires
        kept(known, symbols, b),
        0 <= r < b.index.notes.len(),
        b.index.nodes[b.index.notes[r].node_id - 1].name == path,
        0 <= from <= loops_of(b.index.notes[r].body).len(),
        add_loops(
            known,
            b,
            b.index.notes[r].node_id,
            path,
            loops_of(b.index.notes[r].body),
            from,
        ) == Ok::<BuildModel, RebuildError>(c),
    ensures
        kept(known, symbols, c),
        extends(b.index, c.index),
        c.index.notes == b.index.notes,
        forall|l: int|
            from <= l < loops_of(b.index.notes[r].body).len() ==> #[trigger] loop_covered(
                known,
                c.index,
                r,
                l,
            ),
    decreases loops_of(b.index.notes[r].body).len() - from,
{
    let loops = loops_of(b.index.notes[r].body);
    let src = b.index.notes[r].node_id;
    if from < loops.len() {
        let mid = add_loop(known, b, src, path, loops[from], from)->Ok_0;
        lemma_add_loop(known, symbols, b, r, path, from, mid);
        assert(of_kind(b.index.nodes, src, "note"@));
        assert(mid.index.nodes[src - 1] == b.index.nodes[src - 1]);
        lemma_add_loops(known, symbols, mid, r, path, from + 1, c);
        lemma_extends_twice(b.index, mid.index, c.index);
        lemma_covered_loop_stays(known, mid, c.index, r, from);
        assert forall|l: int| from <= l < loops.len() implies #[trigger] loop_covered(
            known,
            c.index,
            r,
            l,
        ) by {
            if l > from {
                assert(from + 1 <= l);
            }
        }
    }
}

/// Whether note row `r` is that of a scanned note.
pub open spec fn row_of(m: IndexModel, r: int, note: NoteFileModel) -> bool {
    let row = m.notes[r];
    &&& 0 <= r < m.notes.len()
    &&& of_kind(m.nodes, row.node_id, "note"@)
    &&& m.nodes[row.node_id - 1].name == note.path
    &&& m.nodes[row.node_id - 1].path == Some(note.path)
    &&& row.body == note.body
    &&& row.note_date == note.note_date
    &&& row.mtime == note.mtime_date
}

proof fn lemma_row_stays(a: IndexModel, b: IndexModel, r: int, note: NoteFileModel)
    requires
        extends(a, b),
        row_of(a, r, note),
    ensures
        row_of(b, r, note),
{
    assert(b.notes[r] == a.notes[r]);
    assert(b.nodes[a.notes[r].node_id - 1] == a.nodes[a.notes[r].node_id - 1]);
}

proof fn lemma_row_step(
    known: KnownModel,
    symbols: Seq<SymbolModel>,
    b: BuildModel,
    node_id: int,
    note: NoteFileModel,
)
    requires
        kept(known, symbols, b),
        of_kind(b.index.nodes, node_id, "note"@),
        forall|i: int|
            0 <= i < b.index.notes.len() ==> (#[trigger] b.index.notes[i]).node_id < node_id,
    ensures
        kept(known, symbols, with_row(b, node_id, note)),
        extends(b.index, with_row(b, node_id, note).index),
{
    let c = with_row(b, node_id, note);
    let m = b.index;
    let n = c.index;
    assert(notes_sorted(n.notes)) by {
        assert forall|i: int, j: int| 0 <= i < j < n.notes.len() implies (
        #[trigger] n.notes[i]).node_id < (#[trigger] n.notes[j]).node_id by {
            assert(n.notes[i] == m.notes[i]);
            if j < m.notes.len() {
                assert(n.notes[j] == m.notes[j]);
            }
        }
    }
    assert forall|i: int| 0 <= i < n.notes.len() implies of_kind(
        n.nodes,
        (#[trigger] n.notes[i]).node_id,
        "note"@,
    ) by {
        if i < m.notes.len() {
            assert(n.notes[i] == m.notes[i]);
        }
    }
    assert(sound(c));
    assert forall|e: int| 0 <= e < n.edges.len() implies evidence(
        known,
        symbols,
        n,
        #[trigger] n.edges[e],
    ) by {
        lemma_evidence_stays(known, symbols, b, n, m.edges[e]);
    }
    assert forall|i: int|
        0 <= i < n.nodes.len() && (#[trigger] n.nodes[i]).kind == "loop"@ implies is_some_loop(
        n,
        i + 1,
    ) by {
        assert(is_some_loop(m, i + 1));
        let id = i + 1;
        let (q, k) = choose|q: int, k: int| is_loop_of(m, q, k, id);
        lemma_loop_stays(b, n, q, k, i + 1);
        assert(is_loop_of(n, q, k, i + 1));
    }
}

proof fn lemma_add_note(
    known: KnownModel,
    symbols: Seq<SymbolModel>,
    b: BuildModel,
    note: NoteFileModel,
    c: BuildModel,
)
    requires
        kept(known, symbols, b),
        add_note(known, b, note) == Ok::<BuildModel, RebuildError>(c),
    ensures
        kept(known, symbols, c),
        extends(b.index, c.index),
        c.index.notes.len() == b.index.notes.len() + 1,
        row_of(c.index, b.index.notes.len() as int, note),
        note_covered(known, c.index, b.index.notes.len() as int),
{
    let id = next_id(b);
    let r = b.index.notes.len() as int;
    let found = extraction_of(note.body, known.names);
    let with_node = insert_node(b, "note"@, note.path, Some(note.path), "{}"@)->Ok_0;
    reveal_strlit("entity");
    reveal_strlit("loop");
    reveal_strlit("note");
    assert("entity"@.len() != "note"@.len());
    assert("loop"@[0] != "note"@[0]);
    lemma_node_step(
        known,
        symbols,
        b,
        "note"@,
        note.path,
        Some(note.path),
        "{}"@,
        with_node,
        0,
        0,
    );
    assert forall|i: int| 0 <= i < with_node.index.notes.len() implies (
    #[trigger] with_node.index.notes[i]).node_id < id by {
        assert(of_kind(b.index.nodes, b.index.notes[i].node_id, "note"@));
    }
    let with_text = with_row(with_node, id, note);
    lemma_row_step(known, symbols, with_node, id, note);
    assert(row_of(with_text.index, r, note));
    let d = add_mentions(known, with_text, id, found.project_mentions, 0)->Ok_0;
    lemma_add_mentions(known, symbols, with_text, r, 0, d);
    assert(d.index.notes[r].node_id == id);
    let f = add_links(known, d, id, found.wiki_links, 0)->Ok_0;
    lemma_add_links(known, symbols, d, r, 0, f);
    let g = add_spans(known, f, id, found.code_spans, 0)->Ok_0;
    lemma_add_spans(known, symbols, f, r, 0, g);
    lemma_extends_twice(with_text.index, d.index, f.index);
    lemma_extends_twice(with_text.index, f.index, g.index);
    lemma_row_stays(with_text.index, g.index, r, note);
    lemma_add_loops(known, symbols, g, r, note.path, 0, c);
    lemma_extends_twice(b.index, with_node.index, with_text.index);
    lemma_extends_twice(b.index, with_text.index, g.index);
    lemma_extends_twice(b.index, g.index, c.index);
    lemma_row_stays(g.index, c.index, r, note);
    lemma_extends_twice(d.index, f.index, g.index);
    lemma_extends_twice(d.index, g.index, c.index);
    lemma_extends_twice(f.index, g.index, c.index);
    assert forall|k: int| 0 <= k < found.project_mentions.len() implies mention_covered(
        known,
        c.index,
        id,
        #[trigger] found.project_mentions[k],
    ) by {
        assert(mention_covered(known, d.index, id, found.project_mentions[k]));
        lemma_mention_stays(known, d.index, c.index, id, found.project_mentions[k]);
    }
    assert forall|k: int| 0 <= k < found.wiki_links.len() implies link_covered(
        known,
        c.index,
        id,
        #[trigger] found.wiki_links[k],
    ) by {
        assert(link_covered(known, f.index, id, found.wiki_links[k]));
        lemma_link_stays(known, f.index, c.index, id, found.wiki_links[k]);
    }
    assert forall|k: int| 0 <= k < found.code_spans.len() implies span_covered(
        known,
        c.index,
        id,
        #[trigger] found.code_spans[k],
    ) by {
        assert(span_covered(known, g.index, id, found.code_spans[k]));
        lemma_span_stays(known, g.index, c.index, id, found.code_spans[k]);
    }
}

proof fn lemma_add_notes(
    known: KnownModel,
    symbols: Seq<SymbolModel>,
    b: BuildModel,
    notes: Seq<NoteFileModel>,
    from: int,
    c: BuildModel,
)
    requires
        kept(known, symbols, b),
        0 <= from <= notes.len(),
        b.index.notes.len() == from,
        add_notes(known, b, notes, from) == Ok::<BuildModel, RebuildError>(c),
    ensures
        kept(known, symbols, c),
        extends(b.index, c.index),
        c.index.notes.len() == notes.len(),
        forall|r: int|
            from <= r < notes.len() ==> row_of(c.index, r, #[trigger] notes[r]) && note_covered(
                known,
                c.index,
                r,
            ),
    decreases notes.len() - from,
{
    if from < notes.len() {
        let mid = add_note(known, b, notes[from])->Ok_0;
        lemma_add_note(known, symbols, b, notes[from], mid);
        lemma_add_notes(known, symbols, mid, notes, from + 1, c);
        lemma_extends_twice(b.index, mid.index, c.index);
        lemma_row_stays(mid.index, c.index, from, notes[from]);
        lemma_note_stays(known, mid, c.index, from);
        assert forall|r: int| from <= r < notes.len() implies row_of(
            c.index,
            r,
            #[trigger] notes[r],
        ) && note_covered(known, c.index, r) by {
            if r > from {
                assert(from + 1 <= r);
            }
        }
    }
}

/// Whether a code symbol is in the graph, with the edge from its repo where that is a known
/// project.
pub open spec fn symbol_covered(known: KnownModel, m: IndexModel, symbol: SymbolModel) -> bool {
    match target_of(known, symbol.name) {
        TargetModel::Entity(name) => {
            &&& node_named(m.nodes, "entity"@, name) is Some
            &&& project_id(known.projects, canonical(symbol.repo)) matches Some(src)
                ==> has_edge_like(
                m.edges,
                defines_edge(src, node_named(m.nodes, "entity"@, name)->0, symbol.file),
            )
        },
        _ => true,
    }
}

proof fn lemma_symbol_stays(known: KnownModel, a: IndexModel, b: IndexModel, symbol: SymbolModel)
    requires
        extends(a, b),
        symbol_covered(known, a, symbol),
    ensures
        symbol_covered(known, b, symbol),
{
    if let TargetModel::Entity(name) = target_of(known, symbol.name) {
        lemma_named_stays(a, b, "entity"@, name);
        if let Some(src) = project_id(known.projects, canonical(symbol.repo)) {
            lemma_edge_stays(
                a,
                b,
                defines_edge(src, node_named(a.nodes, "entity"@, name)->0, symbol.file),
            );
        }
    }
}

proof fn lemma_add_symbol(
    known: KnownModel,
    symbols: Seq<SymbolModel>,
    b: BuildModel,
    s: int,
    c: BuildModel,
)
    requires
        kept(known, symbols, b),
        0 <= s < symbols.len(),
        add_symbol(known, b, symbols[s]) == Ok::<BuildModel, RebuildError>(c),
    ensures
        kept(known, symbols, c),
        extends(b.index, c.index),
        c.index.notes == b.index.notes,
        symbol_covered(known, c.index, symbols[s]),
{
    let symbol = symbols[s];
    if let TargetModel::Entity(name) = target_of(known, symbol.name) {
        let mid = ensure_node(b, "entity"@, name, None, symbol_meta(symbol))->Ok_0;
        lemma_entity_step(known, symbols, b, name, symbol_meta(symbol), mid);
        if let Some(src) = project_id(known.projects, canonical(symbol.repo)) {
            let edge = defines_edge(src, entity_id(mid, name), symbol.file);
            lemma_project_there(known, mid.index.nodes, canonical(symbol.repo));
            assert(defines_at(known, mid.index, symbols, s, edge));
            lemma_edge_step(known, symbols, mid, edge, c);
            lemma_extends_twice(b.index, mid.index, c.index);
        }
    }
}

proof fn lemma_add_symbols(
    known: KnownModel,
    symbols: Seq<SymbolModel>,
    b: BuildModel,
    from: int,
    c: BuildModel,
)
    requires
        kept(known, symbols, b),
        0 <= from <= symbols.len(),
        add_symbols(known, b, symbols, from) == Ok::<BuildModel, RebuildError>(c),
    ensures
        kept(known, symbols, c),
        extends(b.index, c.index),
        c.index.notes == b.index.notes,
        forall|s: int|
            from <= s < symbols.len() ==> symbol_covered(known, c.index, #[trigger] symbols[s]),
    decreases symbols.len() - from,
{
    if from < symbols.len() {
        let mid = add_symbol(known, b, symbols[from])->Ok_0;
        lemma_add_symbol(known, symbols, b, from, mid);
        lemma_add_symbols(known, symbols, mid, from + 1, c);
        lemma_extends_twice(b.index, mid.index, c.index);
        lemma_symbol_stays(known, mid.index, c.index, symbols[from]);
        assert forall|s: int| from <= s < symbols.len() implies symbol_covered(
            known,
            c.index,
            #[trigger] symbols[s],
        ) by {
            if s > from {
                assert(from + 1 <= s);
            }
        }
    }
}

/// Whether there are projects and nothing else.
pub open spec fn only_projects(m: IndexModel) -> bool {
    &&& m.notes.len() == 0
    &&& m.edges.len() == 0
    &&& forall|i: int| 0 <= i < m.nodes.len() ==> (#[trigger] m.nodes[i]).kind == "project"@
}

proof fn lemma_add_projects(
    b: BuildModel,
    projects: Seq<ProjectModel>,
    cache: Seq<CachedModel>,
    gits: Seq<GitModel>,
    from: int,
    c: BuildModel,
)
    requires
        sound(b),
        only_projects(b.index),
        0 <= from <= projects.len(),
        add_projects(b, projects, cache, gits, from) == Ok::<BuildModel, RebuildError>(c),
    ensures
        sound(c),
        only_projects(c.index),
        extends(b.index, c.index),
        forall|i: int|
            from <= i < projects.len() ==> node_named(
                c.index.nodes,
                "project"@,
                (#[trigger] projects[i]).name,
            ) is Some,
    decreases projects.len() - from,
{
    if from < projects.len() {
        let p = projects[from];
        let meta = meta_of(p, cache, gits[from]);
        let mid = ensure_node(b, "project"@, p.name, Some(p.path), meta)->Ok_0;
        if node_named(b.index.nodes, "project"@, p.name) is None {
            lemma_insert_node(b, "project"@, p.name, Some(p.path), meta, mid);
            assert forall|i: int| 0 <= i < mid.index.nodes.len() implies (
            #[trigger] mid.index.nodes[i]).kind == "project"@ by {
                if i < b.index.nodes.len() {
                    assert(mid.index.nodes[i] == b.index.nodes[i]);
                }
            }
        }
        assert(node_named(mid.index.nodes, "project"@, p.name) is Some);
        lemma_add_projects(mid, projects, cache, gits, from + 1, c);
        lemma_extends_twice(b.index, mid.index, c.index);
        lemma_named_stays(mid.index, c.index, "project"@, p.name);
        assert forall|i: int| from <= i < projects.len() implies node_named(
            c.index.nodes,
            "project"@,
            (#[trigger] projects[i]).name,
        ) is Some by {
            if i > from {
                assert(from + 1 <= i);
            }
        }
    }
}

proof fn lemma_project_found(projects: Seq<(Seq<char>, i64)>, name: Seq<char>, i: int)
    requires
        0 <= i < projects.len(),
        projects[i].0 == name,
    ensures
        project_id(projects, name) is Some,
    decreases i,
{
    if i > 0 && projects[0].0 != name {
        assert(projects.skip(1)[i - 1] == projects[i]);
        lemma_project_found(projects.skip(1), name, i - 1);
    }
}

pub proof fn lemma_dictionary_members(
    projects: Seq<ProjectModel>,
    ignore: Seq<Seq<char>>,
    n: int,
)
    requires
        0 <= n <= projects.len(),
    ensures
        forall|k: int|
            0 <= k < dictionary(projects, ignore, n).len() ==> !ignore.contains(
                canonical(#[trigger] dictionary(projects, ignore, n)[k]),
            ) && exists|i: int|
                0 <= i < projects.len() && (#[trigger] projects[i]).name == dictionary(
                    projects,
                    ignore,
                    n,
                )[k],
    decreases n,
{
    if n > 0 {
        lemma_dictionary_members(projects, ignore, n - 1);
        let rest = dictionary(projects, ignore, n - 1);
        let all = dictionary(projects, ignore, n);
        assert forall|k: int| 0 <= k < all.len() implies !ignore.contains(
            canonical(#[trigger] all[k]),
        ) && exists|i: int| 0 <= i < projects.len() && (#[trigger] projects[i]).name == all[k] by {
            if k < rest.len() {
                assert(all[k] == rest[k]);
            } else {
                assert(projects[n - 1].name == all[k]);
            }
        }
    }
}

/// What names mean in the index of what was scanned.
pub open spec fn known_in(
    ignore: Seq<Seq<char>>,
    projects: Seq<ProjectModel>,
    cache: Seq<CachedModel>,
    gits: Seq<GitModel>,
) -> KnownModel {
    known_of(add_projects(nothing_yet(), projects, cache, gits, 0)->Ok_0, projects, ignore)
}

/// Once the projects are in the index, what names mean fits it.
proof fn lemma_known(
    ignore: Seq<Seq<char>>,
    projects: Seq<ProjectModel>,
    cache: Seq<CachedModel>,
    gits: Seq<GitModel>,
    symbols: Seq<SymbolModel>,
    b: BuildModel,
)
    requires
        add_projects(nothing_yet(), projects, cache, gits, 0) == Ok::<BuildModel, RebuildError>(b),
    ensures
        kept(known_of(b, projects, ignore), symbols, b),
        only_projects(b.index),
        forall|i: int|
            0 <= i < projects.len() ==> project_id(
                known_of(b, projects, ignore).projects,
                canonical((#[trigger] projects[i]).name),
            ) is Some,
{
    let known = known_of(b, projects, ignore);
    let nodes = b.index.nodes;
    lemma_add_projects(nothing_yet(), projects, cache, gits, 0, b);
    assert forall|i: int| 0 <= i < projects.len() implies project_id(
        known.projects,
        canonical((#[trigger] projects[i]).name),
    ) is Some by {
        lemma_named_place(nodes, "project"@, projects[i].name);
        let id = node_named(nodes, "project"@, projects[i].name)->0;
        assert(known.projects[id - 1].0 == canonical(nodes[id - 1].name));
        lemma_project_found(known.projects, canonical(projects[i].name), id - 1);
    }
    assert forall|i: int| 0 <= i < known.projects.len() implies {
        let id = (#[trigger] known.projects[i]).1 as int;
        of_kind(nodes, id, "project"@) && canonical(nodes[id - 1].name) == known.projects[i].0
    } by {
        assert(nodes[i].id == i + 1);
    }
    lemma_dictionary_members(projects, known.ignore, projects.len() as int);
    assert forall|k: int| 0 <= k < known.names.len() implies !known.ignore.contains(
        canonical(#[trigger] known.names[k]),
    ) && project_id(known.projects, canonical(known.names[k])) is Some by {
        let i = choose|i: int|
            0 <= i < projects.len() && (#[trigger] projects[i]).name == known.names[k];
        assert(project_id(known.projects, canonical(projects[i].name)) is Some);
    }
    reveal_strlit("entity");
    reveal_strlit("loop");
    reveal_strlit("project");
    assert("entity"@.len() == 6 && "loop"@.len() == 4 && "project"@.len() == 7);
}

/// What the whole construction keeps.
pub proof fn lemma_rebuilt(
    ignore: Seq<Seq<char>>,
    projects: Seq<ProjectModel>,
    cache: Seq<CachedModel>,
    gits: Seq<GitModel>,
    symbols: Seq<SymbolModel>,
    notes: Seq<NoteFileModel>,
    b: BuildModel,
)
    requires
        rebuilt(ignore, projects, cache, gits, symbols, notes) == Ok::<BuildModel, RebuildError>(b),
    ensures
        kept(known_in(ignore, projects, cache, gits), symbols, b),
        b.index.notes.len() == notes.len(),
        forall|r: int|
            0 <= r < notes.len() ==> row_of(b.index, r, #[trigger] notes[r]) && note_covered(
                known_in(ignore, projects, cache, gits),
                b.index,
                r,
            ),
        forall|s: int|
            0 <= s < symbols.len() ==> symbol_covered(
                known_in(ignore, projects, cache, gits),
                b.index,
                #[trigger] symbols[s],
            ),
        forall|i: int|
            0 <= i < projects.len() ==> project_id(
                known_in(ignore, projects, cache, gits).projects,
                canonical((#[trigger] projects[i]).name),
            ) is Some && node_named(b.index.nodes, "project"@, projects[i].name) is Some,
{
    let known = known_in(ignore, projects, cache, gits);
    let first = add_projects(nothing_yet(), projects, cache, gits, 0)->Ok_0;
    lemma_known(ignore, projects, cache, gits, symbols, first);
    lemma_add_projects(nothing_yet(), projects, cache, gits, 0, first);
    let second = add_symbols(known, first, symbols, 0)->Ok_0;
    lemma_add_symbols(known, symbols, first, 0, second);
    lemma_add_notes(known, symbols, second, notes, 0, b);
    lemma_extends_twice(first.index, second.index, b.index);
    assert forall|s: int| 0 <= s < symbols.len() implies symbol_covered(
        known,
        b.index,
        #[trigger] symbols[s],
    ) by {
        lemma_symbol_stays(known, second.index, b.index, symbols[s]);
    }
    assert forall|i: int| 0 <= i < projects.len() implies project_id(
        known.projects,
        canonical((#[trigger] projects[i]).name),
    ) is Some && node_named(b.index.nodes, "project"@, projects[i].name) is Some by {
        lemma_named_stays(first.index, b.index, "project"@, projects[i].name);
    }
}

/// A rebuilt index can be queried: its nodes are numbered from one on, notes and edges name nodes
/// that are there, and no node and no edge is there twice.
pub proof fn law_rebuilt_index_is_consistent(
    ignore: Seq<Seq<char>>,
    projects: Seq<ProjectModel>,
    cache: Seq<CachedModel>,
    gits: Seq<GitModel>,
    symbols: Seq<SymbolModel>,
    notes: Seq<NoteFileModel>,
)
    ensures
        rebuilt(ignore, projects, cache, gits, symbols, notes) matches Ok(b) ==> {
            &&& index_ok(b.index)
            &&& numbered(b.index.nodes)
            &&& distinct_nodes(b.index.nodes)
            &&& distinct_edges(b.index.edges)
        },
{
    if let Ok(b) = rebuilt(ignore, projects, cache, gits, symbols, notes) {
        lemma_rebuilt(ignore, projects, cache, gits, symbols, notes, b);
        let m = b.index;
        assert forall|i: int| 0 <= i < m.notes.len() implies has_node(
            m.nodes,
            (#[trigger] m.notes[i]).node_id,
        ) by {
            assert(of_kind(m.nodes, m.notes[i].node_id, "note"@));
            assert(m.nodes[m.notes[i].node_id - 1].id == m.notes[i].node_id);
        }
        assert forall|i: int| 0 <= i < m.edges.len() implies has_node(
            m.nodes,
            (#[trigger] m.edges[i]).src,
        ) && has_node(m.nodes, m.edges[i].dst) by {
            assert(m.nodes[m.edges[i].src - 1].id == m.edges[i].src);
            assert(m.nodes[m.edges[i].dst - 1].id == m.edges[i].dst);
        }
    }
}

/// Notes are the source of truth: every scanned note is in a rebuilt index, in its place and with
/// its text, and so is everything it says. Each of its wiki links, project mentions and backticked
/// spans that stands for something is an edge, and each of its open loops a node of its own.
pub proof fn law_every_note_is_indexed(
    ignore: Seq<Seq<char>>,
    projects: Seq<ProjectModel>,
    cache: Seq<CachedModel>,
    gits: Seq<GitModel>,
    symbols: Seq<SymbolModel>,
    notes: Seq<NoteFileModel>,
)
    ensures
        rebuilt(ignore, projects, cache, gits, symbols, notes) matches Ok(b) ==> {
            &&& b.index.notes.len() == notes.len()
            &&& forall|r: int|
                0 <= r < notes.len() ==> row_of(b.index, r, #[trigger] notes[r]) && note_covered(
                    known_in(ignore, projects, cache, gits),
                    b.index,
                    r,
                )
        },
{
    if let Ok(b) = rebuilt(ignore, projects, cache, gits, symbols, notes) {
        lemma_rebuilt(ignore, projects, cache, gits, symbols, notes, b);
    }
}

/// The dates of a rebuilt index are written as dates where those of the scanned files are: a note's
/// own date is read from its name and is a date in any case, so the day of its last change decides.
pub proof fn law_rebuilt_dates_are_plain(
    ignore: Seq<Seq<char>>,
    projects: Seq<ProjectModel>,
    cache: Seq<CachedModel>,
    gits: Seq<GitModel>,
    symbols: Seq<SymbolModel>,
    files: Seq<TextFileModel>,
)
    requires
        forall|i: int|
            0 <= i < files.len() ==> ((#[trigger] files[i]).mtime_date matches Some(d) ==> is_date(
                d,
            )),
    ensures
        rebuilt(
            ignore,
            projects,
            cache,
            gits,
            symbols,
            notes_upto(files, files.len() as int),
        ) matches Ok(b) ==> dates_ok(b.index),
{
    let notes = notes_upto(files, files.len() as int);
    lemma_scanned_dates(files, files.len() as int);
    if let Ok(b) = rebuilt(ignore, projects, cache, gits, symbols, notes) {
        law_every_note_is_indexed(ignore, projects, cache, gits, symbols, notes);
        assert forall|n: int| 0 <= n < b.index.notes.len() implies (seen_on(
            #[trigger] b.index.notes[n],
        ) matches Some(d) ==> is_date(d)) by {
            assert(row_of(b.index, n, notes[n]));
        }
    }
}

proof fn lemma_scanned_dates(files: Seq<TextFileModel>, n: int)
    requires
        0 <= n <= files.len(),
        forall|i: int|
            0 <= i < files.len() ==> ((#[trigger] files[i]).mtime_date matches Some(d) ==> is_date(
                d,
            )),
    ensures
        forall|k: int|
            0 <= k < notes_upto(files, n).len() ==> {
                let note = #[trigger] notes_upto(files, n)[k];
                &&& note.note_date matches Some(d) ==> is_date(d)
                &&& note.mtime_date matches Some(d) ==> is_date(d)
            },
    decreases n,
{
    if n > 0 {
        lemma_scanned_dates(files, n - 1);
    }
}

/// Every scanned project and every scanned code symbol that stands for an entity is in a rebuilt
/// index.
pub proof fn law_every_project_and_symbol_is_indexed(
    ignore: Seq<Seq<char>>,
    projects: Seq<ProjectModel>,
    cache: Seq<CachedModel>,
    gits: Seq<GitModel>,
    symbols: Seq<SymbolModel>,
    notes: Seq<NoteFileModel>,
)
    ensures
        rebuilt(ignore, projects, cache, gits, symbols, notes) matches Ok(b) ==> {
            &&& forall|i: int|
                0 <= i < projects.len() ==> node_named(
                    b.index.nodes,
                    "project"@,
                    (#[trigger] projects[i]).name,
                ) is Some
            &&& forall|s: int|
                0 <= s < symbols.len() ==> symbol_covered(
                    known_in(ignore, projects, cache, gits),
                    b.index,
                    #[trigger] symbols[s],
                )
        },
{
    if let Ok(b) = rebuilt(ignore, projects, cache, gits, symbols, notes) {
        lemma_rebuilt(ignore, projects, cache, gits, symbols, notes, b);
    }
}

/// Every edge of a rebuilt index has its evidence in what was scanned: a link, a mention or a span
/// of a note, a loop, or a definition. It carries the rationale and the weight of that evidence.
pub proof fn law_every_edge_has_evidence(
    ignore: Seq<Seq<char>>,
    projects: Seq<ProjectModel>,
    cache: Seq<CachedModel>,
    gits: Seq<GitModel>,
    symbols: Seq<SymbolModel>,
    notes: Seq<NoteFileModel>,
)
    ensures
        rebuilt(ignore, projects, cache, gits, symbols, notes) matches Ok(b) ==> evident(
            known_in(ignore, projects, cache, gits),
            symbols,
            b.index,
        ),
{
    if let Ok(b) = rebuilt(ignore, projects, cache, gits, symbols, notes) {
        lemma_rebuilt(ignore, projects, cache, gits, symbols, notes, b);
    }
}

/// Every edge of a rebuilt index carries its provenance and a rationale: `human` where somebody
/// wrote a wiki link, and `indexer` for everything else.
pub proof fn law_human_edges_are_wiki_links(
    ignore: Seq<Seq<char>>,
    projects: Seq<ProjectModel>,
    cache: Seq<CachedModel>,
    gits: Seq<GitModel>,
    symbols: Seq<SymbolModel>,
    notes: Seq<NoteFileModel>,
)
    ensures
        rebuilt(ignore, projects, cache, gits, symbols, notes) matches Ok(b) ==> forall|e: int|
            0 <= e < b.index.edges.len() ==> {
                let edge = #[trigger] b.index.edges[e];
                &&& edge.rationale is Some
                &&& edge.kind == "wikilink"@ ==> edge.provenance == "human"@
                &&& edge.kind != "wikilink"@ ==> edge.provenance == "indexer"@
            },
{
    if let Ok(b) = rebuilt(ignore, projects, cache, gits, symbols, notes) {
        lemma_rebuilt(ignore, projects, cache, gits, symbols, notes, b);
        reveal_strlit("wikilink");
        reveal_strlit("mentions");
        reveal_strlit("contains");
        reveal_strlit("defines");
        assert("wikilink"@[0] == 'w' && "mentions"@[0] == 'm' && "contains"@[0] == 'c'
            && "defines"@[0] == 'd');
        assert forall|e: int| 0 <= e < b.index.edges.len() implies {
            let edge = #[trigger] b.index.edges[e];
            &&& edge.rationale is Some
            &&& edge.kind == "wikilink"@ ==> edge.provenance == "human"@
            &&& edge.kind != "wikilink"@ ==> edge.provenance == "indexer"@
        } by {
            let known = known_in(ignore, projects, cache, gits);
            assert(evidence(known, symbols, b.index, b.index.edges[e]));
        }
    }
}

/// The names that a note mentions are among those that prose is searched for.
pub proof fn lemma_mention_names(names: Seq<Seq<char>>, prose: Seq<char>, spans: Seq<Seq<char>>, n: int)
    requires
        0 <= n <= names.len(),
    ensures
        forall|k: int|
            0 <= k < mentions_upto(names, prose, spans, n).len() ==> exists|i: int|
                0 <= i < names.len() && #[trigger] names[i] == (#[trigger] mentions_upto(
                    names,
                    prose,
                    spans,
                    n,
                )[k]).0,
    decreases n,
{
    if n > 0 {
        lemma_mention_names(names, prose, spans, n - 1);
        let rest = mentions_upto(names, prose, spans, n - 1);
        let all = mentions_upto(names, prose, spans, n);
        assert forall|k: int| 0 <= k < all.len() implies exists|i: int|
            0 <= i < names.len() && #[trigger] names[i] == (#[trigger] all[k]).0 by {
            if k < rest.len() {
                assert(all[k] == rest[k]);
            } else {
                assert(names[n - 1] == all[k].0);
            }
        }
    }
}

proof fn lemma_mention_not_ignored(
    known: KnownModel,
    nodes: Seq<NodeModel>,
    body: Seq<char>,
    k: int,
)
    requires
        known_ok(known, nodes),
        0 <= k < extraction_of(body, known.names).project_mentions.len(),
    ensures
        !known.ignore.contains(
            canonical(extraction_of(body, known.names).project_mentions[k].0),
        ),
{
    let prose = prose_of(body);
    let found = extraction_of(body, known.names);
    lemma_mention_names(known.names, prose, found.code_spans, known.names.len() as int);
    let name = found.project_mentions[k].0;
    let i = choose|i: int| 0 <= i < known.names.len() && #[trigger] known.names[i] == name;
    assert(!known.ignore.contains(canonical(known.names[i])));
}

/// The name under which a node is ignored: entities are named canonically already.
pub open spec fn ignored_as(node: NodeModel) -> Seq<char> {
    if node.kind == "entity"@ {
        node.name
    } else {
        canonical(node.name)
    }
}

/// Ignored names never become entities, and no link or mention leads to a node that is ignored.
/// The node of an ignored project still exists.
pub proof fn law_ignored_names_are_never_linked(
    ignore: Seq<Seq<char>>,
    projects: Seq<ProjectModel>,
    cache: Seq<CachedModel>,
    gits: Seq<GitModel>,
    symbols: Seq<SymbolModel>,
    notes: Seq<NoteFileModel>,
)
    ensures
        rebuilt(ignore, projects, cache, gits, symbols, notes) matches Ok(b) ==> {
            let m = b.index;
            let ignored = distinct_of(canonicals(ignore));
            &&& forall|i: int|
                0 <= i < m.nodes.len() && (#[trigger] m.nodes[i]).kind == "entity"@
                    ==> !ignored.contains(m.nodes[i].name)
            &&& forall|e: int|
                0 <= e < m.edges.len() && ((#[trigger] m.edges[e]).kind == "wikilink"@
                    || m.edges[e].kind == "mentions"@) ==> !ignored.contains(
                    ignored_as(m.nodes[m.edges[e].dst - 1]),
                )
        },
{
    if let Ok(b) = rebuilt(ignore, projects, cache, gits, symbols, notes) {
        lemma_rebuilt(ignore, projects, cache, gits, symbols, notes, b);
        let m = b.index;
        let known = known_in(ignore, projects, cache, gits);
        reveal_strlit("wikilink");
        reveal_strlit("mentions");
        reveal_strlit("contains");
        reveal_strlit("defines");
        reveal_strlit("entity");
        reveal_strlit("project");
        assert("wikilink"@[0] == 'w' && "mentions"@[0] == 'm' && "contains"@[0] == 'c'
            && "defines"@[0] == 'd');
        assert("entity"@.len() == 6 && "project"@.len() == 7);
        assert forall|e: int|
            0 <= e < m.edges.len() && ((#[trigger] m.edges[e]).kind == "wikilink"@
                || m.edges[e].kind == "mentions"@) implies !known.ignore.contains(
            ignored_as(m.nodes[m.edges[e].dst - 1]),
        ) by {
            let edge = m.edges[e];
            assert(evidence(known, symbols, m, edge));
            if exists|r: int, k: int| link_at(known, m, r, k, edge) {
                let (r, k) = choose|r: int, k: int| link_at(known, m, r, k, edge);
                let link = extraction_of(m.notes[r].body, known.names).wiki_links[k];
                lemma_target_not_ignored(known, b, link, edge.dst);
            } else if exists|r: int, k: int| mention_at(known, m, r, k, edge) {
                let (r, k) = choose|r: int, k: int| mention_at(known, m, r, k, edge);
                let name = extraction_of(m.notes[r].body, known.names).project_mentions[k].0;
                lemma_mention_not_ignored(known, m.nodes, m.notes[r].body, k);
                lemma_project_there(known, m.nodes, canonical(name));
            } else if exists|r: int, k: int| span_at(known, m, r, k, edge) {
                let (r, k) = choose|r: int, k: int| span_at(known, m, r, k, edge);
                let span = extraction_of(m.notes[r].body, known.names).code_spans[k];
                lemma_target_not_ignored(known, b, span, edge.dst);
            } else if exists|r: int, l: int, k: int| loop_mention_at(known, m, r, l, k, edge) {
                let (r, l, k) = choose|r: int, l: int, k: int|
                    loop_mention_at(known, m, r, l, k, edge);
                let text = loops_of(m.notes[r].body)[l].text;
                let name = extraction_of(text, known.names).project_mentions[k].0;
                lemma_mention_not_ignored(known, m.nodes, text, k);
                lemma_project_there(known, m.nodes, canonical(name));
            }
        }
    }
}

proof fn lemma_target_not_ignored(known: KnownModel, b: BuildModel, raw: Seq<char>, id: int)
    requires
        sound(b),
        known_ok(known, b.index.nodes),
        stands_for(known, b.index.nodes, raw, id),
    ensures
        !known.ignore.contains(ignored_as(b.index.nodes[id - 1])),
{
    let nodes = b.index.nodes;
    reveal_strlit("entity");
    reveal_strlit("project");
    assert("entity"@.len() == 6 && "project"@.len() == 7);
    match target_of(known, raw) {
        TargetModel::Project(_) => {
            lemma_project_there(known, nodes, canonical(raw));
        },
        TargetModel::Entity(name) => {
            lemma_named_place(nodes, "entity"@, name);
        },
        TargetModel::Nothing => {},
    }
}

/// Known projects take precedence over entities: no entity has the canonical name of a project,
/// and no entity is shorter than three bytes or a common word.
pub proof fn law_projects_take_precedence(
    ignore: Seq<Seq<char>>,
    projects: Seq<ProjectModel>,
    cache: Seq<CachedModel>,
    gits: Seq<GitModel>,
    symbols: Seq<SymbolModel>,
    notes: Seq<NoteFileModel>,
)
    ensures
        rebuilt(ignore, projects, cache, gits, symbols, notes) matches Ok(b) ==> {
            let m = b.index;
            &&& forall|i: int, p: int|
                0 <= i < m.nodes.len() && (#[trigger] m.nodes[i]).kind == "entity"@ && 0 <= p
                    < projects.len() ==> m.nodes[i].name != canonical((#[trigger] projects[p]).name)
            &&& forall|i: int|
                0 <= i < m.nodes.len() && (#[trigger] m.nodes[i]).kind == "entity"@ ==> byte_len(
                    m.nodes[i].name,
                ) >= 3 && !is_stopword(m.nodes[i].name)
        },
{
    if let Ok(b) = rebuilt(ignore, projects, cache, gits, symbols, notes) {
        lemma_rebuilt(ignore, projects, cache, gits, symbols, notes, b);
        let m = b.index;
        let known = known_in(ignore, projects, cache, gits);
        assert forall|i: int, p: int|
            0 <= i < m.nodes.len() && (#[trigger] m.nodes[i]).kind == "entity"@ && 0 <= p
                < projects.len() implies m.nodes[i].name != canonical(
            (#[trigger] projects[p]).name,
        ) by {
            assert(proper_name(known, m.nodes[i].name));
            assert(project_id(known.projects, canonical(projects[p].name)) is Some);
        }
    }
}

proof fn lemma_digits(n: nat, i: int)
    requires
        0 <= i < decimal(n).len(),
    ensures
        decimal(n)[i] != '#',
    decreases n,
{
    if n >= 10 {
        assert(decimal(n) == decimal(n / 10).push(digit_char(n % 10)));
        if i < decimal(n / 10).len() {
            lemma_digits(n / 10, i);
        }
    }
}

proof fn lemma_decimal_distinct(a: nat, b: nat)
    requires
        decimal(a) == decimal(b),
    ensures
        a == b,
    decreases a + b,
{
    assert(decimal(a).len() > 0 && decimal(b).len() > 0);
    assert(decimal(a).last() == digit_char(a % 10));
    assert(decimal(b).last() == digit_char(b % 10));
    assert(a % 10 == b % 10);
    if a >= 10 && b >= 10 {
        assert(decimal(a).drop_last() =~= decimal(a / 10));
        assert(decimal(b).drop_last() =~= decimal(b / 10));
        lemma_decimal_distinct(a / 10, b / 10);
    } else if a >= 10 {
        assert(decimal(a / 10).len() > 0);
        assert(decimal(b).len() == 1);
    } else if b >= 10 {
        assert(decimal(b / 10).len() > 0);
        assert(decimal(a).len() == 1);
    }
}

/// The identity of a loop names its note and its place in it.
proof fn lemma_loop_name(p: Seq<char>, a: int, q: Seq<char>, b: int)
    requires
        a >= 0,
        b >= 0,
        p.len() <= q.len(),
        loop_name(p, a) == loop_name(q, b),
    ensures
        p == q,
        a == b,
{
    reveal_strlit("#loop-");
    let x = loop_name(p, a);
    let y = loop_name(q, b);
    let n = q.len() as int;
    assert(y[n] == '#');
    if p.len() < n {
        let d = n - p.len();
        if d < 6 {
            assert(x[n] == "#loop-"@[d]);
            assert("#loop-"@[1] == 'l' && "#loop-"@[2] == 'o' && "#loop-"@[3] == 'o'
                && "#loop-"@[4] == 'p' && "#loop-"@[5] == '-');
            assert(d == 1 || d == 2 || d == 3 || d == 4 || d == 5);
        } else {
            assert(x.len() == y.len());
            assert(x[n] == decimal(a as nat)[d - 6]);
            lemma_digits(a as nat, d - 6);
        }
    }
    assert(x.take(n) =~= p);
    assert(y.take(n) =~= q);
    assert(x.skip(n + 6) =~= decimal(a as nat));
    assert(y.skip(n + 6) =~= decimal(b as nat));
    lemma_decimal_distinct(a as nat, b as nat);
}

/// Whether the nodes that `b` has more than `a` are of one kind.
pub open spec fn added(a: IndexModel, b: IndexModel, kind: Seq<char>) -> bool {
    forall|i: int| a.nodes.len() <= i < b.nodes.len() ==> (#[trigger] b.nodes[i]).kind == kind
}

proof fn lemma_link_outcome(known: KnownModel, b: BuildModel, src: int, raw: Seq<char>)
    ensures
        match add_link(known, b, src, raw) {
            Ok(c) => added(b.index, c.index, "entity"@),
            Err(e) => e is Full,
        },
        match add_span(known, b, src, raw) {
            Ok(c) => added(b.index, c.index, "entity"@),
            Err(e) => e is Full,
        },
{
}

proof fn lemma_links_outcome(
    known: KnownModel,
    symbols: Seq<SymbolModel>,
    b: BuildModel,
    r: int,
    from: int,
)
    requires
        kept(known, symbols, b),
        0 <= r < b.index.notes.len(),
        0 <= from <= extraction_of(b.index.notes[r].body, known.names).wiki_links.len(),
    ensures
        match add_links(
            known,
            b,
            b.index.notes[r].node_id,
            extraction_of(b.index.notes[r].body, known.names).wiki_links,
            from,
        ) {
            Ok(c) => added(b.index, c.index, "entity"@),
            Err(e) => e is Full,
        },
    decreases extraction_of(b.index.notes[r].body, known.names).wiki_links.len() - from,
{
    let src = b.index.notes[r].node_id;
    let links = extraction_of(b.index.notes[r].body, known.names).wiki_links;
    if from < links.len() {
        lemma_link_outcome(known, b, src, links[from]);
        if let Ok(mid) = add_link(known, b, src, links[from]) {
            lemma_add_link(known, symbols, b, r, from, mid);
            lemma_links_outcome(known, symbols, mid, r, from + 1);
            if let Ok(c) = add_links(known, mid, src, links, from + 1) {
                lemma_add_links(known, symbols, mid, r, from + 1, c);
                assert forall|i: int| b.index.nodes.len() <= i < c.index.nodes.len() implies (
                #[trigger] c.index.nodes[i]).kind == "entity"@ by {
                    if i < mid.index.nodes.len() {
                        assert(c.index.nodes[i] == mid.index.nodes[i]);
                    }
                }
            }
        }
    }
}

proof fn lemma_spans_outcome(
    known: KnownModel,
    symbols: Seq<SymbolModel>,
    b: BuildModel,
    r: int,
    from: int,
)
    requires
        kept(known, symbols, b),
        0 <= r < b.index.notes.len(),
        0 <= from <= extraction_of(b.index.notes[r].body, known.names).code_spans.len(),
    ensures
        match add_spans(
            known,
            b,
            b.index.notes[r].node_id,
            extraction_of(b.index.notes[r].body, known.names).code_spans,
            from,
        ) {
            Ok(c) => added(b.index, c.index, "entity"@),
            Err(e) => e is Full,
        },
    decreases extraction_of(b.index.notes[r].body, known.names).code_spans.len() - from,
{
    let src = b.index.notes[r].node_id;
    let spans = extraction_of(b.index.notes[r].body, known.names).code_spans;
    if from < spans.len() {
        lemma_link_outcome(known, b, src, spans[from]);
        if let Ok(mid) = add_span(known, b, src, spans[from]) {
            lemma_add_span(known, symbols, b, r, from, mid);
            lemma_spans_outcome(known, symbols, mid, r, from + 1);
            if let Ok(c) = add_spans(known, mid, src, spans, from + 1) {
                lemma_add_spans(known, symbols, mid, r, from + 1, c);
                assert forall|i: int| b.index.nodes.len() <= i < c.index.nodes.len() implies (
                #[trigger] c.index.nodes[i]).kind == "entity"@ by {
                    if i < mid.index.nodes.len() {
                        assert(c.index.nodes[i] == mid.index.nodes[i]);
                    }
                }
            }
        }
    }
}

proof fn lemma_mentions_outcome(
    known: KnownModel,
    b: BuildModel,
    src: int,
    mentions: Seq<(Seq<char>, usize)>,
    from: int,
)
    requires
        0 <= from <= mentions.len(),
    ensures
        add_mentions(known, b, src, mentions, from) matches Err(e) ==> e is Full,
        add_loop_mentions(known, b, src, mentions, from) matches Err(e) ==> e is Full,
    decreases mentions.len() - from,
{
    if from < mentions.len() {
        match project_id(known.projects, canonical(mentions[from].0)) {
            None => {
                lemma_mentions_outcome(known, b, src, mentions, from + 1);
            },
            Some(dst) => {
                let first = mention_edge(src, dst, mentions[from].0, mentions[from].1);
                if let Ok(c) = insert_edge(b, first) {
                    lemma_mentions_outcome(known, c, src, mentions, from + 1);
                }
                if let Ok(c) = insert_edge(b, loop_edge(src, dst, mentions[from].0)) {
                    lemma_mentions_outcome(known, c, src, mentions, from + 1);
                }
            },
        }
    }
}

/// Whether no loop of the note at `path` from place `from` on is in the index.
pub open spec fn fresh(nodes: Seq<NodeModel>, path: Seq<char>, from: int) -> bool {
    forall|i: int, l: int|
        0 <= i < nodes.len() && (#[trigger] nodes[i]).kind == "loop"@ && l >= from ==> nodes[i].name
            != #[trigger] loop_name(path, l)
}

proof fn lemma_loops_outcome(
    known: KnownModel,
    symbols: Seq<SymbolModel>,
    b: BuildModel,
    r: int,
    path: Seq<char>,
    from: int,
)
    requires
        kept(known, symbols, b),
        0 <= r < b.index.notes.len(),
        b.index.nodes[b.index.notes[r].node_id - 1].name == path,
        0 <= from <= loops_of(b.index.notes[r].body).len(),
        fresh(b.index.nodes, path, from),
    ensures
        match add_loops(
            known,
            b,
            b.index.notes[r].node_id,
            path,
            loops_of(b.index.notes[r].body),
            from,
        ) {
            Ok(c) => added(b.index, c.index, "loop"@),
            Err(e) => e is Full,
        },
    decreases loops_of(b.index.notes[r].body).len() - from,
{
    let loops = loops_of(b.index.notes[r].body);
    let src = b.index.notes[r].node_id;
    if from < loops.len() {
        lemma_named_place(b.index.nodes, "loop"@, loop_name(path, from));
        if let Some(id) = node_named(b.index.nodes, "loop"@, loop_name(path, from)) {
            assert(b.index.nodes[id - 1].name != loop_name(path, from));
        }
        let mentions = extraction_of(loops[from].text, known.names).project_mentions;
        match add_loop(known, b, src, path, loops[from], from) {
            Ok(mid) => {
                lemma_add_loop(known, symbols, b, r, path, from, mid);
                assert(of_kind(b.index.nodes, src, "note"@));
                assert(mid.index.nodes[src - 1] == b.index.nodes[src - 1]);
                assert forall|i: int, l: int|
                    0 <= i < mid.index.nodes.len() && (#[trigger] mid.index.nodes[i]).kind
                        == "loop"@ && l >= from + 1 implies mid.index.nodes[i].name
                    != #[trigger] loop_name(path, l) by {
                    if i < b.index.nodes.len() {
                        assert(mid.index.nodes[i] == b.index.nodes[i]);
                    } else if loop_name(path, from) == loop_name(path, l) {
                        lemma_loop_name(path, from, path, l);
                    }
                }
                lemma_loops_outcome(known, symbols, mid, r, path, from + 1);
                if let Ok(c) = add_loops(known, mid, src, path, loops, from + 1) {
                    lemma_add_loops(known, symbols, mid, r, path, from + 1, c);
                    assert forall|i: int| b.index.nodes.len() <= i < c.index.nodes.len() implies (
                    #[trigger] c.index.nodes[i]).kind == "loop"@ by {
                        if i < mid.index.nodes.len() {
                            assert(c.index.nodes[i] == mid.index.nodes[i]);
                        }
                    }
                }
            },
            Err(_) => {
                let meta = loop_meta(loops[from]);
                if let Ok(with_node) = insert_node(
                    b,
                    "loop"@,
                    loop_name(path, from),
                    Some(path),
                    meta,
                ) {
                    if let Ok(with_edge) = insert_edge(with_node, contains_edge(src, next_id(b))) {
                        if let Ok(counted) = count_loop(with_edge) {
                            lemma_mentions_outcome(known, counted, next_id(b), mentions, 0);
                        }
                    }
                }
            },
        }
    }
}

/// Whether the notes in the index are among the first `n` that were scanned.
pub open spec fn notes_among(nodes: Seq<NodeModel>, notes: Seq<NoteFileModel>, n: int) -> bool {
    forall|i: int|
        0 <= i < nodes.len() && (#[trigger] nodes[i]).kind == "note"@ ==> exists|r: int|
            0 <= r < n && nodes[i].name == (#[trigger] notes[r]).path
}

proof fn lemma_note_outcome(
    known: KnownModel,
    symbols: Seq<SymbolModel>,
    b: BuildModel,
    note: NoteFileModel,
)
    requires
        kept(known, symbols, b),
        node_named(b.index.nodes, "note"@, note.path) is None,
    ensures
        match add_note(known, b, note) {
            Ok(c) => forall|i: int|
                b.index.nodes.len() < i < c.index.nodes.len() ==> (
                #[trigger] c.index.nodes[i]).kind != "note"@,
            Err(e) => e is Full,
        },
{
    let id = next_id(b);
    let r = b.index.notes.len() as int;
    let found = extraction_of(note.body, known.names);
    reveal_strlit("entity");
    reveal_strlit("loop");
    reveal_strlit("note");
    assert("entity"@.len() != "note"@.len() && "entity"@.len() != "loop"@.len());
    assert("loop"@[0] != "note"@[0]);
    if let Ok(with_node) = insert_node(b, "note"@, note.path, Some(note.path), "{}"@) {
        lemma_node_step(
            known,
            symbols,
            b,
            "note"@,
            note.path,
            Some(note.path),
            "{}"@,
            with_node,
            0,
            0,
        );
        assert forall|i: int| 0 <= i < with_node.index.notes.len() implies (
        #[trigger] with_node.index.notes[i]).node_id < id by {
            assert(of_kind(b.index.nodes, b.index.notes[i].node_id, "note"@));
        }
        let with_text = with_row(with_node, id, note);
        lemma_row_step(known, symbols, with_node, id, note);
        lemma_mentions_outcome(known, with_text, id, found.project_mentions, 0);
        if let Ok(d) = add_mentions(known, with_text, id, found.project_mentions, 0) {
            lemma_add_mentions(known, symbols, with_text, r, 0, d);
            lemma_links_outcome(known, symbols, d, r, 0);
            if let Ok(f) = add_links(known, d, id, found.wiki_links, 0) {
                lemma_add_links(known, symbols, d, r, 0, f);
                lemma_spans_outcome(known, symbols, f, r, 0);
                if let Ok(g) = add_spans(known, f, id, found.code_spans, 0) {
                    lemma_add_spans(known, symbols, f, r, 0, g);
                    lemma_extends_twice(d.index, f.index, g.index);
                    assert forall|i: int| d.index.nodes.len() <= i < g.index.nodes.len() implies (
                    #[trigger] g.index.nodes[i]).kind == "entity"@ by {
                        if i < f.index.nodes.len() {
                            assert(g.index.nodes[i] == f.index.nodes[i]);
                        }
                    }
                    assert forall|i: int| 0 <= i < d.index.nodes.len() implies
                        #[trigger] g.index.nodes[i] == with_node.index.nodes[i] by {
                        assert(g.index.nodes[i] == d.index.nodes[i]);
                    }
                    lemma_fresh(known, symbols, b, g, note.path);
                    assert(g.index.nodes[id - 1] == with_node.index.nodes[id - 1]);
                    lemma_loops_outcome(known, symbols, g, r, note.path, 0);
                    if let Ok(c) = add_loops(known, g, id, note.path, loops_of(note.body), 0) {
                        lemma_add_loops(known, symbols, g, r, note.path, 0, c);
                        assert forall|i: int|
                            b.index.nodes.len() < i < c.index.nodes.len() implies (
                        #[trigger] c.index.nodes[i]).kind != "note"@ by {
                            if i < g.index.nodes.len() {
                                assert(c.index.nodes[i] == g.index.nodes[i]);
                            }
                        }
                    }
                }
            }
        }
    }
}

/// Before the loops of a new note are added, none of them is there.
proof fn lemma_fresh(
    known: KnownModel,
    symbols: Seq<SymbolModel>,
    b: BuildModel,
    g: BuildModel,
    path: Seq<char>,
)
    requires
        kept(known, symbols, b),
        node_named(b.index.nodes, "note"@, path) is None,
        b.index.nodes.len() <= g.index.nodes.len(),
        forall|i: int|
            0 <= i < b.index.nodes.len() ==> #[trigger] g.index.nodes[i] == b.index.nodes[i],
        forall|i: int|
            b.index.nodes.len() <= i < g.index.nodes.len() ==> (#[trigger] g.index.nodes[i]).kind
                != "loop"@,
    ensures
        fresh(g.index.nodes, path, 0),
{
    let m = b.index;
    lemma_named_place(m.nodes, "note"@, path);
    assert forall|i: int, l: int|
        0 <= i < g.index.nodes.len() && (#[trigger] g.index.nodes[i]).kind == "loop"@ && l
            >= 0 implies g.index.nodes[i].name != #[trigger] loop_name(path, l) by {
        assert(g.index.nodes[i] == m.nodes[i]);
        assert(is_some_loop(m, i + 1));
        let id = i + 1;
        let (q, k) = choose|q: int, k: int| is_loop_of(m, q, k, id);
        assert(of_kind(m.nodes, m.notes[q].node_id, "note"@));
        let other = m.nodes[m.notes[q].node_id - 1].name;
        assert(other != path);
        if loop_name(other, k) == loop_name(path, l) {
            if other.len() <= path.len() {
                lemma_loop_name(other, k, path, l);
            } else {
                lemma_loop_name(path, l, other, k);
            }
        }
    }
}

proof fn lemma_notes_outcome(
    known: KnownModel,
    symbols: Seq<SymbolModel>,
    b: BuildModel,
    notes: Seq<NoteFileModel>,
    from: int,
)
    requires
        kept(known, symbols, b),
        0 <= from <= notes.len(),
        distinct_paths(notes),
        notes_among(b.index.nodes, notes, from),
    ensures
        add_notes(known, b, notes, from) matches Err(e) ==> e is Full,
    decreases notes.len() - from,
{
    if from < notes.len() {
        let note = notes[from];
        lemma_named_place(b.index.nodes, "note"@, note.path);
        if let Some(id) = node_named(b.index.nodes, "note"@, note.path) {
            let r = choose|r: int|
                0 <= r < from && b.index.nodes[id - 1].name == (#[trigger] notes[r]).path;
            assert(notes[r].path != notes[from].path);
        }
        lemma_note_outcome(known, symbols, b, note);
        if let Ok(mid) = add_note(known, b, note) {
            lemma_add_note(known, symbols, b, note, mid);
            assert forall|i: int|
                0 <= i < mid.index.nodes.len() && (#[trigger] mid.index.nodes[i]).kind
                    == "note"@ implies exists|r: int|
                0 <= r < from + 1 && mid.index.nodes[i].name == (#[trigger] notes[r]).path by {
                if i < b.index.nodes.len() {
                    assert(mid.index.nodes[i] == b.index.nodes[i]);
                    let r = choose|r: int|
                        0 <= r < from && b.index.nodes[i].name == (#[trigger] notes[r]).path;
                    assert(mid.index.nodes[i].name == notes[r].path);
                } else {
                    lemma_new_note(known, symbols, b, note, mid);
                    assert(mid.index.nodes[i].name == notes[from].path);
                }
            }
            lemma_notes_outcome(known, symbols, mid, notes, from + 1);
        }
    }
}

/// The first node that a note adds is its own.
proof fn lemma_new_note(
    known: KnownModel,
    symbols: Seq<SymbolModel>,
    b: BuildModel,
    note: NoteFileModel,
    c: BuildModel,
)
    requires
        kept(known, symbols, b),
        add_note(known, b, note) == Ok::<BuildModel, RebuildError>(c),
    ensures
        c.index.nodes.len() > b.index.nodes.len(),
        c.index.nodes[b.index.nodes.len() as int].name == note.path,
{
    lemma_add_note(known, symbols, b, note, c);
    let r = b.index.notes.len() as int;
    let row = c.index.notes[r];
    let id = row.node_id;
    assert(row_of(c.index, r, note));
    lemma_named_at(c.index.nodes, id - 1);
    if id - 1 < b.index.nodes.len() {
        assert(c.index.nodes[id - 1] == b.index.nodes[id - 1]);
        lemma_named_place(b.index.nodes, "note"@, note.path);
        assert(node_named(b.index.nodes, "note"@, note.path) is None);
    }
    lemma_note_outcome(known, symbols, b, note);
}

/// Whether no two notes have the same path.
pub open spec fn distinct_paths(notes: Seq<NoteFileModel>) -> bool {
    forall|i: int, j: int|
        0 <= i < j < notes.len() ==> (#[trigger] notes[i]).path != (#[trigger] notes[j]).path
}

proof fn lemma_symbols_outcome(
    known: KnownModel,
    symbols: Seq<SymbolModel>,
    b: BuildModel,
    from: int,
)
    requires
        kept(known, symbols, b),
        0 <= from <= symbols.len(),
    ensures
        match add_symbols(known, b, symbols, from) {
            Ok(c) => added(b.index, c.index, "entity"@),
            Err(e) => e is Full,
        },
    decreases symbols.len() - from,
{
    if from < symbols.len() {
        if let Ok(mid) = add_symbol(known, b, symbols[from]) {
            lemma_add_symbol(known, symbols, b, from, mid);
            lemma_symbols_outcome(known, symbols, mid, from + 1);
            if let Ok(c) = add_symbols(known, mid, symbols, from + 1) {
                lemma_add_symbols(known, symbols, mid, from + 1, c);
                assert forall|i: int| b.index.nodes.len() <= i < c.index.nodes.len() implies (
                #[trigger] c.index.nodes[i]).kind == "entity"@ by {
                    if i < mid.index.nodes.len() {
                        assert(c.index.nodes[i] == mid.index.nodes[i]);
                    }
                }
            }
        }
    }
}

proof fn lemma_projects_outcome(
    b: BuildModel,
    projects: Seq<ProjectModel>,
    cache: Seq<CachedModel>,
    gits: Seq<GitModel>,
    from: int,
)
    requires
        0 <= from <= projects.len(),
    ensures
        add_projects(b, projects, cache, gits, from) matches Err(e) ==> e is Full,
    decreases projects.len() - from,
{
    if from < projects.len() {
        let p = projects[from];
        if let Ok(c) = ensure_node(
            b,
            "project"@,
            p.name,
            Some(p.path),
            meta_of(p, cache, gits[from]),
        ) {
            lemma_projects_outcome(c, projects, cache, gits, from + 1);
        }
    }
}

/// A rebuild fails on notes with the same path, and on nothing else but want of room.
pub proof fn law_rebuild_fails_only_on_repeated_notes(
    ignore: Seq<Seq<char>>,
    projects: Seq<ProjectModel>,
    cache: Seq<CachedModel>,
    gits: Seq<GitModel>,
    symbols: Seq<SymbolModel>,
    notes: Seq<NoteFileModel>,
)
    ensures
        match rebuilt(ignore, projects, cache, gits, symbols, notes) {
            Ok(_) => distinct_paths(notes),
            Err(RebuildError::DuplicateNode) => !distinct_paths(notes),
            Err(RebuildError::Full) => true,
        },
{
    let known = known_in(ignore, projects, cache, gits);
    lemma_projects_outcome(nothing_yet(), projects, cache, gits, 0);
    match rebuilt(ignore, projects, cache, gits, symbols, notes) {
        Ok(b) => {
            lemma_rebuilt(ignore, projects, cache, gits, symbols, notes, b);
            let m = b.index;
            assert forall|i: int, j: int| 0 <= i < j < notes.len() implies (
            #[trigger] notes[i]).path != (#[trigger] notes[j]).path by {
                assert(row_of(m, i, notes[i]) && row_of(m, j, notes[j]));
                assert(m.notes[i].node_id < m.notes[j].node_id);
                let x = m.notes[i].node_id - 1;
                let y = m.notes[j].node_id - 1;
                assert(m.nodes[x].kind != m.nodes[y].kind || m.nodes[x].name != m.nodes[y].name);
            }
        },
        Err(_) => {
            if distinct_paths(notes) {
                if let Ok(first) = add_projects(nothing_yet(), projects, cache, gits, 0) {
                    lemma_known(ignore, projects, cache, gits, symbols, first);
                    lemma_symbols_outcome(known, symbols, first, 0);
                    if let Ok(second) = add_symbols(known, first, symbols, 0) {
                        lemma_add_symbols(known, symbols, first, 0, second);
                        reveal_strlit("entity");
                        reveal_strlit("project");
                        reveal_strlit("note");
                        assert("entity"@.len() == 6 && "project"@.len() == 7 && "note"@.len() == 4);
                        assert forall|i: int|
                            0 <= i < second.index.nodes.len() implies (
                        #[trigger] second.index.nodes[i]).kind != "note"@ by {
                            if i < first.index.nodes.len() {
                                assert(second.index.nodes[i] == first.index.nodes[i]);
                            }
                        }
                        lemma_notes_outcome(known, symbols, second, notes, 0);
                    }
                }
            }
        },
    }
}

/// Every open loop of every scanned note dangles in a rebuilt index: its node is a loop that a
/// note contains.
pub proof fn law_every_loop_dangles(
    ignore: Seq<Seq<char>>,
    projects: Seq<ProjectModel>,
    cache: Seq<CachedModel>,
    gits: Seq<GitModel>,
    symbols: Seq<SymbolModel>,
    notes: Seq<NoteFileModel>,
    r: int,
    l: int,
)
    requires
        0 <= r < notes.len(),
        0 <= l < loops_of(notes[r].body).len(),
    ensures
        rebuilt(ignore, projects, cache, gits, symbols, notes) matches Ok(b) ==> {
            let place = node_named(b.index.nodes, "loop"@, loop_name(notes[r].path, l));
            &&& place is Some
            &&& is_dangling(b.index, None, place->0 - 1)
            &&& b.index.nodes[place->0 - 1].meta == loop_meta(loops_of(notes[r].body)[l])
        },
{
    if let Ok(b) = rebuilt(ignore, projects, cache, gits, symbols, notes) {
        lemma_rebuilt(ignore, projects, cache, gits, symbols, notes, b);
        let m = b.index;
        let known = known_in(ignore, projects, cache, gits);
        assert(row_of(m, r, notes[r]));
        assert(loop_covered(known, m, r, l));
        let id = choose|id: int| loop_linked(known, m, r, l, id);
        lemma_named_at(m.nodes, id - 1);
        let edge = contains_edge(m.notes[r].node_id, id);
        let e = choose|e: int| 0 <= e < m.edges.len() && same_edge(#[trigger] m.edges[e], edge);
        assert(holds_loop(m, e, r, id));
        let flags = container_flags(m, id);
        assert(flags[r]);
        lemma_picked(flags);
        assert(picked(flags).contains(r));
        assert(m.nodes[id - 1].id == id);
    }
}

/// The stored metadata of a repo is reused as long as its fingerprint is unchanged: where the
/// index holds the metadata that a refresh wrote for a project, and fresh metadata gives back its
/// fingerprint, the next rebuild takes it from there and does not ask git.
pub proof fn law_unchanged_repo_is_reused(
    nodes: Seq<NodeModel>,
    i: int,
    project: ProjectModel,
    cache: Seq<CachedModel>,
    git: GitModel,
)
    requires
        0 <= i < nodes.len(),
        nodes[i].kind == "project"@,
        nodes[i].path == Some(project.path),
        forall|j: int|
            0 <= j < nodes.len() && j != i && (#[trigger] nodes[j]).kind == "project"@
                ==> nodes[j].path != Some(project.path),
        project.is_repo,
        project.git_fingerprint is Some,
    ensures
        nodes[i].meta == meta_of(project, cache, git) && source_of(project, cache) is Refresh
            && stamp_reads_back(project, git) ==> source_of(
            project,
            cache_of(SCHEMA_VERSION, nodes),
        ) == SourceModel::Cached(nodes[i].meta),
{
    if nodes[i].meta == meta_of(project, cache, git) && source_of(project, cache) is Refresh
        && stamp_reads_back(project, git) {
        lemma_cached(nodes, i, project.path, nodes.len() as int);
    }
}

proof fn lemma_cached(nodes: Seq<NodeModel>, i: int, path: Seq<char>, n: int)
    requires
        0 <= i < n <= nodes.len(),
        nodes[i].kind == "project"@,
        nodes[i].path == Some(path),
        text_field(nodes[i].meta, "git_fingerprint"@) is Some,
        forall|j: int|
            0 <= j < nodes.len() && j != i && (#[trigger] nodes[j]).kind == "project"@
                ==> nodes[j].path != Some(path),
    ensures
        cached_for(cache_upto(nodes, n), path) == Some(
            CachedModel {
                path,
                fingerprint: text_field(nodes[i].meta, "git_fingerprint"@)->0,
                meta: nodes[i].meta,
            },
        ),
    decreases n,
{
    let all = cache_upto(nodes, n);
    let rest = cache_upto(nodes, n - 1);
    if n - 1 > i {
        lemma_cached(nodes, i, path, n - 1);
        if all != rest {
            assert(all.drop_last() =~= rest);
            assert(all.last().path == nodes[n - 1].path->0);
        }
    } else {
        assert(all.last().path == path);
    }
}

} // verus!
