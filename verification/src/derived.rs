//! The index is derived and disposable: a rebuild takes nothing over from the index before it but
//! the stored git metadata of projects.

use vstd::prelude::*;

use crate::extract::{canonical, extraction_of, loops_of, LoopModel};
use crate::index::{
    add_link, add_links, add_loop, add_loop_mentions, add_loops, add_mentions, add_note, add_notes,
    add_projects, add_span, add_spans, add_symbol, add_symbols, contains_edge, count_loop,
    defines_edge,
    display_meta, ensure_entity, ensure_node, entity_id, identities, insert_edge, insert_node,
    known_of, link_edge, loop_edge, loop_meta, loop_name, mention_edge, meta_of, next_id,
    node_named, nothing_yet, project_id, rebuilt, span_edge, symbol_meta, target_of, with_row,
    BuildModel, CachedModel, KnownModel, Step, TargetModel,
};
use crate::scan::{GitModel, NoteFileModel, ProjectModel, SymbolModel};
use crate::store::{EdgeModel, IndexModel, NodeModel};

verus! {

/// Whether two nodes are the same but for the metadata of a project.
pub open spec fn like_node(a: NodeModel, b: NodeModel) -> bool {
    &&& a.id == b.id
    &&& a.kind == b.kind
    &&& a.name == b.name
    &&& a.path == b.path
    &&& a.kind != "project"@ ==> a.meta == b.meta
}

/// Whether two lists of nodes are the same but for the metadata of projects.
pub open spec fn like_nodes(a: Seq<NodeModel>, b: Seq<NodeModel>) -> bool {
    a.len() == b.len() && forall|i: int|
        0 <= i < a.len() ==> like_node(#[trigger] a[i], #[trigger] b[i])
}

/// Whether two indexes are the same but for the metadata of projects.
pub open spec fn like_index(a: IndexModel, b: IndexModel) -> bool {
    like_nodes(a.nodes, b.nodes) && a.notes == b.notes && a.edges == b.edges
}

/// Whether two indexes under construction, and what was counted, are the same but for the metadata
/// of projects.
pub open spec fn like_build(a: BuildModel, b: BuildModel) -> bool {
    like_index(a.index, b.index) && a.edges == b.edges && a.loops == b.loops
}

/// Whether two constructions come out the same but for the metadata of projects.
pub open spec fn like_step(a: Step, b: Step) -> bool {
    match (a, b) {
        (Ok(x), Ok(y)) => like_build(x, y),
        (Err(x), Err(y)) => x == y,
        _ => false,
    }
}

proof fn lemma_named(a: Seq<NodeModel>, b: Seq<NodeModel>, kind: Seq<char>, name: Seq<char>)
    requires
        like_nodes(a, b),
    ensures
        node_named(a, kind, name) == node_named(b, kind, name),
    decreases a.len(),
{
    if a.len() > 0 {
        assert(like_node(a[a.len() - 1], b[b.len() - 1]));
        assert forall|i: int| 0 <= i < a.len() - 1 implies like_node(
            #[trigger] a.drop_last()[i],
            #[trigger] b.drop_last()[i],
        ) by {
            assert(like_node(a[i], b[i]));
        }
        lemma_named(a.drop_last(), b.drop_last(), kind, name);
    }
}

proof fn lemma_node(
    a: BuildModel,
    b: BuildModel,
    kind: Seq<char>,
    name: Seq<char>,
    path: Option<Seq<char>>,
    meta_a: Seq<char>,
    meta_b: Seq<char>,
)
    requires
        like_build(a, b),
        kind != "project"@ ==> meta_a == meta_b,
    ensures
        next_id(a) == next_id(b),
        node_named(a.index.nodes, kind, name) == node_named(b.index.nodes, kind, name),
        like_step(
            insert_node(a, kind, name, path, meta_a),
            insert_node(b, kind, name, path, meta_b),
        ),
        like_step(
            ensure_node(a, kind, name, path, meta_a),
            ensure_node(b, kind, name, path, meta_b),
        ),
{
    lemma_named(a.index.nodes, b.index.nodes, kind, name);
    if let (Ok(x), Ok(y)) = (
        insert_node(a, kind, name, path, meta_a),
        insert_node(b, kind, name, path, meta_b),
    ) {
        assert forall|i: int| 0 <= i < x.index.nodes.len() implies like_node(
            #[trigger] x.index.nodes[i],
            #[trigger] y.index.nodes[i],
        ) by {
            if i < a.index.nodes.len() {
                assert(like_node(a.index.nodes[i], b.index.nodes[i]));
            }
        }
    }
}

proof fn lemma_edge(a: BuildModel, b: BuildModel, edge: EdgeModel)
    requires
        like_build(a, b),
    ensures
        like_step(insert_edge(a, edge), insert_edge(b, edge)),
{
}

proof fn lemma_mentions(
    known: KnownModel,
    a: BuildModel,
    b: BuildModel,
    src: int,
    mentions: Seq<(Seq<char>, usize)>,
    from: int,
)
    requires
        like_build(a, b),
    ensures
        like_step(
            add_mentions(known, a, src, mentions, from),
            add_mentions(known, b, src, mentions, from),
        ),
    decreases mentions.len() - from,
{
    if 0 <= from < mentions.len() {
        match project_id(known.projects, canonical(mentions[from].0)) {
            None => lemma_mentions(known, a, b, src, mentions, from + 1),
            Some(dst) => {
                let edge = mention_edge(src, dst, mentions[from].0, mentions[from].1);
                lemma_edge(a, b, edge);
                if let (Ok(x), Ok(y)) = (insert_edge(a, edge), insert_edge(b, edge)) {
                    lemma_mentions(known, x, y, src, mentions, from + 1);
                }
            },
        }
    }
}

proof fn lemma_entity(a: BuildModel, b: BuildModel, name: Seq<char>, meta: Seq<char>)
    requires
        like_build(a, b),
    ensures
        like_step(
            ensure_node(a, "entity"@, name, None, meta),
            ensure_node(b, "entity"@, name, None, meta),
        ),
        ensure_node(a, "entity"@, name, None, meta) matches Ok(x) ==> (ensure_node(
            b,
            "entity"@,
            name,
            None,
            meta,
        ) matches Ok(y) ==> entity_id(x, name) == entity_id(y, name)),
{
    lemma_node(a, b, "entity"@, name, None, meta, meta);
    if let (Ok(x), Ok(y)) = (
        ensure_node(a, "entity"@, name, None, meta),
        ensure_node(b, "entity"@, name, None, meta),
    ) {
        lemma_named(x.index.nodes, y.index.nodes, "entity"@, name);
    }
}

proof fn lemma_link(known: KnownModel, a: BuildModel, b: BuildModel, src: int, written: Seq<char>)
    requires
        like_build(a, b),
    ensures
        like_step(add_link(known, a, src, written), add_link(known, b, src, written)),
        like_step(add_span(known, a, src, written), add_span(known, b, src, written)),
{
    match target_of(known, written) {
        TargetModel::Nothing => {},
        TargetModel::Project(dst) => lemma_edge(a, b, link_edge(src, dst, written)),
        TargetModel::Entity(name) => {
            lemma_entity(a, b, name, display_meta(written));
            if let (Ok(x), Ok(y)) = (
                ensure_entity(a, name, written),
                ensure_entity(b, name, written),
            ) {
                lemma_edge(x, y, link_edge(src, entity_id(x, name), written));
                lemma_edge(x, y, span_edge(src, entity_id(x, name), written));
            }
        },
    }
}

proof fn lemma_links(
    known: KnownModel,
    a: BuildModel,
    b: BuildModel,
    src: int,
    links: Seq<Seq<char>>,
    from: int,
)
    requires
        like_build(a, b),
    ensures
        like_step(add_links(known, a, src, links, from), add_links(known, b, src, links, from)),
    decreases links.len() - from,
{
    if 0 <= from < links.len() {
        lemma_link(known, a, b, src, links[from]);
        if let (Ok(x), Ok(y)) = (
            add_link(known, a, src, links[from]),
            add_link(known, b, src, links[from]),
        ) {
            lemma_links(known, x, y, src, links, from + 1);
        }
    }
}

proof fn lemma_spans(
    known: KnownModel,
    a: BuildModel,
    b: BuildModel,
    src: int,
    spans: Seq<Seq<char>>,
    from: int,
)
    requires
        like_build(a, b),
    ensures
        like_step(add_spans(known, a, src, spans, from), add_spans(known, b, src, spans, from)),
    decreases spans.len() - from,
{
    if 0 <= from < spans.len() {
        lemma_link(known, a, b, src, spans[from]);
        if let (Ok(x), Ok(y)) = (
            add_span(known, a, src, spans[from]),
            add_span(known, b, src, spans[from]),
        ) {
            lemma_spans(known, x, y, src, spans, from + 1);
        }
    }
}

proof fn lemma_loop_mentions(
    known: KnownModel,
    a: BuildModel,
    b: BuildModel,
    src: int,
    mentions: Seq<(Seq<char>, usize)>,
    from: int,
)
    requires
        like_build(a, b),
    ensures
        like_step(
            add_loop_mentions(known, a, src, mentions, from),
            add_loop_mentions(known, b, src, mentions, from),
        ),
    decreases mentions.len() - from,
{
    if 0 <= from < mentions.len() {
        match project_id(known.projects, canonical(mentions[from].0)) {
            None => lemma_loop_mentions(known, a, b, src, mentions, from + 1),
            Some(dst) => {
                let edge = loop_edge(src, dst, mentions[from].0);
                lemma_edge(a, b, edge);
                if let (Ok(x), Ok(y)) = (insert_edge(a, edge), insert_edge(b, edge)) {
                    lemma_loop_mentions(known, x, y, src, mentions, from + 1);
                }
            },
        }
    }
}

proof fn lemma_loop(
    known: KnownModel,
    a: BuildModel,
    b: BuildModel,
    note_id: int,
    path: Seq<char>,
    item: LoopModel,
    ordinal: int,
)
    requires
        like_build(a, b),
    ensures
        like_step(
            add_loop(known, a, note_id, path, item, ordinal),
            add_loop(known, b, note_id, path, item, ordinal),
        ),
{
    let name = loop_name(path, ordinal);
    let meta = loop_meta(item);
    lemma_node(a, b, "loop"@, name, Some(path), meta, meta);
    if let (Ok(x), Ok(y)) = (
        insert_node(a, "loop"@, name, Some(path), meta),
        insert_node(b, "loop"@, name, Some(path), meta),
    ) {
        let edge = contains_edge(note_id, next_id(a));
        lemma_edge(x, y, edge);
        if let (Ok(v), Ok(w)) = (insert_edge(x, edge), insert_edge(y, edge)) {
            if let (Ok(s), Ok(t)) = (count_loop(v), count_loop(w)) {
                lemma_loop_mentions(
                    known,
                    s,
                    t,
                    next_id(a),
                    extraction_of(item.text, known.names).project_mentions,
                    0,
                );
            }
        }
    }
}

proof fn lemma_loops(
    known: KnownModel,
    a: BuildModel,
    b: BuildModel,
    note_id: int,
    path: Seq<char>,
    loops: Seq<LoopModel>,
    from: int,
)
    requires
        like_build(a, b),
    ensures
        like_step(
            add_loops(known, a, note_id, path, loops, from),
            add_loops(known, b, note_id, path, loops, from),
        ),
    decreases loops.len() - from,
{
    if 0 <= from < loops.len() {
        lemma_loop(known, a, b, note_id, path, loops[from], from);
        if let (Ok(x), Ok(y)) = (
            add_loop(known, a, note_id, path, loops[from], from),
            add_loop(known, b, note_id, path, loops[from], from),
        ) {
            lemma_loops(known, x, y, note_id, path, loops, from + 1);
        }
    }
}

proof fn lemma_note(known: KnownModel, a: BuildModel, b: BuildModel, note: NoteFileModel)
    requires
        like_build(a, b),
    ensures
        like_step(add_note(known, a, note), add_note(known, b, note)),
{
    let id = next_id(a);
    let found = extraction_of(note.body, known.names);
    lemma_node(a, b, "note"@, note.path, Some(note.path), "{}"@, "{}"@);
    if let (Ok(c), Ok(d)) = (
        insert_node(a, "note"@, note.path, Some(note.path), "{}"@),
        insert_node(b, "note"@, note.path, Some(note.path), "{}"@),
    ) {
        let e = with_row(c, id, note);
        let f = with_row(d, id, note);
        lemma_mentions(known, e, f, id, found.project_mentions, 0);
        if let (Ok(g), Ok(h)) = (
            add_mentions(known, e, id, found.project_mentions, 0),
            add_mentions(known, f, id, found.project_mentions, 0),
        ) {
            lemma_links(known, g, h, id, found.wiki_links, 0);
            if let (Ok(i), Ok(j)) = (
                add_links(known, g, id, found.wiki_links, 0),
                add_links(known, h, id, found.wiki_links, 0),
            ) {
                lemma_spans(known, i, j, id, found.code_spans, 0);
                if let (Ok(k), Ok(l)) = (
                    add_spans(known, i, id, found.code_spans, 0),
                    add_spans(known, j, id, found.code_spans, 0),
                ) {
                    lemma_loops(known, k, l, id, note.path, loops_of(note.body), 0);
                }
            }
        }
    }
}

proof fn lemma_notes(
    known: KnownModel,
    a: BuildModel,
    b: BuildModel,
    notes: Seq<NoteFileModel>,
    from: int,
)
    requires
        like_build(a, b),
    ensures
        like_step(add_notes(known, a, notes, from), add_notes(known, b, notes, from)),
    decreases notes.len() - from,
{
    if 0 <= from < notes.len() {
        lemma_note(known, a, b, notes[from]);
        if let (Ok(x), Ok(y)) = (add_note(known, a, notes[from]), add_note(known, b, notes[from])) {
            lemma_notes(known, x, y, notes, from + 1);
        }
    }
}

proof fn lemma_symbols(
    known: KnownModel,
    a: BuildModel,
    b: BuildModel,
    symbols: Seq<SymbolModel>,
    from: int,
)
    requires
        like_build(a, b),
    ensures
        like_step(add_symbols(known, a, symbols, from), add_symbols(known, b, symbols, from)),
    decreases symbols.len() - from,
{
    if 0 <= from < symbols.len() {
        let symbol = symbols[from];
        if let TargetModel::Entity(name) = target_of(known, symbol.name) {
            lemma_entity(a, b, name, symbol_meta(symbol));
            if let (Ok(x), Ok(y)) = (
                ensure_node(a, "entity"@, name, None, symbol_meta(symbol)),
                ensure_node(b, "entity"@, name, None, symbol_meta(symbol)),
            ) {
                if let Some(src) = project_id(known.projects, canonical(symbol.repo)) {
                    let edge = defines_edge(src, entity_id(x, name), symbol.file);
                    lemma_edge(x, y, edge);
                }
            }
        }
        if let (Ok(x), Ok(y)) = (add_symbol(known, a, symbol), add_symbol(known, b, symbol)) {
            lemma_symbols(known, x, y, symbols, from + 1);
        }
    }
}

proof fn lemma_projects(
    a: BuildModel,
    b: BuildModel,
    projects: Seq<ProjectModel>,
    cache_a: Seq<CachedModel>,
    gits_a: Seq<GitModel>,
    cache_b: Seq<CachedModel>,
    gits_b: Seq<GitModel>,
    from: int,
)
    requires
        like_build(a, b),
    ensures
        like_step(
            add_projects(a, projects, cache_a, gits_a, from),
            add_projects(b, projects, cache_b, gits_b, from),
        ),
    decreases projects.len() - from,
{
    if 0 <= from < projects.len() {
        let project = projects[from];
        let meta_a = meta_of(project, cache_a, gits_a[from]);
        let meta_b = meta_of(project, cache_b, gits_b[from]);
        lemma_node(a, b, "project"@, project.name, Some(project.path), meta_a, meta_b);
        if let (Ok(x), Ok(y)) = (
            ensure_node(a, "project"@, project.name, Some(project.path), meta_a),
            ensure_node(b, "project"@, project.name, Some(project.path), meta_b),
        ) {
            lemma_projects(x, y, projects, cache_a, gits_a, cache_b, gits_b, from + 1);
        }
    }
}

/// The index is derived and disposable. Whatever the index before held of git metadata, and
/// whatever git says, a rebuild of the same sources fails in the same way or gives the same nodes
/// but for the metadata of projects, the same notes, the same edges, and the same counts.
pub proof fn law_rebuild_forgets_the_old_index(
    ignore: Seq<Seq<char>>,
    projects: Seq<ProjectModel>,
    cache_a: Seq<CachedModel>,
    gits_a: Seq<GitModel>,
    cache_b: Seq<CachedModel>,
    gits_b: Seq<GitModel>,
    symbols: Seq<SymbolModel>,
    notes: Seq<NoteFileModel>,
)
    ensures
        like_step(
            rebuilt(ignore, projects, cache_a, gits_a, symbols, notes),
            rebuilt(ignore, projects, cache_b, gits_b, symbols, notes),
        ),
{
    lemma_projects(nothing_yet(), nothing_yet(), projects, cache_a, gits_a, cache_b, gits_b, 0);
    if let (Ok(a), Ok(b)) = (
        add_projects(nothing_yet(), projects, cache_a, gits_a, 0),
        add_projects(nothing_yet(), projects, cache_b, gits_b, 0),
    ) {
        let known = known_of(a, projects, ignore);
        assert(identities(a.index.nodes) =~= identities(b.index.nodes)) by {
            assert forall|i: int| 0 <= i < a.index.nodes.len() implies #[trigger] identities(
                a.index.nodes,
            )[i] == identities(b.index.nodes)[i] by {
                assert(like_node(a.index.nodes[i], b.index.nodes[i]));
            }
        }
        assert(known == known_of(b, projects, ignore));
        lemma_symbols(known, a, b, symbols, 0);
        if let (Ok(x), Ok(y)) = (
            add_symbols(known, a, symbols, 0),
            add_symbols(known, b, symbols, 0),
        ) {
            lemma_notes(known, x, y, notes, 0);
        }
    }
}

} // verus!
