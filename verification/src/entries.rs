//! What the nodes of an index promise: each stands for something that was scanned, under its name,
//! with its path and what is known of it.

use vstd::prelude::*;

use crate::extract::{canonical, extraction_of, loops_of};
use crate::index::{
    add_link, add_links, add_loop, add_loop_mentions, add_loops, add_mentions, add_note, add_notes,
    add_projects, add_span, add_spans, add_symbol, add_symbols, contains_edge, count_loop,
    display_meta, ensure_node, insert_edge, insert_node, known_of, loop_edge, loop_fields,
    loop_meta, loop_name, mention_edge, meta_of, next_id, node_named, nothing_yet, project_id,
    rebuilt, symbol_meta, target_of, with_row, BuildModel, CachedModel, KnownModel, TargetModel,
};
use crate::json::{object_text, MetaModel};
use crate::reasons::{is_entity_name, lemma_common_words};
use crate::scan::{GitModel, NoteFileModel, ProjectModel, SymbolModel};
use crate::store::NodeModel;
use crate::text::{decimal, trim};

verus! {

/// What an index is built from, and the names that prose is searched for.
pub struct Sources {
    pub projects: Seq<ProjectModel>,
    pub cache: Seq<CachedModel>,
    pub gits: Seq<GitModel>,
    pub symbols: Seq<SymbolModel>,
    pub notes: Seq<NoteFileModel>,
    pub names: Seq<Seq<char>>,
}

/// Whether a node is that of project `p`: no earlier one has its name.
pub open spec fn is_project_node(s: Sources, node: NodeModel, p: int) -> bool {
    &&& 0 <= p < s.projects.len()
    &&& node.kind == "project"@
    &&& node.name == s.projects[p].name
    &&& node.path == Some(s.projects[p].path)
    &&& node.meta == meta_of(s.projects[p], s.cache, s.gits[p])
    &&& forall|q: int| 0 <= q < p ==> (#[trigger] s.projects[q]).name != node.name
}

/// Whether a node is that of note `r`.
pub open spec fn is_note_node(s: Sources, node: NodeModel, r: int) -> bool {
    &&& 0 <= r < s.notes.len()
    &&& node.kind == "note"@
    &&& node.name == s.notes[r].path
    &&& node.path == Some(s.notes[r].path)
    &&& node.meta == "{}"@
}

/// Whether a node is that of loop `l` of note `r`: it is named by the note and the place among the
/// note's loops, and keeps the text, and the section where there is one.
pub open spec fn is_loop_node(s: Sources, node: NodeModel, r: int, l: int) -> bool {
    &&& 0 <= r < s.notes.len()
    &&& 0 <= l < loops_of(s.notes[r].body).len()
    &&& node.kind == "loop"@
    &&& node.name == s.notes[r].path + "#loop-"@ + decimal(l as nat)
    &&& node.path == Some(s.notes[r].path)
    &&& {
        let item = loops_of(s.notes[r].body)[l];
        let section = match item.section {
            Some(text) => MetaModel::Text(text),
            None => MetaModel::Null,
        };
        node.meta == object_text(
            seq![("text"@, MetaModel::Text(item.text)), ("section"@, section)],
        )
    }
}

/// Whether a node is that of an entity that a link or a span of note `r` names, by a name that is
/// neither too short nor a common word: it is known by the canonical form of what is written there,
/// and shown as it is written.
pub open spec fn is_written_entity(s: Sources, node: NodeModel, r: int, raw: Seq<char>) -> bool {
    &&& 0 <= r < s.notes.len()
    &&& {
        let found = extraction_of(s.notes[r].body, s.names);
        found.wiki_links.contains(raw) || found.code_spans.contains(raw)
    }
    &&& is_entity_name(raw)
    &&& node.kind == "entity"@
    &&& node.name == canonical(raw)
    &&& node.path is None
    &&& node.meta == object_text(seq![("display"@, MetaModel::Text(trim(raw)))])
}

/// Whether a node is that of symbol `i`: it keeps how the symbol is written and where it is defined.
pub open spec fn is_symbol_entity(s: Sources, node: NodeModel, i: int) -> bool {
    &&& 0 <= i < s.symbols.len()
    &&& is_entity_name(s.symbols[i].name)
    &&& node.kind == "entity"@
    &&& node.name == canonical(s.symbols[i].name)
    &&& node.path is None
    &&& node.meta == object_text(
        seq![
            ("display"@, MetaModel::Text(trim(s.symbols[i].name))),
            ("file"@, MetaModel::Text(s.symbols[i].file)),
            ("repo"@, MetaModel::Text(s.symbols[i].repo)),
            ("lang"@, MetaModel::Text(s.symbols[i].lang)),
        ],
    )
}

/// Whether a node stands for something that was scanned.
pub open spec fn stands_for(s: Sources, node: NodeModel) -> bool {
    ||| exists|p: int| is_project_node(s, node, p)
    ||| exists|r: int| is_note_node(s, node, r)
    ||| exists|r: int, l: int| is_loop_node(s, node, r, l)
    ||| exists|r: int, raw: Seq<char>| is_written_entity(s, node, r, raw)
    ||| exists|i: int| is_symbol_entity(s, node, i)
}

/// Whether all nodes stand for something that was scanned.
pub open spec fn all_stand(s: Sources, b: BuildModel) -> bool {
    forall|k: int| 0 <= k < b.index.nodes.len() ==> stands_for(s, #[trigger] b.index.nodes[k])
}

proof fn lemma_inserted(
    s: Sources,
    b: BuildModel,
    kind: Seq<char>,
    name: Seq<char>,
    path: Option<Seq<char>>,
    meta: Seq<char>,
)
    requires
        all_stand(s, b),
        stands_for(s, NodeModel { id: next_id(b), kind, name, path, meta }),
    ensures
        insert_node(b, kind, name, path, meta) matches Ok(c) ==> all_stand(s, c),
        ensure_node(b, kind, name, path, meta) matches Ok(c) ==> all_stand(s, c),
{
    if let Ok(c) = insert_node(b, kind, name, path, meta) {
        assert forall|k: int| 0 <= k < c.index.nodes.len() implies stands_for(
            s,
            #[trigger] c.index.nodes[k],
        ) by {
            if k < b.index.nodes.len() {
                assert(c.index.nodes[k] == b.index.nodes[k]);
            }
        }
    }
}

proof fn lemma_edge_keeps(s: Sources, b: BuildModel, edge: crate::store::EdgeModel)
    requires
        all_stand(s, b),
    ensures
        insert_edge(b, edge) matches Ok(c) ==> all_stand(s, c),
{
    if let Ok(c) = insert_edge(b, edge) {
        assert(c.index.nodes == b.index.nodes);
    }
}

proof fn lemma_mentions_stand(
    s: Sources,
    known: KnownModel,
    b: BuildModel,
    src: int,
    mentions: Seq<(Seq<char>, usize)>,
    from: int,
)
    requires
        all_stand(s, b),
        0 <= from,
    ensures
        add_mentions(known, b, src, mentions, from) matches Ok(c) ==> all_stand(s, c),
        add_loop_mentions(known, b, src, mentions, from) matches Ok(c) ==> all_stand(s, c),
    decreases mentions.len() - from,
{
    if from < mentions.len() {
        match project_id(known.projects, canonical(mentions[from].0)) {
            None => {
                lemma_mentions_stand(s, known, b, src, mentions, from + 1);
            },
            Some(dst) => {
                let said = mention_edge(src, dst, mentions[from].0, mentions[from].1);
                let done = loop_edge(src, dst, mentions[from].0);
                lemma_edge_keeps(s, b, said);
                lemma_edge_keeps(s, b, done);
                if let Ok(c) = insert_edge(b, said) {
                    lemma_mentions_stand(s, known, c, src, mentions, from + 1);
                }
                if let Ok(c) = insert_edge(b, done) {
                    lemma_mentions_stand(s, known, c, src, mentions, from + 1);
                }
            },
        }
    }
}

proof fn lemma_target_named(known: KnownModel, raw: Seq<char>)
    ensures
        target_of(known, raw) matches TargetModel::Entity(name) ==> name == canonical(raw)
            && is_entity_name(raw),
{
    lemma_common_words(canonical(raw));
}

proof fn lemma_written_stands(
    s: Sources,
    known: KnownModel,
    b: BuildModel,
    r: int,
    src: int,
    raw: Seq<char>,
)
    requires
        all_stand(s, b),
        0 <= r < s.notes.len(),
        ({
            let found = extraction_of(s.notes[r].body, s.names);
            found.wiki_links.contains(raw) || found.code_spans.contains(raw)
        }),
    ensures
        add_link(known, b, src, raw) matches Ok(c) ==> all_stand(s, c),
        add_span(known, b, src, raw) matches Ok(c) ==> all_stand(s, c),
{
    lemma_target_named(known, raw);
    match target_of(known, raw) {
        TargetModel::Nothing => {},
        TargetModel::Project(dst) => {
            lemma_edge_keeps(s, b, crate::index::link_edge(src, dst, raw));
        },
        TargetModel::Entity(name) => {
            let node = NodeModel {
                id: next_id(b),
                kind: "entity"@,
                name,
                path: None,
                meta: display_meta(raw),
            };
            assert(is_written_entity(s, node, r, raw));
            lemma_inserted(s, b, "entity"@, name, None, display_meta(raw));
            if let Ok(c) = ensure_node(b, "entity"@, name, None, display_meta(raw)) {
                let dst = crate::index::entity_id(c, name);
                lemma_edge_keeps(s, c, crate::index::link_edge(src, dst, raw));
                lemma_edge_keeps(s, c, crate::index::span_edge(src, dst, raw));
            }
        },
    }
}

proof fn lemma_links_stand(
    s: Sources,
    known: KnownModel,
    b: BuildModel,
    r: int,
    src: int,
    texts: Seq<Seq<char>>,
    from: int,
)
    requires
        all_stand(s, b),
        0 <= from,
        0 <= r < s.notes.len(),
        ({
            let found = extraction_of(s.notes[r].body, s.names);
            texts == found.wiki_links || texts == found.code_spans
        }),
    ensures
        add_links(known, b, src, texts, from) matches Ok(c) ==> all_stand(s, c),
        add_spans(known, b, src, texts, from) matches Ok(c) ==> all_stand(s, c),
    decreases texts.len() - from,
{
    if from < texts.len() {
        assert(texts.contains(texts[from]));
        lemma_written_stands(s, known, b, r, src, texts[from]);
        if let Ok(c) = add_link(known, b, src, texts[from]) {
            lemma_links_stand(s, known, c, r, src, texts, from + 1);
        }
        if let Ok(c) = add_span(known, b, src, texts[from]) {
            lemma_links_stand(s, known, c, r, src, texts, from + 1);
        }
    }
}

proof fn lemma_loops_stand(
    s: Sources,
    known: KnownModel,
    b: BuildModel,
    r: int,
    note_id: int,
    from: int,
)
    requires
        all_stand(s, b),
        0 <= from,
        0 <= r < s.notes.len(),
    ensures
        add_loops(
            known,
            b,
            note_id,
            s.notes[r].path,
            loops_of(s.notes[r].body),
            from,
        ) matches Ok(c) ==> all_stand(s, c),
    decreases loops_of(s.notes[r].body).len() - from,
{
    let loops = loops_of(s.notes[r].body);
    let path = s.notes[r].path;
    if from < loops.len() {
        let item = loops[from];
        let node = NodeModel {
            id: next_id(b),
            kind: "loop"@,
            name: loop_name(path, from),
            path: Some(path),
            meta: loop_meta(item),
        };
        let section = match item.section {
            Some(text) => MetaModel::Text(text),
            None => MetaModel::Null,
        };
        assert(loop_fields(item) =~= seq![
            ("text"@, MetaModel::Text(item.text)),
            ("section"@, section),
        ]);
        assert(is_loop_node(s, node, r, from));
        lemma_inserted(s, b, "loop"@, loop_name(path, from), Some(path), loop_meta(item));
        if let Ok(c) = insert_node(b, "loop"@, loop_name(path, from), Some(path), loop_meta(item)) {
            lemma_edge_keeps(s, c, contains_edge(note_id, next_id(b)));
            if let Ok(d) = insert_edge(c, contains_edge(note_id, next_id(b))) {
                if let Ok(f) = count_loop(d) {
                    assert(f.index == d.index);
                    lemma_mentions_stand(
                        s,
                        known,
                        f,
                        next_id(b),
                        extraction_of(item.text, known.names).project_mentions,
                        0,
                    );
                }
            }
        }
        if let Ok(c) = add_loop(known, b, note_id, path, item, from) {
            lemma_loops_stand(s, known, c, r, note_id, from + 1);
        }
    }
}

proof fn lemma_notes_stand(s: Sources, known: KnownModel, b: BuildModel, from: int)
    requires
        all_stand(s, b),
        0 <= from,
        known.names == s.names,
    ensures
        add_notes(known, b, s.notes, from) matches Ok(c) ==> all_stand(s, c),
    decreases s.notes.len() - from,
{
    if from < s.notes.len() {
        let note = s.notes[from];
        let id = next_id(b);
        let found = extraction_of(note.body, known.names);
        let node = NodeModel {
            id,
            kind: "note"@,
            name: note.path,
            path: Some(note.path),
            meta: "{}"@,
        };
        assert(is_note_node(s, node, from));
        lemma_inserted(s, b, "note"@, note.path, Some(note.path), "{}"@);
        if let Ok(c) = insert_node(b, "note"@, note.path, Some(note.path), "{}"@) {
            let row = with_row(c, id, note);
            assert(row.index.nodes == c.index.nodes);
            lemma_mentions_stand(s, known, row, id, found.project_mentions, 0);
            if let Ok(d) = add_mentions(known, row, id, found.project_mentions, 0) {
                lemma_links_stand(s, known, d, from, id, found.wiki_links, 0);
                if let Ok(f) = add_links(known, d, id, found.wiki_links, 0) {
                    lemma_links_stand(s, known, f, from, id, found.code_spans, 0);
                    if let Ok(g) = add_spans(known, f, id, found.code_spans, 0) {
                        lemma_loops_stand(s, known, g, from, id, 0);
                    }
                }
            }
        }
        if let Ok(c) = add_note(known, b, note) {
            lemma_notes_stand(s, known, c, from + 1);
        }
    }
}

proof fn lemma_symbols_stand(s: Sources, known: KnownModel, b: BuildModel, from: int)
    requires
        all_stand(s, b),
        0 <= from,
    ensures
        add_symbols(known, b, s.symbols, from) matches Ok(c) ==> all_stand(s, c),
    decreases s.symbols.len() - from,
{
    if from < s.symbols.len() {
        let symbol = s.symbols[from];
        lemma_target_named(known, symbol.name);
        if let TargetModel::Entity(name) = target_of(known, symbol.name) {
            let node = NodeModel {
                id: next_id(b),
                kind: "entity"@,
                name,
                path: None,
                meta: symbol_meta(symbol),
            };
            assert(is_symbol_entity(s, node, from));
            lemma_inserted(s, b, "entity"@, name, None, symbol_meta(symbol));
            if let Ok(c) = ensure_node(b, "entity"@, name, None, symbol_meta(symbol)) {
                if let Some(src) = project_id(known.projects, canonical(symbol.repo)) {
                    let dst = crate::index::entity_id(c, name);
                    lemma_edge_keeps(s, c, crate::index::defines_edge(src, dst, symbol.file));
                }
            }
        }
        if let Ok(c) = add_symbol(known, b, symbol) {
            lemma_symbols_stand(s, known, c, from + 1);
        }
    }
}

proof fn lemma_named_before(nodes: Seq<NodeModel>, node: NodeModel, kind: Seq<char>, name: Seq<char>)
    ensures
        node_named(nodes, kind, name) is Some ==> node_named(nodes.push(node), kind, name) is Some,
        node.kind == kind && node.name == name ==> node_named(nodes.push(node), kind, name) is Some,
{
    assert(nodes.push(node).drop_last() =~= nodes);
}

proof fn lemma_projects_stand(s: Sources, b: BuildModel, from: int)
    requires
        all_stand(s, b),
        0 <= from <= s.projects.len(),
        forall|q: int|
            0 <= q < from ==> node_named(
                b.index.nodes,
                "project"@,
                (#[trigger] s.projects[q]).name,
            ) is Some,
    ensures
        add_projects(b, s.projects, s.cache, s.gits, from) matches Ok(c) ==> all_stand(s, c),
    decreases s.projects.len() - from,
{
    if from < s.projects.len() {
        let p = s.projects[from];
        let meta = meta_of(p, s.cache, s.gits[from]);
        let node = NodeModel {
            id: next_id(b),
            kind: "project"@,
            name: p.name,
            path: Some(p.path),
            meta,
        };
        if let Ok(c) = ensure_node(b, "project"@, p.name, Some(p.path), meta) {
            if node_named(b.index.nodes, "project"@, p.name) is None {
                assert(is_project_node(s, node, from)) by {
                    assert forall|q: int| 0 <= q < from implies (#[trigger] s.projects[q]).name
                        != node.name by {
                        assert(node_named(b.index.nodes, "project"@, s.projects[q].name) is Some);
                    }
                }
                lemma_inserted(s, b, "project"@, p.name, Some(p.path), meta);
                assert forall|q: int| 0 <= q < from + 1 implies node_named(
                    c.index.nodes,
                    "project"@,
                    (#[trigger] s.projects[q]).name,
                ) is Some by {
                    lemma_named_before(b.index.nodes, node, "project"@, s.projects[q].name);
                }
            }
            lemma_projects_stand(s, c, from + 1);
        }
    }
}

/// Every node of a rebuilt index stands for something that was scanned: a project, a note, a loop
/// of a note, a name that a note writes, or a code symbol.
pub proof fn law_nodes_stand_for_what_was_scanned(ignore: Seq<Seq<char>>, s: Sources, k: int)
    requires
        add_projects(nothing_yet(), s.projects, s.cache, s.gits, 0) matches Ok(first) ==> s.names
            == known_of(first, s.projects, ignore).names,
    ensures
        rebuilt(ignore, s.projects, s.cache, s.gits, s.symbols, s.notes) matches Ok(b) ==> (0 <= k
            < b.index.nodes.len() ==> stands_for(s, b.index.nodes[k])),
{
    assert(all_stand(s, nothing_yet()));
    lemma_projects_stand(s, nothing_yet(), 0);
    if let Ok(b) = add_projects(nothing_yet(), s.projects, s.cache, s.gits, 0) {
        let known = known_of(b, s.projects, ignore);
        lemma_symbols_stand(s, known, b, 0);
        if let Ok(c) = add_symbols(known, b, s.symbols, 0) {
            lemma_notes_stand(s, known, c, 0);
        }
    }
}

} // verus!
