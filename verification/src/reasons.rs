//! What the edges of a rebuilt index say, field by field, and which edges there are for what was
//! scanned.

use vstd::prelude::*;

use crate::evidence::{
    contains_at, defines_at, evidence, known_in, known_ok, lemma_dictionary_members,
    lemma_named_place, lemma_project_there, lemma_rebuilt, link_at, link_covered, loop_covered,
    loop_linked, loop_mention_at, mention_at, mention_covered, note_covered, numbered, of_kind,
    row_of, span_at, span_covered, stands_for, symbol_covered,
};
use crate::extract::{
    canonical, canonicals, distinct_of, extraction_of, lemma_with_name, loops_of, prose_of,
};
use crate::index::{
    contains_edge, defines_edge, dictionary, has_edge_like, is_stopword, link_edge, loop_meta,
    mention_edge, node_named, project_id, rebuilt, same_edge, span_edge, target_of, CachedModel,
    KnownModel, TargetModel,
};
use crate::json::{object_text, MetaModel};
use crate::meetings::lemma_distinct;
use crate::scan::{GitModel, NoteFileModel, ProjectModel, SymbolModel};
use crate::store::{EdgeModel, IndexModel};
use crate::text::{byte_len, decimal, lowercase, trim};
use crate::words::{
    crowded, law_mentions_are_whole_words, law_whole_words_are_mentioned, is_one_word, stands,
    whole_words,
};

verus! {

/// Whether `id` is a project of the given name but for case and edge punctuation.
pub open spec fn is_project_called(m: IndexModel, id: int, name: Seq<char>) -> bool {
    exists|i: int|
        0 <= i < m.nodes.len() && (#[trigger] m.nodes[i]).id == id && m.nodes[i].kind == "project"@
            && canonical(m.nodes[i].name) == canonical(name)
}

/// Whether `id` is an entity whose name is the canonical form of the given one.
pub open spec fn is_entity_called(m: IndexModel, id: int, name: Seq<char>) -> bool {
    exists|i: int|
        0 <= i < m.nodes.len() && (#[trigger] m.nodes[i]).id == id && m.nodes[i].kind == "entity"@
            && m.nodes[i].name == canonical(name)
}

/// Whether `id` is the note node of note row `r`.
pub open spec fn is_node_of(m: IndexModel, r: int, id: int) -> bool {
    0 <= r < m.notes.len() && m.notes[r].node_id == id
}

/// Whether a name stands in the prose of a text as a whole word, in whatever case.
pub open spec fn stands_in(body: Seq<char>, name: Seq<char>) -> bool {
    exists|i: int|
        #![trigger stands(lowercase(prose_of(body)), lowercase(name), i)]
        stands(lowercase(prose_of(body)), lowercase(name), i) && !crowded(
            lowercase(prose_of(body)),
            i,
            lowercase(name).len() as int,
        )
}

/// Whether an edge is that of wiki link `k` of note row `r`.
pub open spec fn link_says(m: IndexModel, edge: EdgeModel, r: int, k: int) -> bool {
    let links = extraction_of(m.notes[r].body, Seq::empty()).wiki_links;
    &&& edge.kind == "wikilink"@
    &&& edge.provenance == "human"@
    &&& edge.weight == 1000
    &&& is_node_of(m, r, edge.src)
    &&& 0 <= k < links.len()
    &&& edge.rationale == Some("wiki link [["@ + trim(links[k]) + "]]"@)
    &&& is_project_called(m, edge.dst, links[k]) || is_entity_called(m, edge.dst, links[k])
}

/// Whether an edge is that of the name of project `p` in the prose of note row `r`.
pub open spec fn mention_says(
    m: IndexModel,
    projects: Seq<ProjectModel>,
    edge: EdgeModel,
    r: int,
    p: int,
    count: nat,
) -> bool {
    let name = projects[p].name;
    &&& edge.kind == "mentions"@
    &&& edge.provenance == "indexer"@
    &&& edge.weight == count * 1000
    &&& is_node_of(m, r, edge.src)
    &&& 0 <= p < projects.len()
    &&& edge.rationale == Some(
        "matched project name '"@ + name + "' "@ + decimal(count) + "x in prose"@,
    )
    &&& is_project_called(m, edge.dst, name)
    &&& lowercase(name).len() > 0 ==> stands_in(m.notes[r].body, name)
    &&& lowercase(name).len() > 0 && is_one_word(lowercase(name)) && lowercase(
        prose_of(m.notes[r].body),
    ).len() <= usize::MAX ==> count == whole_words(
        lowercase(prose_of(m.notes[r].body)),
        lowercase(name),
    ).len()
}

/// Whether an edge is that of backticked span `k` of note row `r`.
pub open spec fn span_says(m: IndexModel, edge: EdgeModel, r: int, k: int) -> bool {
    let spans = extraction_of(m.notes[r].body, Seq::empty()).code_spans;
    &&& edge.kind == "mentions"@
    &&& edge.provenance == "indexer"@
    &&& edge.weight == 300
    &&& is_node_of(m, r, edge.src)
    &&& 0 <= k < spans.len()
    &&& edge.rationale == Some("backticked span `"@ + trim(spans[k]) + "`"@)
    &&& is_entity_called(m, edge.dst, spans[k])
}

/// Whether `id` is the node of loop `l` of note row `r`.
pub open spec fn is_loop_node(m: IndexModel, r: int, l: int, id: int) -> bool {
    exists|i: int, n: int|
        #![trigger m.nodes[i], m.nodes[n]]
        0 <= i < m.nodes.len() && m.nodes[i].id == id && m.nodes[i].kind == "loop"@ && 0 <= n
            < m.nodes.len() && is_node_of(m, r, m.nodes[n].id) && m.nodes[i].path == Some(
            m.nodes[n].name,
        ) && m.nodes[i].name == m.nodes[n].name + "#loop-"@ + decimal(l as nat)
}

/// Whether an edge leads from note row `r` to its loop `l`.
pub open spec fn contains_says(m: IndexModel, edge: EdgeModel, r: int, l: int) -> bool {
    &&& edge.kind == "contains"@
    &&& edge.provenance == "indexer"@
    &&& edge.weight == 1000
    &&& is_node_of(m, r, edge.src)
    &&& 0 <= l < loops_of(m.notes[r].body).len()
    &&& edge.rationale == Some("open loop found in note"@)
    &&& is_loop_node(m, r, l, edge.dst)
}

/// Whether an edge is that of the name of project `p` in the text of loop `l` of note row `r`.
pub open spec fn loop_says(
    m: IndexModel,
    projects: Seq<ProjectModel>,
    edge: EdgeModel,
    r: int,
    l: int,
    p: int,
) -> bool {
    let name = projects[p].name;
    &&& edge.kind == "mentions"@
    &&& edge.provenance == "indexer"@
    &&& edge.weight == 1000
    &&& 0 <= r < m.notes.len()
    &&& 0 <= l < loops_of(m.notes[r].body).len()
    &&& is_loop_node(m, r, l, edge.src)
    &&& 0 <= p < projects.len()
    &&& edge.rationale == Some("loop text mentions project '"@ + name + "'"@)
    &&& is_project_called(m, edge.dst, name)
    &&& lowercase(name).len() > 0 ==> stands_in(loops_of(m.notes[r].body)[l].text, name)
}

/// Whether an edge is that of the definition of code symbol `s`.
pub open spec fn defines_says(
    m: IndexModel,
    symbols: Seq<SymbolModel>,
    edge: EdgeModel,
    s: int,
) -> bool {
    &&& edge.kind == "defines"@
    &&& edge.provenance == "indexer"@
    &&& edge.weight == 1000
    &&& 0 <= s < symbols.len()
    &&& edge.rationale == Some("defined in "@ + symbols[s].file)
    &&& is_project_called(m, edge.src, symbols[s].repo)
    &&& is_entity_called(m, edge.dst, symbols[s].name)
}

/// Whether something that was scanned says an edge.
pub open spec fn is_said(
    m: IndexModel,
    projects: Seq<ProjectModel>,
    symbols: Seq<SymbolModel>,
    edge: EdgeModel,
) -> bool {
    ||| exists|r: int, k: int| #[trigger] link_says(m, edge, r, k)
    ||| exists|r: int, p: int, count: nat| #[trigger]
        mention_says(m, projects, edge, r, p, count)
    ||| exists|r: int, k: int| #[trigger] span_says(m, edge, r, k)
    ||| exists|r: int, l: int| #[trigger] contains_says(m, edge, r, l)
    ||| exists|r: int, l: int, p: int| #[trigger] loop_says(m, projects, edge, r, l, p)
    ||| exists|s: int| #[trigger] defines_says(m, symbols, edge, s)
}

proof fn lemma_node_at(m: IndexModel, id: int)
    requires
        numbered(m.nodes),
        1 <= id <= m.nodes.len(),
    ensures
        m.nodes[id - 1].id == id,
{
}

proof fn lemma_called(known: KnownModel, m: IndexModel, raw: Seq<char>, id: int)
    requires
        numbered(m.nodes),
        known_ok(known, m.nodes),
        stands_for(known, m.nodes, raw, id),
    ensures
        target_of(known, raw) is Project ==> is_project_called(m, id, raw),
        target_of(known, raw) is Entity ==> is_entity_called(m, id, raw),
{
    match target_of(known, raw) {
        TargetModel::Project(_) => {
            lemma_project_there(known, m.nodes, canonical(raw));
            lemma_node_at(m, id);
        },
        TargetModel::Entity(name) => {
            lemma_named_place(m.nodes, "entity"@, name);
            lemma_node_at(m, id);
        },
        TargetModel::Nothing => {},
    }
}

proof fn lemma_loop_node(m: IndexModel, r: int, l: int, id: int)
    requires
        numbered(m.nodes),
        0 <= r < m.notes.len(),
        of_kind(m.nodes, m.notes[r].node_id, "note"@),
        crate::evidence::is_loop_of(m, r, l, id),
    ensures
        is_loop_node(m, r, l, id),
{
    lemma_node_at(m, id);
    lemma_node_at(m, m.notes[r].node_id);
    let i = id - 1;
    let n = m.notes[r].node_id - 1;
    assert(m.nodes[i].id == id && is_node_of(m, r, m.nodes[n].id));
}

proof fn lemma_name_said(
    known: KnownModel,
    projects: Seq<ProjectModel>,
    ignore: Seq<Seq<char>>,
    m: IndexModel,
    body: Seq<char>,
    k: int,
    dst: int,
) -> (p: int)
    requires
        numbered(m.nodes),
        known_ok(known, m.nodes),
        known.names == dictionary(projects, ignore, projects.len() as int),
        0 <= k < extraction_of(body, known.names).project_mentions.len(),
        project_id(
            known.projects,
            canonical(extraction_of(body, known.names).project_mentions[k].0),
        ) == Some(dst),
    ensures
        0 <= p < projects.len(),
        projects[p].name == extraction_of(body, known.names).project_mentions[k].0,
        is_project_called(m, dst, projects[p].name),
        lowercase(projects[p].name).len() > 0 ==> stands_in(body, projects[p].name),
{
    let found = extraction_of(body, known.names);
    let name = found.project_mentions[k].0;
    crate::evidence::lemma_mention_names(
        known.names,
        prose_of(body),
        found.code_spans,
        known.names.len() as int,
    );
    let i = choose|i: int| 0 <= i < known.names.len() && #[trigger] known.names[i] == name;
    lemma_dictionary_members(projects, ignore, projects.len() as int);
    assert(known.names[i] == name);
    let p = choose|p: int| 0 <= p < projects.len() && (#[trigger] projects[p]).name == name;
    lemma_project_there(known, m.nodes, canonical(name));
    lemma_node_at(m, dst);
    if lowercase(name).len() > 0 {
        law_mentions_are_whole_words(body, known.names, k);
    }
    p
}

proof fn lemma_said(
    known: KnownModel,
    projects: Seq<ProjectModel>,
    ignore: Seq<Seq<char>>,
    symbols: Seq<SymbolModel>,
    m: IndexModel,
    edge: EdgeModel,
)
    requires
        numbered(m.nodes),
        known_ok(known, m.nodes),
        known.names == dictionary(projects, ignore, projects.len() as int),
        forall|r: int|
            0 <= r < m.notes.len() ==> of_kind(m.nodes, (#[trigger] m.notes[r]).node_id, "note"@),
        evidence(known, symbols, m, edge),
    ensures
        is_said(m, projects, symbols, edge),
{
    if exists|r: int, k: int| link_at(known, m, r, k, edge) {
        let (r, k) = choose|r: int, k: int| link_at(known, m, r, k, edge);
        let links = extraction_of(m.notes[r].body, known.names).wiki_links;
        lemma_called(known, m, links[k], edge.dst);
        assert(link_says(m, edge, r, k));
    } else if exists|r: int, k: int| mention_at(known, m, r, k, edge) {
        let (r, k) = choose|r: int, k: int| mention_at(known, m, r, k, edge);
        let mentions = extraction_of(m.notes[r].body, known.names).project_mentions;
        let p = lemma_name_said(known, projects, ignore, m, m.notes[r].body, k, edge.dst);
        if lowercase(mentions[k].0).len() > 0 {
            law_mentions_are_whole_words(m.notes[r].body, known.names, k);
        }
        assert(mention_says(m, projects, edge, r, p, mentions[k].1 as nat));
    } else if exists|r: int, k: int| span_at(known, m, r, k, edge) {
        let (r, k) = choose|r: int, k: int| span_at(known, m, r, k, edge);
        let spans = extraction_of(m.notes[r].body, known.names).code_spans;
        lemma_called(known, m, spans[k], edge.dst);
        assert(span_says(m, edge, r, k));
    } else if exists|r: int, l: int| contains_at(m, r, l, edge) {
        let (r, l) = choose|r: int, l: int| contains_at(m, r, l, edge);
        assert(of_kind(m.nodes, m.notes[r].node_id, "note"@));
        lemma_loop_node(m, r, l, edge.dst);
        assert(contains_says(m, edge, r, l));
    } else if exists|r: int, l: int, k: int| loop_mention_at(known, m, r, l, k, edge) {
        let (r, l, k) = choose|r: int, l: int, k: int| loop_mention_at(known, m, r, l, k, edge);
        let text = loops_of(m.notes[r].body)[l].text;
        let p = lemma_name_said(known, projects, ignore, m, text, k, edge.dst);
        assert(of_kind(m.nodes, m.notes[r].node_id, "note"@));
        lemma_loop_node(m, r, l, edge.src);
        assert(loop_says(m, projects, edge, r, l, p));
    } else {
        let s = choose|s: int| defines_at(known, m, symbols, s, edge);
        lemma_project_there(known, m.nodes, canonical(symbols[s].repo));
        lemma_node_at(m, edge.src);
        lemma_called(known, m, symbols[s].name, edge.dst);
        assert(defines_says(m, symbols, edge, s));
    }
}

/// Every edge of a rebuilt index is said by something that was scanned, and it has the kind, the
/// provenance, the weight and the rationale of what says it: a wiki link or a backticked span of a
/// note, the name of a project that stands in a note or in the text of one of its loops as a whole
/// word, a loop of a note, or a definition in a repo.
pub proof fn law_edges_say_what_was_scanned(
    ignore: Seq<Seq<char>>,
    projects: Seq<ProjectModel>,
    cache: Seq<CachedModel>,
    gits: Seq<GitModel>,
    symbols: Seq<SymbolModel>,
    notes: Seq<NoteFileModel>,
)
    ensures
        rebuilt(ignore, projects, cache, gits, symbols, notes) matches Ok(b) ==> forall|e: int|
            0 <= e < b.index.edges.len() ==> is_said(
                b.index,
                projects,
                symbols,
                #[trigger] b.index.edges[e],
            ),
{
    if let Ok(b) = rebuilt(ignore, projects, cache, gits, symbols, notes) {
        lemma_rebuilt(ignore, projects, cache, gits, symbols, notes, b);
        let known = known_in(ignore, projects, cache, gits);
        let m = b.index;
        assert forall|e: int| 0 <= e < m.edges.len() implies is_said(
            m,
            projects,
            symbols,
            #[trigger] m.edges[e],
        ) by {
            assert(evidence(known, symbols, m, m.edges[e]));
            lemma_said(known, projects, known.ignore, symbols, m, m.edges[e]);
        }
    }
}

/// Whether a name is on the ignore list but for case and edge punctuation.
pub open spec fn is_ignored(ignore: Seq<Seq<char>>, name: Seq<char>) -> bool {
    exists|i: int| 0 <= i < ignore.len() && canonical(#[trigger] ignore[i]) == canonical(name)
}

/// Whether a name is that of one of the projects but for case and edge punctuation.
pub open spec fn names_project(projects: Seq<ProjectModel>, name: Seq<char>) -> bool {
    exists|p: int|
        0 <= p < projects.len() && canonical((#[trigger] projects[p]).name) == canonical(name)
}

/// Words that carry no identity.
pub open spec fn common_words() -> Seq<Seq<char>> {
    seq![
        "what"@,
        "how"@,
        "why"@,
        "when"@,
        "where"@,
        "who"@,
        "true"@,
        "false"@,
        "nil"@,
        "null"@,
        "none"@,
        "yes"@,
        "no"@,
        "n/a"@,
        "tbd"@,
        "todo"@,
        "done"@,
        "new"@,
        "old"@,
        "the"@,
        "and"@,
        "for"@,
        "not"@,
    ]
}

pub proof fn lemma_common_words(word: Seq<char>)
    ensures
        is_stopword(word) <==> common_words().contains(word),
{
    let all = common_words();
    assert(all[0] == "what"@);
    assert(all[1] == "how"@);
    assert(all[2] == "why"@);
    assert(all[3] == "when"@);
    assert(all[4] == "where"@);
    assert(all[5] == "who"@);
    assert(all[6] == "true"@);
    assert(all[7] == "false"@);
    assert(all[8] == "nil"@);
    assert(all[9] == "null"@);
    assert(all[10] == "none"@);
    assert(all[11] == "yes"@);
    assert(all[12] == "no"@);
    assert(all[13] == "n/a"@);
    assert(all[14] == "tbd"@);
    assert(all[15] == "todo"@);
    assert(all[16] == "done"@);
    assert(all[17] == "new"@);
    assert(all[18] == "old"@);
    assert(all[19] == "the"@);
    assert(all[20] == "and"@);
    assert(all[21] == "for"@);
    assert(all[22] == "not"@);
    if all.contains(word) {
        let k = choose|k: int| 0 <= k < all.len() && all[k] == word;
        assert(k == 0 || k == 1 || k == 2 || k == 3 || k == 4 || k == 5 || k == 6 || k == 7
            || k == 8 || k == 9 || k == 10 || k == 11 || k == 12 || k == 13 || k == 14 || k == 15
            || k == 16 || k == 17 || k == 18 || k == 19 || k == 20 || k == 21 || k == 22);
    }
}

/// Whether a name may become an entity: it is neither too short nor a common word.
pub open spec fn is_entity_name(name: Seq<char>) -> bool {
    byte_len(canonical(name)) >= 3 && !common_words().contains(canonical(name))
}

/// Whether there is an edge of this kind and provenance from `src` to `dst`.
pub open spec fn has_arc(
    m: IndexModel,
    src: int,
    dst: int,
    kind: Seq<char>,
    provenance: Seq<char>,
) -> bool {
    exists|e: int|
        0 <= e < m.edges.len() && (#[trigger] m.edges[e]).src == src && m.edges[e].dst == dst
            && m.edges[e].kind == kind && m.edges[e].provenance == provenance
}

/// Whether there is such an edge from `src` to a project of the given name.
pub open spec fn has_arc_to_project(
    m: IndexModel,
    src: int,
    name: Seq<char>,
    kind: Seq<char>,
    provenance: Seq<char>,
) -> bool {
    exists|dst: int| #[trigger]
        has_arc(m, src, dst, kind, provenance) && is_project_called(m, dst, name)
}

/// Whether there is such an edge from `src` to an entity of the given name.
pub open spec fn has_arc_to_entity(
    m: IndexModel,
    src: int,
    name: Seq<char>,
    kind: Seq<char>,
    provenance: Seq<char>,
) -> bool {
    exists|dst: int| #[trigger]
        has_arc(m, src, dst, kind, provenance) && is_entity_called(m, dst, name)
}

proof fn lemma_ignored(ignore: Seq<Seq<char>>, name: Seq<char>)
    ensures
        distinct_of(canonicals(ignore)).contains(canonical(name)) <==> is_ignored(ignore, name),
{
    let all = canonicals(ignore);
    lemma_distinct(all);
    if all.contains(canonical(name)) {
        let i = choose|i: int| 0 <= i < all.len() && all[i] == canonical(name);
        assert(canonical(ignore[i]) == canonical(name));
    }
    if is_ignored(ignore, name) {
        let i = choose|i: int|
            0 <= i < ignore.len() && canonical(#[trigger] ignore[i]) == canonical(name);
        assert(all[i] == canonical(name));
    }
}

proof fn lemma_arc(m: IndexModel, edge: EdgeModel)
    requires
        has_edge_like(m.edges, edge),
    ensures
        has_arc(m, edge.src, edge.dst, edge.kind, edge.provenance),
{
    let e = choose|e: int| 0 <= e < m.edges.len() && same_edge(#[trigger] m.edges[e], edge);
    assert(m.edges[e].src == edge.src);
}

proof fn lemma_project_named(known: KnownModel, m: IndexModel, name: Seq<char>)
    requires
        numbered(m.nodes),
        known_ok(known, m.nodes),
        project_id(known.projects, canonical(name)) is Some,
    ensures
        is_project_called(m, project_id(known.projects, canonical(name))->0, name),
{
    lemma_project_there(known, m.nodes, canonical(name));
    lemma_node_at(m, project_id(known.projects, canonical(name))->0);
}

proof fn lemma_entity_named(m: IndexModel, name: Seq<char>)
    requires
        numbered(m.nodes),
        node_named(m.nodes, "entity"@, canonical(name)) is Some,
    ensures
        is_entity_called(m, node_named(m.nodes, "entity"@, canonical(name))->0, name),
{
    lemma_named_place(m.nodes, "entity"@, canonical(name));
    lemma_node_at(m, node_named(m.nodes, "entity"@, canonical(name))->0);
}

/// What a name stands for once the projects are known.
proof fn lemma_target(
    ignore: Seq<Seq<char>>,
    projects: Seq<ProjectModel>,
    known: KnownModel,
    m: IndexModel,
    name: Seq<char>,
)
    requires
        known_ok(known, m.nodes),
        known.ignore == distinct_of(canonicals(ignore)),
        forall|i: int|
            0 <= i < projects.len() ==> project_id(
                known.projects,
                canonical((#[trigger] projects[i]).name),
            ) is Some,
        canonical(name).len() > 0,
        !is_ignored(ignore, name),
    ensures
        names_project(projects, name) ==> target_of(known, name) is Project && target_of(
            known,
            name,
        )->Project_0 == project_id(known.projects, canonical(name))->0 && project_id(
            known.projects,
            canonical(name),
        ) is Some,
        project_id(known.projects, canonical(name)) is None && is_entity_name(name) ==> target_of(
            known,
            name,
        ) == TargetModel::Entity(canonical(name)),
{
    lemma_ignored(ignore, name);
    lemma_common_words(canonical(name));
    if names_project(projects, name) {
        let p = choose|p: int|
            0 <= p < projects.len() && canonical((#[trigger] projects[p]).name) == canonical(name);
        assert(project_id(known.projects, canonical(projects[p].name)) is Some);
    }
}

/// A project of a rebuilt index that is known was scanned.
proof fn lemma_known_project(
    ignore: Seq<Seq<char>>,
    projects: Seq<ProjectModel>,
    cache: Seq<CachedModel>,
    gits: Seq<GitModel>,
    symbols: Seq<SymbolModel>,
    notes: Seq<NoteFileModel>,
    name: Seq<char>,
)
    requires
        rebuilt(ignore, projects, cache, gits, symbols, notes) is Ok,
        project_id(known_in(ignore, projects, cache, gits).projects, canonical(name)) is Some,
    ensures
        names_project(projects, name),
{
    let known = known_in(ignore, projects, cache, gits);
    let first = crate::index::add_projects(
        crate::index::nothing_yet(),
        projects,
        cache,
        gits,
        0,
    )->Ok_0;
    lemma_scanned(crate::index::nothing_yet(), projects, cache, gits, 0, first);
    crate::evidence::lemma_project_id(known.projects, canonical(name));
    let id = project_id(known.projects, canonical(name))->0;
    let i = choose|i: int|
        0 <= i < known.projects.len() && (#[trigger] known.projects[i]).0 == canonical(name)
            && known.projects[i].1 as int == id;
    assert(known.projects[i].0 == canonical(first.index.nodes[i].name));
    let p = choose|p: int|
        0 <= p < projects.len() && (#[trigger] projects[p]).name == first.index.nodes[i].name;
    assert(canonical(projects[p].name) == canonical(name));
}

/// The nodes of the projects have the names of projects that were scanned.
proof fn lemma_scanned(
    b: crate::index::BuildModel,
    projects: Seq<ProjectModel>,
    cache: Seq<CachedModel>,
    gits: Seq<GitModel>,
    from: int,
    c: crate::index::BuildModel,
)
    requires
        0 <= from <= projects.len(),
        crate::index::add_projects(b, projects, cache, gits, from) == Ok::<
            crate::index::BuildModel,
            crate::index::RebuildError,
        >(c),
        forall|i: int|
            #![trigger b.index.nodes[i]]
            0 <= i < b.index.nodes.len() ==> exists|p: int|
                0 <= p < projects.len() && (#[trigger] projects[p]).name == b.index.nodes[i].name,
    ensures
        forall|i: int|
            #![trigger c.index.nodes[i]]
            0 <= i < c.index.nodes.len() ==> exists|p: int|
                0 <= p < projects.len() && (#[trigger] projects[p]).name == c.index.nodes[i].name,
    decreases projects.len() - from,
{
    if from < projects.len() {
        let p = projects[from];
        let meta = crate::index::meta_of(p, cache, gits[from]);
        let mid = crate::index::ensure_node(b, "project"@, p.name, Some(p.path), meta)->Ok_0;
        assert forall|i: int|
            #![trigger mid.index.nodes[i]]
            0 <= i < mid.index.nodes.len() implies exists|q: int|
            0 <= q < projects.len() && (#[trigger] projects[q]).name == mid.index.nodes[i].name by {
            if i < b.index.nodes.len() {
                assert(mid.index.nodes[i] == b.index.nodes[i]);
            } else {
                assert(projects[from].name == mid.index.nodes[i].name);
            }
        }
        lemma_scanned(mid, projects, cache, gits, from + 1, c);
    }
}

/// Every wiki link of a scanned note is an edge that a human made: to the project of that name, and
/// else to the entity of that name, unless the name is empty, ignored, too short or a common word.
pub proof fn law_wiki_links_become_edges(
    ignore: Seq<Seq<char>>,
    projects: Seq<ProjectModel>,
    cache: Seq<CachedModel>,
    gits: Seq<GitModel>,
    symbols: Seq<SymbolModel>,
    notes: Seq<NoteFileModel>,
    r: int,
    k: int,
)
    requires
        0 <= r < notes.len(),
        0 <= k < extraction_of(notes[r].body, Seq::empty()).wiki_links.len(),
        canonical(extraction_of(notes[r].body, Seq::empty()).wiki_links[k]).len() > 0,
        !is_ignored(ignore, extraction_of(notes[r].body, Seq::empty()).wiki_links[k]),
    ensures
        rebuilt(ignore, projects, cache, gits, symbols, notes) matches Ok(b) ==> {
            let link = extraction_of(notes[r].body, Seq::empty()).wiki_links[k];
            let src = b.index.notes[r].node_id;
            &&& names_project(projects, link) ==> has_arc_to_project(
                b.index,
                src,
                link,
                "wikilink"@,
                "human"@,
            )
            &&& !names_project(projects, link) && is_entity_name(link) ==> has_arc_to_entity(
                b.index,
                src,
                link,
                "wikilink"@,
                "human"@,
            )
        },
{
    if let Ok(b) = rebuilt(ignore, projects, cache, gits, symbols, notes) {
        lemma_rebuilt(ignore, projects, cache, gits, symbols, notes, b);
        let known = known_in(ignore, projects, cache, gits);
        let m = b.index;
        let link = extraction_of(notes[r].body, Seq::empty()).wiki_links[k];
        let src = m.notes[r].node_id;
        assert(row_of(m, r, notes[r]) && note_covered(known, m, r));
        let found = extraction_of(m.notes[r].body, known.names);
        assert(found.wiki_links[k] == link);
        assert(link_covered(known, m, src, found.wiki_links[k]));
        lemma_target(ignore, projects, known, m, link);
        if names_project(projects, link) {
            let dst = project_id(known.projects, canonical(link))->0;
            lemma_arc(m, link_edge(src, dst, link));
            lemma_project_named(known, m, link);
            assert(has_arc(m, src, dst, "wikilink"@, "human"@));
        } else if is_entity_name(link) {
            if project_id(known.projects, canonical(link)) is Some {
                lemma_known_project(ignore, projects, cache, gits, symbols, notes, link);
            }
            let dst = node_named(m.nodes, "entity"@, canonical(link))->0;
            lemma_arc(m, link_edge(src, dst, link));
            lemma_entity_named(m, link);
            assert(has_arc(m, src, dst, "wikilink"@, "human"@));
        }
    }
}

/// Every backticked span of a scanned note is an edge that the indexer made to the entity of that
/// name, unless the name is empty, ignored, too short, a common word, or that of a project.
pub proof fn law_spans_become_edges(
    ignore: Seq<Seq<char>>,
    projects: Seq<ProjectModel>,
    cache: Seq<CachedModel>,
    gits: Seq<GitModel>,
    symbols: Seq<SymbolModel>,
    notes: Seq<NoteFileModel>,
    r: int,
    k: int,
)
    requires
        0 <= r < notes.len(),
        0 <= k < extraction_of(notes[r].body, Seq::empty()).code_spans.len(),
        canonical(extraction_of(notes[r].body, Seq::empty()).code_spans[k]).len() > 0,
        !is_ignored(ignore, extraction_of(notes[r].body, Seq::empty()).code_spans[k]),
        !names_project(projects, extraction_of(notes[r].body, Seq::empty()).code_spans[k]),
        is_entity_name(extraction_of(notes[r].body, Seq::empty()).code_spans[k]),
    ensures
        rebuilt(ignore, projects, cache, gits, symbols, notes) matches Ok(b) ==> has_arc_to_entity(
            b.index,
            b.index.notes[r].node_id,
            extraction_of(notes[r].body, Seq::empty()).code_spans[k],
            "mentions"@,
            "indexer"@,
        ),
{
    if let Ok(b) = rebuilt(ignore, projects, cache, gits, symbols, notes) {
        lemma_rebuilt(ignore, projects, cache, gits, symbols, notes, b);
        let known = known_in(ignore, projects, cache, gits);
        let m = b.index;
        let span = extraction_of(notes[r].body, Seq::empty()).code_spans[k];
        let src = m.notes[r].node_id;
        assert(row_of(m, r, notes[r]) && note_covered(known, m, r));
        let found = extraction_of(m.notes[r].body, known.names);
        assert(found.code_spans[k] == span);
        assert(span_covered(known, m, src, found.code_spans[k]));
        lemma_target(ignore, projects, known, m, span);
        if project_id(known.projects, canonical(span)) is Some {
            lemma_known_project(ignore, projects, cache, gits, symbols, notes, span);
        }
        let dst = node_named(m.nodes, "entity"@, canonical(span))->0;
        lemma_arc(m, span_edge(src, dst, span));
        lemma_entity_named(m, span);
        assert(has_arc(m, src, dst, "mentions"@, "indexer"@));
    }
}

proof fn lemma_in_dictionary(projects: Seq<ProjectModel>, ignore: Seq<Seq<char>>, n: int, p: int)
    requires
        0 <= p < n <= projects.len(),
        !ignore.contains(canonical(projects[p].name)),
    ensures
        dictionary(projects, ignore, n).contains(projects[p].name),
    decreases n,
{
    if p < n - 1 {
        lemma_in_dictionary(projects, ignore, n - 1, p);
    }
    lemma_with_name(dictionary(projects, ignore, n - 1), projects[n - 1].name);
}

/// Every project whose name is one word, is not ignored, and stands in the prose of a scanned note
/// as a whole word is mentioned by that note, where the name has four bytes or more.
pub proof fn law_project_names_become_edges(
    ignore: Seq<Seq<char>>,
    projects: Seq<ProjectModel>,
    cache: Seq<CachedModel>,
    gits: Seq<GitModel>,
    symbols: Seq<SymbolModel>,
    notes: Seq<NoteFileModel>,
    r: int,
    p: int,
)
    requires
        0 <= r < notes.len(),
        0 <= p < projects.len(),
        !is_ignored(ignore, projects[p].name),
        lowercase(projects[p].name).len() > 0,
        is_one_word(lowercase(projects[p].name)),
        byte_len(projects[p].name) >= 4,
        stands_in(notes[r].body, projects[p].name),
        lowercase(prose_of(notes[r].body)).len() <= usize::MAX,
    ensures
        rebuilt(ignore, projects, cache, gits, symbols, notes) matches Ok(b) ==> has_arc_to_project(
            b.index,
            b.index.notes[r].node_id,
            projects[p].name,
            "mentions"@,
            "indexer"@,
        ),
{
    if let Ok(b) = rebuilt(ignore, projects, cache, gits, symbols, notes) {
        lemma_rebuilt(ignore, projects, cache, gits, symbols, notes, b);
        let known = known_in(ignore, projects, cache, gits);
        let m = b.index;
        let name = projects[p].name;
        let src = m.notes[r].node_id;
        let body = notes[r].body;
        assert(row_of(m, r, notes[r]) && note_covered(known, m, r));
        lemma_ignored(ignore, name);
        lemma_in_dictionary(projects, known.ignore, projects.len() as int, p);
        let n = choose|n: int| 0 <= n < known.names.len() && known.names[n] == name;
        let places = whole_words(lowercase(prose_of(body)), lowercase(name));
        let at = choose|i: int|
            #![trigger stands(lowercase(prose_of(body)), lowercase(name), i)]
            stands(lowercase(prose_of(body)), lowercase(name), i) && !crowded(
                lowercase(prose_of(body)),
                i,
                lowercase(name).len() as int,
            );
        assert(places.contains(at));
        law_whole_words_are_mentioned(body, known.names, n);
        let found = extraction_of(body, known.names);
        let k = choose|k: int|
            0 <= k < found.project_mentions.len() && (#[trigger] found.project_mentions[k]).0
                == known.names[n] && found.project_mentions[k].1 == places.len();
        assert(mention_covered(known, m, src, found.project_mentions[k]));
        assert(project_id(known.projects, canonical(projects[p].name)) is Some);
        let dst = project_id(known.projects, canonical(name))->0;
        lemma_arc(m, mention_edge(src, dst, name, found.project_mentions[k].1));
        lemma_project_named(known, m, name);
        assert(has_arc(m, src, dst, "mentions"@, "indexer"@));
    }
}

/// Every open loop of a scanned note is a node of its own, and the note has an edge to it. The node
/// holds the text and section of the loop.
pub proof fn law_loops_become_nodes(
    ignore: Seq<Seq<char>>,
    projects: Seq<ProjectModel>,
    cache: Seq<CachedModel>,
    gits: Seq<GitModel>,
    symbols: Seq<SymbolModel>,
    notes: Seq<NoteFileModel>,
    r: int,
    l: int,
)
    requires
        0 <= r < notes.len(),
        0 <= l < loops_of(notes[r].body).len(),
    ensures
        rebuilt(ignore, projects, cache, gits, symbols, notes) matches Ok(b) ==> exists|i: int|
            0 <= i < b.index.nodes.len() && (#[trigger] b.index.nodes[i]).kind == "loop"@
                && b.index.nodes[i].name == notes[r].path + "#loop-"@ + decimal(l as nat)
                && b.index.nodes[i].path == Some(notes[r].path) && b.index.nodes[i].meta
                == object_text(
                seq![
                    ("text"@, MetaModel::Text(loops_of(notes[r].body)[l].text)),
                    (
                        "section"@,
                        match loops_of(notes[r].body)[l].section {
                            Some(section) => MetaModel::Text(section),
                            None => MetaModel::Null,
                        },
                    ),
                ],
            ) && has_arc(
                b.index,
                b.index.notes[r].node_id,
                b.index.nodes[i].id,
                "contains"@,
                "indexer"@,
            ),
{
    if let Ok(b) = rebuilt(ignore, projects, cache, gits, symbols, notes) {
        lemma_rebuilt(ignore, projects, cache, gits, symbols, notes, b);
        let known = known_in(ignore, projects, cache, gits);
        let m = b.index;
        assert(row_of(m, r, notes[r]) && note_covered(known, m, r));
        assert(loop_covered(known, m, r, l));
        let id = choose|id: int| loop_linked(known, m, r, l, id);
        lemma_node_at(m, id);
        lemma_arc(m, contains_edge(m.notes[r].node_id, id));
        let i = id - 1;
        assert(m.nodes[i].kind == "loop"@);
        assert(m.nodes[i].meta == loop_meta(loops_of(notes[r].body)[l]));
        assert(crate::index::loop_fields(loops_of(notes[r].body)[l]) =~= seq![
            ("text"@, MetaModel::Text(loops_of(notes[r].body)[l].text)),
            (
                "section"@,
                match loops_of(notes[r].body)[l].section {
                    Some(section) => MetaModel::Text(section),
                    None => MetaModel::Null,
                },
            ),
        ]);
    }
}

/// Every code symbol that was scanned is an entity, unless its name is empty, ignored, too short, a
/// common word, or that of a project; and the project of its repo has an edge to it.
pub proof fn law_symbols_become_edges(
    ignore: Seq<Seq<char>>,
    projects: Seq<ProjectModel>,
    cache: Seq<CachedModel>,
    gits: Seq<GitModel>,
    symbols: Seq<SymbolModel>,
    notes: Seq<NoteFileModel>,
    s: int,
)
    requires
        0 <= s < symbols.len(),
        canonical(symbols[s].name).len() > 0,
        !is_ignored(ignore, symbols[s].name),
        !names_project(projects, symbols[s].name),
        is_entity_name(symbols[s].name),
    ensures
        rebuilt(ignore, projects, cache, gits, symbols, notes) matches Ok(b) ==> {
            &&& exists|dst: int| #[trigger] is_entity_called(b.index, dst, symbols[s].name)
            &&& names_project(projects, symbols[s].repo) ==> exists|src: int, dst: int| #[trigger]
                has_arc(b.index, src, dst, "defines"@, "indexer"@) && is_project_called(
                    b.index,
                    src,
                    symbols[s].repo,
                ) && is_entity_called(b.index, dst, symbols[s].name)
        },
{
    if let Ok(b) = rebuilt(ignore, projects, cache, gits, symbols, notes) {
        lemma_rebuilt(ignore, projects, cache, gits, symbols, notes, b);
        let known = known_in(ignore, projects, cache, gits);
        let m = b.index;
        let name = symbols[s].name;
        assert(symbol_covered(known, m, symbols[s]));
        lemma_target(ignore, projects, known, m, name);
        if project_id(known.projects, canonical(name)) is Some {
            lemma_known_project(ignore, projects, cache, gits, symbols, notes, name);
        }
        let dst = node_named(m.nodes, "entity"@, canonical(name))->0;
        lemma_entity_named(m, name);
        assert(is_entity_called(m, dst, name));
        if names_project(projects, symbols[s].repo) {
            let p = choose|p: int|
                0 <= p < projects.len() && canonical((#[trigger] projects[p]).name) == canonical(
                    symbols[s].repo,
                );
            assert(project_id(known.projects, canonical(projects[p].name)) is Some);
            let src = project_id(known.projects, canonical(symbols[s].repo))->0;
            lemma_arc(m, defines_edge(src, dst, symbols[s].file));
            lemma_project_named(known, m, symbols[s].repo);
            assert(has_arc(m, src, dst, "defines"@, "indexer"@));
        }
    }
}

/// The rows of a rebuilt index are the scanned notes, in their order, with their paths, texts and
/// dates.
pub proof fn law_notes_become_rows(
    ignore: Seq<Seq<char>>,
    projects: Seq<ProjectModel>,
    cache: Seq<CachedModel>,
    gits: Seq<GitModel>,
    symbols: Seq<SymbolModel>,
    notes: Seq<NoteFileModel>,
    r: int,
)
    requires
        0 <= r < notes.len(),
    ensures
        rebuilt(ignore, projects, cache, gits, symbols, notes) matches Ok(b) ==> {
            let row = b.index.notes[r];
            &&& b.index.notes.len() == notes.len()
            &&& row.body == notes[r].body
            &&& row.note_date == notes[r].note_date
            &&& row.mtime == notes[r].mtime_date
            &&& exists|i: int|
                0 <= i < b.index.nodes.len() && (#[trigger] b.index.nodes[i]).id == row.node_id
                    && b.index.nodes[i].kind == "note"@ && b.index.nodes[i].name == notes[r].path
                    && b.index.nodes[i].path == Some(notes[r].path)
        },
{
    if let Ok(b) = rebuilt(ignore, projects, cache, gits, symbols, notes) {
        lemma_rebuilt(ignore, projects, cache, gits, symbols, notes, b);
        assert(row_of(b.index, r, notes[r]));
        lemma_node_at(b.index, b.index.notes[r].node_id);
    }
}

} // verus!
