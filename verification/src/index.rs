//! Building the index from what was scanned.

use vstd::prelude::*;

use crate::config::Config;
use crate::evidence::law_rebuilt_index_is_consistent;
use crate::extract::{
    canonical, canonical_set, canonicalize, canonicals, distinct_of, extract, extract_loops,
    extraction_of, loops_of, with_name, Extraction, ExtractionModel, Loop, LoopModel, Mentions,
    NameSet,
};
use crate::json::{json_object, json_text_field, object_text, text_field, MetaModel, MetaValue};
use crate::scan::{
    git_fields, git_members, CodeSymbol, GitModel, GitOutput, NoteFile, NoteFileModel, Project,
    ProjectModel, SymbolModel,
};
use crate::store::{
    copy_text, count_kind, index_ok, kind_count, Edge, EdgeModel, Index, IndexModel, Node,
    NodeModel, NoteModel, NoteRow,
};
use crate::text::{byte_len, bytes_in, cat3, cat5, decimal, decimal_of, same_text, trim, trim_text};

verus! {

/// Why an index cannot be built.
#[derive(Clone, Copy, Debug, PartialEq, Eq, Structural)]
pub enum RebuildError {
    /// Two nodes that must be distinct have the same kind and name.
    DuplicateNode,
    /// There are more rows than can be numbered.
    Full,
}

/// What a rebuild counted.
#[derive(Debug)]
pub struct IndexStats {
    pub notes: usize,
    pub projects: usize,
    pub entities: usize,
    pub edges: usize,
    pub loops: usize,
    /// Repos whose git metadata was reused from the previous index (fingerprint unchanged).
    pub git_cached: usize,
    /// Repos whose git metadata was refreshed (new, changed, or fingerprint unavailable).
    pub git_refreshed: usize,
}

/// How much to trust a link that a human wrote, in thousandths.
pub const WEIGHT_WIKILINK: i128 = 1000;

/// How much to trust a backticked span, in thousandths: the weakest signal.
pub const WEIGHT_CODE_SPAN: i128 = 300;

/// How much to trust derived structure, in thousandths.
pub const WEIGHT_STRUCTURAL: i128 = 1000;

/// Whether there is a node of this kind and name.
pub open spec fn node_named(nodes: Seq<NodeModel>, kind: Seq<char>, name: Seq<char>) -> Option<int>
    decreases nodes.len(),
{
    if nodes.len() == 0 {
        None
    } else {
        match node_named(nodes.drop_last(), kind, name) {
            Some(id) => Some(id),
            None => if nodes.last().kind == kind && nodes.last().name == name {
                Some(nodes.last().id)
            } else {
                None
            },
        }
    }
}

/// Whether two edges are the same but for their weight and rationale.
pub open spec fn same_edge(a: EdgeModel, b: EdgeModel) -> bool {
    a.src == b.src && a.dst == b.dst && a.kind == b.kind && a.provenance == b.provenance
}

/// Whether there is an edge like `edge` already.
pub open spec fn has_edge_like(edges: Seq<EdgeModel>, edge: EdgeModel) -> bool {
    exists|k: int| 0 <= k < edges.len() && same_edge(#[trigger] edges[k], edge)
}

/// An index under construction.
pub struct Build {
    pub index: Index,
    /// How many edges were found, repetitions included.
    pub edges: usize,
    /// How many loops were found.
    pub loops: usize,
}

/// The value of a `Build`.
#[verifier::ext_equal]
pub struct BuildModel {
    pub index: IndexModel,
    pub edges: int,
    pub loops: int,
}

impl DeepView for Build {
    type V = BuildModel;

    open spec fn deep_view(&self) -> BuildModel {
        BuildModel {
            index: self.index.deep_view(),
            edges: self.edges as int,
            loops: self.loops as int,
        }
    }
}

/// The result of a step of the construction.
pub type Step = Result<BuildModel, RebuildError>;

/// The identity of the next node.
pub open spec fn next_id(b: BuildModel) -> int {
    b.index.nodes.len() as int + 1
}

/// The index with a new node, numbered behind the others. A kind and name are taken once only.
pub open spec fn insert_node(
    b: BuildModel,
    kind: Seq<char>,
    name: Seq<char>,
    path: Option<Seq<char>>,
    meta: Seq<char>,
) -> Step {
    if node_named(b.index.nodes, kind, name) is Some {
        Err(RebuildError::DuplicateNode)
    } else if b.index.nodes.len() >= i64::MAX {
        Err(RebuildError::Full)
    } else {
        let node = NodeModel { id: next_id(b), kind, name, path, meta };
        Ok(
            BuildModel {
                index: IndexModel { nodes: b.index.nodes.push(node), ..b.index },
                ..b
            },
        )
    }
}

/// The index with a new node, unless its kind and name are taken.
pub open spec fn ensure_node(
    b: BuildModel,
    kind: Seq<char>,
    name: Seq<char>,
    path: Option<Seq<char>>,
    meta: Seq<char>,
) -> Step {
    if node_named(b.index.nodes, kind, name) is Some {
        Ok(b)
    } else {
        insert_node(b, kind, name, path, meta)
    }
}

/// The index with a new edge, unless there is one like it: the first one found stays, with its
/// rationale.
pub open spec fn insert_edge(b: BuildModel, edge: EdgeModel) -> Step {
    if b.edges >= usize::MAX || b.edges >= i64::MAX {
        Err(RebuildError::Full)
    } else {
        let edges = if has_edge_like(b.index.edges, edge) {
            b.index.edges
        } else {
            b.index.edges.push(edge)
        };
        Ok(
            BuildModel {
                index: IndexModel { edges, ..b.index },
                edges: b.edges + 1,
                ..b
            },
        )
    }
}

/// What names mean while notes are read: the names that prose is searched for, the names that are
/// ignored, and the canonical name and identity of each project.
pub struct Known {
    pub names: NameSet,
    pub ignore: NameSet,
    pub projects: Vec<(String, i64)>,
}

/// The value of a `Known`.
pub struct KnownModel {
    pub names: Seq<Seq<char>>,
    pub ignore: Seq<Seq<char>>,
    pub projects: Seq<(Seq<char>, i64)>,
}

impl DeepView for Known {
    type V = KnownModel;

    open spec fn deep_view(&self) -> KnownModel {
        KnownModel {
            names: self.names@,
            ignore: self.ignore@,
            projects: self.projects.deep_view(),
        }
    }
}

/// The identity of the first project with this canonical name.
pub open spec fn project_id(projects: Seq<(Seq<char>, i64)>, name: Seq<char>) -> Option<int>
    decreases projects.len(),
{
    if projects.len() == 0 {
        None
    } else if projects[0].0 == name {
        Some(projects[0].1 as int)
    } else {
        project_id(projects.skip(1), name)
    }
}

/// Common words that show up backticked but carry no identity.
pub open spec fn is_stopword(word: Seq<char>) -> bool {
    ||| word == "what"@
    ||| word == "how"@
    ||| word == "why"@
    ||| word == "when"@
    ||| word == "where"@
    ||| word == "who"@
    ||| word == "true"@
    ||| word == "false"@
    ||| word == "nil"@
    ||| word == "null"@
    ||| word == "none"@
    ||| word == "yes"@
    ||| word == "no"@
    ||| word == "n/a"@
    ||| word == "tbd"@
    ||| word == "todo"@
    ||| word == "done"@
    ||| word == "new"@
    ||| word == "old"@
    ||| word == "the"@
    ||| word == "and"@
    ||| word == "for"@
    ||| word == "not"@
}

/// What a written name stands for.
pub enum TargetModel {
    /// Nothing: it is empty, ignored, too short, or a common word.
    Nothing,
    /// A known project.
    Project(int),
    /// An entity with this canonical name.
    Entity(Seq<char>),
}

/// What a canonical name stands for. Known projects take precedence over entities.
pub open spec fn target_named(known: KnownModel, name: Seq<char>) -> TargetModel {
    if name.len() == 0 || known.ignore.contains(name) {
        TargetModel::Nothing
    } else {
        match project_id(known.projects, name) {
            Some(id) => TargetModel::Project(id),
            None => if byte_len(name) < 3 || is_stopword(name) {
                TargetModel::Nothing
            } else {
                TargetModel::Entity(name)
            },
        }
    }
}

/// What a written name stands for, regardless of case or edge punctuation.
pub open spec fn target_of(known: KnownModel, raw: Seq<char>) -> TargetModel {
    target_named(known, canonical(raw))
}

/// The metadata of an entity: the spelling in which it was first seen.
pub open spec fn display_meta(raw: Seq<char>) -> Seq<char> {
    object_text(seq![("display"@, MetaModel::Text(trim(raw)))])
}

/// An edge that a mention of a project in a note's prose makes. Its confidence scales with how
/// often the name appears.
pub open spec fn mention_edge(src: int, dst: int, name: Seq<char>, count: usize) -> EdgeModel {
    EdgeModel {
        src,
        dst,
        kind: "mentions"@,
        provenance: "indexer"@,
        weight: count * 1000,
        rationale: Some(
            "matched project name '"@ + name + "' "@ + decimal(count as nat) + "x in prose"@,
        ),
    }
}

/// An edge that a wiki link makes.
pub open spec fn link_edge(src: int, dst: int, target: Seq<char>) -> EdgeModel {
    EdgeModel {
        src,
        dst,
        kind: "wikilink"@,
        provenance: "human"@,
        weight: WEIGHT_WIKILINK as int,
        rationale: Some("wiki link [["@ + trim(target) + "]]"@),
    }
}

/// An edge that a backticked span makes.
pub open spec fn span_edge(src: int, dst: int, span: Seq<char>) -> EdgeModel {
    EdgeModel {
        src,
        dst,
        kind: "mentions"@,
        provenance: "indexer"@,
        weight: WEIGHT_CODE_SPAN as int,
        rationale: Some("backticked span `"@ + trim(span) + "`"@),
    }
}

/// The edge from a note to one of its loops.
pub open spec fn contains_edge(src: int, dst: int) -> EdgeModel {
    EdgeModel {
        src,
        dst,
        kind: "contains"@,
        provenance: "indexer"@,
        weight: WEIGHT_STRUCTURAL as int,
        rationale: Some("open loop found in note"@),
    }
}

/// The edge from a loop to a project that its text mentions.
pub open spec fn loop_edge(src: int, dst: int, name: Seq<char>) -> EdgeModel {
    EdgeModel {
        src,
        dst,
        kind: "mentions"@,
        provenance: "indexer"@,
        weight: WEIGHT_STRUCTURAL as int,
        rationale: Some("loop text mentions project '"@ + name + "'"@),
    }
}

/// The edge from a repo to a symbol that it defines.
pub open spec fn defines_edge(src: int, dst: int, file: Seq<char>) -> EdgeModel {
    EdgeModel {
        src,
        dst,
        kind: "defines"@,
        provenance: "indexer"@,
        weight: WEIGHT_STRUCTURAL as int,
        rationale: Some("defined in "@ + file),
    }
}

/// The edges of the project mentions of a note, from place `from` on.
pub open spec fn add_mentions(
    known: KnownModel,
    b: BuildModel,
    src: int,
    mentions: Seq<(Seq<char>, usize)>,
    from: int,
) -> Step
    decreases mentions.len() - from,
{
    if from < 0 || from >= mentions.len() {
        Ok(b)
    } else {
        match project_id(known.projects, canonical(mentions[from].0)) {
            None => add_mentions(known, b, src, mentions, from + 1),
            Some(dst) => match insert_edge(
                b,
                mention_edge(src, dst, mentions[from].0, mentions[from].1),
            ) {
                Err(e) => Err(e),
                Ok(c) => add_mentions(known, c, src, mentions, from + 1),
            },
        }
    }
}

/// The index with the entity of a written name.
pub open spec fn ensure_entity(b: BuildModel, name: Seq<char>, raw: Seq<char>) -> Step {
    ensure_node(b, "entity"@, name, None, display_meta(raw))
}

/// The identity of an entity that is there.
pub open spec fn entity_id(b: BuildModel, name: Seq<char>) -> int {
    node_named(b.index.nodes, "entity"@, name)->0
}

/// One wiki link of a note, given what it stands for.
pub open spec fn add_link_to(
    b: BuildModel,
    src: int,
    target: TargetModel,
    written: Seq<char>,
) -> Step {
    match target {
        TargetModel::Nothing => Ok(b),
        TargetModel::Project(dst) => insert_edge(b, link_edge(src, dst, written)),
        TargetModel::Entity(name) => match ensure_entity(b, name, written) {
            Err(e) => Err(e),
            Ok(c) => insert_edge(c, link_edge(src, entity_id(c, name), written)),
        },
    }
}

/// One wiki link of a note.
pub open spec fn add_link(known: KnownModel, b: BuildModel, src: int, written: Seq<char>) -> Step {
    add_link_to(b, src, target_of(known, written), written)
}

/// The wiki links of a note, from place `from` on.
pub open spec fn add_links(
    known: KnownModel,
    b: BuildModel,
    src: int,
    links: Seq<Seq<char>>,
    from: int,
) -> Step
    decreases links.len() - from,
{
    if from < 0 || from >= links.len() {
        Ok(b)
    } else {
        match add_link(known, b, src, links[from]) {
            Err(e) => Err(e),
            Ok(c) => add_links(known, c, src, links, from + 1),
        }
    }
}

/// One backticked span of a note, given what it stands for. Spans that name a project are project
/// mentions already.
pub open spec fn add_span_to(b: BuildModel, src: int, target: TargetModel, span: Seq<char>) -> Step {
    match target {
        TargetModel::Nothing => Ok(b),
        TargetModel::Project(_) => Ok(b),
        TargetModel::Entity(name) => match ensure_entity(b, name, span) {
            Err(e) => Err(e),
            Ok(c) => insert_edge(c, span_edge(src, entity_id(c, name), span)),
        },
    }
}

/// One backticked span of a note.
pub open spec fn add_span(known: KnownModel, b: BuildModel, src: int, span: Seq<char>) -> Step {
    add_span_to(b, src, target_of(known, span), span)
}

/// The backticked spans of a note, from place `from` on.
pub open spec fn add_spans(
    known: KnownModel,
    b: BuildModel,
    src: int,
    spans: Seq<Seq<char>>,
    from: int,
) -> Step
    decreases spans.len() - from,
{
    if from < 0 || from >= spans.len() {
        Ok(b)
    } else {
        match add_span(known, b, src, spans[from]) {
            Err(e) => Err(e),
            Ok(c) => add_spans(known, c, src, spans, from + 1),
        }
    }
}

/// The edges of the projects that a loop's text mentions, from place `from` on.
pub open spec fn add_loop_mentions(
    known: KnownModel,
    b: BuildModel,
    src: int,
    mentions: Seq<(Seq<char>, usize)>,
    from: int,
) -> Step
    decreases mentions.len() - from,
{
    if from < 0 || from >= mentions.len() {
        Ok(b)
    } else {
        match project_id(known.projects, canonical(mentions[from].0)) {
            None => add_loop_mentions(known, b, src, mentions, from + 1),
            Some(dst) => match insert_edge(b, loop_edge(src, dst, mentions[from].0)) {
                Err(e) => Err(e),
                Ok(c) => add_loop_mentions(known, c, src, mentions, from + 1),
            },
        }
    }
}

/// The identity of a loop: its note and its place among the note's loops.
pub open spec fn loop_name(path: Seq<char>, ordinal: int) -> Seq<char> {
    path + "#loop-"@ + decimal(ordinal as nat)
}

/// The members of a loop's metadata.
pub open spec fn loop_fields(item: LoopModel) -> Seq<(Seq<char>, MetaModel)> {
    seq![
        ("text"@, MetaModel::Text(item.text)),
        (
            "section"@,
            match item.section {
                Some(section) => MetaModel::Text(section),
                None => MetaModel::Null,
            },
        ),
    ]
}

/// The metadata of a loop.
pub open spec fn loop_meta(item: LoopModel) -> Seq<char> {
    object_text(loop_fields(item))
}

/// The index with one more loop counted.
pub open spec fn count_loop(b: BuildModel) -> Step {
    if b.loops >= usize::MAX {
        Err(RebuildError::Full)
    } else {
        Ok(BuildModel { loops: b.loops + 1, ..b })
    }
}

/// One open loop of a note, given the project names that its text mentions. A loop is an occurrence
/// in one note, so repeated text stays attributable to each note that holds it.
pub open spec fn add_loop_with(
    known: KnownModel,
    b: BuildModel,
    note_id: int,
    path: Seq<char>,
    item: LoopModel,
    ordinal: int,
    mentions: Seq<(Seq<char>, usize)>,
) -> Step {
    match insert_node(b, "loop"@, loop_name(path, ordinal), Some(path), loop_meta(item)) {
        Err(e) => Err(e),
        Ok(c) => match insert_edge(c, contains_edge(note_id, next_id(b))) {
            Err(e) => Err(e),
            Ok(d) => match count_loop(d) {
                Err(e) => Err(e),
                Ok(f) => add_loop_mentions(known, f, next_id(b), mentions, 0),
            },
        },
    }
}

/// One open loop of a note.
pub open spec fn add_loop(
    known: KnownModel,
    b: BuildModel,
    note_id: int,
    path: Seq<char>,
    item: LoopModel,
    ordinal: int,
) -> Step {
    add_loop_with(
        known,
        b,
        note_id,
        path,
        item,
        ordinal,
        extraction_of(item.text, known.names).project_mentions,
    )
}

/// The open loops of a note, from place `from` on, given the project names that each one's text
/// mentions.
pub open spec fn add_loops_with(
    known: KnownModel,
    b: BuildModel,
    note_id: int,
    path: Seq<char>,
    loops: Seq<LoopModel>,
    mentions: Seq<Seq<(Seq<char>, usize)>>,
    from: int,
) -> Step
    decreases loops.len() - from,
{
    if from < 0 || from >= loops.len() {
        Ok(b)
    } else {
        match add_loop_with(known, b, note_id, path, loops[from], from, mentions[from]) {
            Err(e) => Err(e),
            Ok(c) => add_loops_with(known, c, note_id, path, loops, mentions, from + 1),
        }
    }
}

/// The project names that the text of each loop mentions.
pub open spec fn loop_mentions(known: KnownModel, loops: Seq<LoopModel>) -> Seq<
    Seq<(Seq<char>, usize)>,
> {
    Seq::new(
        loops.len(),
        |l: int| extraction_of(loops[l].text, known.names).project_mentions,
    )
}

/// The open loops of a note, from place `from` on.
pub open spec fn add_loops(
    known: KnownModel,
    b: BuildModel,
    note_id: int,
    path: Seq<char>,
    loops: Seq<LoopModel>,
    from: int,
) -> Step
    decreases loops.len() - from,
{
    if from < 0 || from >= loops.len() {
        Ok(b)
    } else {
        match add_loop(known, b, note_id, path, loops[from], from) {
            Err(e) => Err(e),
            Ok(c) => add_loops(known, c, note_id, path, loops, from + 1),
        }
    }
}

/// The index with the row of a note.
pub open spec fn with_row(b: BuildModel, node_id: int, note: NoteFileModel) -> BuildModel {
    let row = NoteModel {
        node_id,
        body: note.body,
        note_date: note.note_date,
        mtime: note.mtime_date,
    };
    BuildModel { index: IndexModel { notes: b.index.notes.push(row), ..b.index }, ..b }
}

/// One note, given what it says: its node and text, its project mentions, its links, its spans,
/// and its loops with the project names that they mention.
pub open spec fn add_note_with(
    known: KnownModel,
    b: BuildModel,
    note: NoteFileModel,
    found: ExtractionModel,
    loops: Seq<LoopModel>,
    mentions: Seq<Seq<(Seq<char>, usize)>>,
) -> Step {
    let id = next_id(b);
    match insert_node(b, "note"@, note.path, Some(note.path), "{}"@) {
        Err(e) => Err(e),
        Ok(c) => match add_mentions(known, with_row(c, id, note), id, found.project_mentions, 0) {
            Err(e) => Err(e),
            Ok(d) => match add_links(known, d, id, found.wiki_links, 0) {
                Err(e) => Err(e),
                Ok(f) => match add_spans(known, f, id, found.code_spans, 0) {
                    Err(e) => Err(e),
                    Ok(g) => add_loops_with(known, g, id, note.path, loops, mentions, 0),
                },
            },
        },
    }
}

/// One note: its node and text, its project mentions, its links, its spans, and its loops.
pub open spec fn add_note(known: KnownModel, b: BuildModel, note: NoteFileModel) -> Step {
    let id = next_id(b);
    let found = extraction_of(note.body, known.names);
    match insert_node(b, "note"@, note.path, Some(note.path), "{}"@) {
        Err(e) => Err(e),
        Ok(c) => match add_mentions(known, with_row(c, id, note), id, found.project_mentions, 0) {
            Err(e) => Err(e),
            Ok(d) => match add_links(known, d, id, found.wiki_links, 0) {
                Err(e) => Err(e),
                Ok(f) => match add_spans(known, f, id, found.code_spans, 0) {
                    Err(e) => Err(e),
                    Ok(g) => add_loops(known, g, id, note.path, loops_of(note.body), 0),
                },
            },
        },
    }
}

/// The notes, from place `from` on.
pub open spec fn add_notes(
    known: KnownModel,
    b: BuildModel,
    notes: Seq<NoteFileModel>,
    from: int,
) -> Step
    decreases notes.len() - from,
{
    if from < 0 || from >= notes.len() {
        Ok(b)
    } else {
        match add_note(known, b, notes[from]) {
            Err(e) => Err(e),
            Ok(c) => add_notes(known, c, notes, from + 1),
        }
    }
}

/// The metadata of a symbol: where it is defined.
pub open spec fn symbol_meta(symbol: SymbolModel) -> Seq<char> {
    object_text(
        seq![
            ("display"@, MetaModel::Text(trim(symbol.name))),
            ("file"@, MetaModel::Text(symbol.file)),
            ("repo"@, MetaModel::Text(symbol.repo)),
            ("lang"@, MetaModel::Text(symbol.lang)),
        ],
    )
}

/// One code symbol, given what its name stands for and the project that its repo is: its entity,
/// and the edge from the project.
pub open spec fn add_symbol_to(
    b: BuildModel,
    symbol: SymbolModel,
    target: TargetModel,
    repo: Option<int>,
) -> Step {
    match target {
        TargetModel::Entity(name) => match ensure_node(
            b,
            "entity"@,
            name,
            None,
            symbol_meta(symbol),
        ) {
            Err(e) => Err(e),
            Ok(c) => match repo {
                None => Ok(c),
                Some(src) => insert_edge(c, defines_edge(src, entity_id(c, name), symbol.file)),
            },
        },
        _ => Ok(b),
    }
}

/// One code symbol: its entity, and the edge from its repo where that is a known project.
pub open spec fn add_symbol(known: KnownModel, b: BuildModel, symbol: SymbolModel) -> Step {
    add_symbol_to(
        b,
        symbol,
        target_of(known, symbol.name),
        project_id(known.projects, canonical(symbol.repo)),
    )
}

/// The code symbols, from place `from` on.
pub open spec fn add_symbols(
    known: KnownModel,
    b: BuildModel,
    symbols: Seq<SymbolModel>,
    from: int,
) -> Step
    decreases symbols.len() - from,
{
    if from < 0 || from >= symbols.len() {
        Ok(b)
    } else {
        match add_symbol(known, b, symbols[from]) {
            Err(e) => Err(e),
            Ok(c) => add_symbols(known, c, symbols, from + 1),
        }
    }
}

/// Git metadata that an index holds for a project.
pub struct CachedGit {
    pub path: String,
    pub fingerprint: String,
    pub meta: String,
}

/// The value of a `CachedGit`.
pub struct CachedModel {
    pub path: Seq<char>,
    pub fingerprint: Seq<char>,
    pub meta: Seq<char>,
}

impl DeepView for CachedGit {
    type V = CachedModel;

    open spec fn deep_view(&self) -> CachedModel {
        CachedModel { path: self.path@, fingerprint: self.fingerprint@, meta: self.meta@ }
    }
}

/// The last entry for a path.
pub open spec fn cached_for(cache: Seq<CachedModel>, path: Seq<char>) -> Option<CachedModel>
    decreases cache.len(),
{
    if cache.len() == 0 {
        None
    } else if cache.last().path == path {
        Some(cache.last())
    } else {
        cached_for(cache.drop_last(), path)
    }
}

/// Where a project's metadata comes from.
pub enum MetaSource {
    /// It is no repo, so it has none.
    NoRepo,
    /// The fingerprint is unchanged, so the stored metadata is reused.
    Cached(String),
    /// Git has to be asked.
    Refresh,
}

/// The value of a `MetaSource`.
pub enum SourceModel {
    NoRepo,
    Cached(Seq<char>),
    Refresh,
}

impl DeepView for MetaSource {
    type V = SourceModel;

    open spec fn deep_view(&self) -> SourceModel {
        match self {
            MetaSource::NoRepo => SourceModel::NoRepo,
            MetaSource::Cached(meta) => SourceModel::Cached(meta@),
            MetaSource::Refresh => SourceModel::Refresh,
        }
    }
}

/// Where a project's metadata comes from: the stored metadata is reused where the fingerprint is
/// known and the same.
pub open spec fn source_of(project: ProjectModel, cache: Seq<CachedModel>) -> SourceModel {
    if !project.is_repo {
        SourceModel::NoRepo
    } else {
        match (project.git_fingerprint, cached_for(cache, project.path)) {
            (Some(now), Some(entry)) => if now == entry.fingerprint {
                SourceModel::Cached(entry.meta)
            } else {
                SourceModel::Refresh
            },
            _ => SourceModel::Refresh,
        }
    }
}

/// The members of fresh metadata: what git said, and the fingerprint it belongs to.
pub open spec fn fresh_fields(project: ProjectModel, git: GitModel) -> Seq<(Seq<char>, MetaModel)> {
    let said = match git_fields(git) {
        Some(fields) => fields,
        None => Seq::empty(),
    };
    match project.git_fingerprint {
        Some(now) => said.push(("git_fingerprint"@, MetaModel::Text(now))),
        None => said,
    }
}

/// The metadata that is stored for a project.
pub open spec fn meta_of(project: ProjectModel, cache: Seq<CachedModel>, git: GitModel) -> Seq<
    char,
> {
    match source_of(project, cache) {
        SourceModel::NoRepo => "{}"@,
        SourceModel::Cached(meta) => meta,
        SourceModel::Refresh => object_text(fresh_fields(project, git)),
    }
}

/// The projects, from place `from` on. Of projects with the same name the first one counts.
pub open spec fn add_projects(
    b: BuildModel,
    projects: Seq<ProjectModel>,
    cache: Seq<CachedModel>,
    gits: Seq<GitModel>,
    from: int,
) -> Step
    decreases projects.len() - from,
{
    if from < 0 || from >= projects.len() {
        Ok(b)
    } else {
        let project = projects[from];
        match ensure_node(
            b,
            "project"@,
            project.name,
            Some(project.path),
            meta_of(project, cache, gits[from]),
        ) {
            Err(e) => Err(e),
            Ok(c) => add_projects(c, projects, cache, gits, from + 1),
        }
    }
}

/// The names of the first `n` projects that are not ignored.
pub open spec fn dictionary(projects: Seq<ProjectModel>, ignore: Seq<Seq<char>>, n: int) -> Seq<
    Seq<char>,
>
    decreases n,
{
    if n <= 0 {
        Seq::empty()
    } else if ignore.contains(canonical(projects[n - 1].name)) {
        dictionary(projects, ignore, n - 1)
    } else {
        with_name(dictionary(projects, ignore, n - 1), projects[n - 1].name)
    }
}

/// The canonical names and identities of nodes.
pub open spec fn identities(nodes: Seq<NodeModel>) -> Seq<(Seq<char>, i64)> {
    Seq::new(nodes.len(), |i: int| (canonical(nodes[i].name), nodes[i].id as i64))
}

/// What names mean once the projects are in the index.
pub open spec fn known_of(b: BuildModel, projects: Seq<ProjectModel>, ignore: Seq<Seq<char>>) -> KnownModel {
    let ignored = distinct_of(canonicals(ignore));
    KnownModel {
        names: dictionary(projects, ignored, projects.len() as int),
        ignore: ignored,
        projects: identities(b.index.nodes),
    }
}

/// The index without rows.
pub open spec fn nothing_yet() -> BuildModel {
    BuildModel {
        index: IndexModel { nodes: Seq::empty(), notes: Seq::empty(), edges: Seq::empty() },
        edges: 0,
        loops: 0,
    }
}

/// The index of what was scanned: the projects, then the code symbols, then the notes.
pub open spec fn rebuilt(
    ignore: Seq<Seq<char>>,
    projects: Seq<ProjectModel>,
    cache: Seq<CachedModel>,
    gits: Seq<GitModel>,
    symbols: Seq<SymbolModel>,
    notes: Seq<NoteFileModel>,
) -> Step {
    match add_projects(nothing_yet(), projects, cache, gits, 0) {
        Err(e) => Err(e),
        Ok(b) => {
            let known = known_of(b, projects, ignore);
            match add_symbols(known, b, symbols, 0) {
                Err(e) => Err(e),
                Ok(c) => add_notes(known, c, notes, 0),
            }
        },
    }
}

/// Whether a step came out as it should.
pub open spec fn step_is(r: Result<Build, RebuildError>, s: Step) -> bool {
    match r {
        Ok(b) => s == Ok::<BuildModel, RebuildError>(b.deep_view()),
        Err(e) => s == Err::<BuildModel, RebuildError>(e),
    }
}

/// A node that is found stays found when nodes come behind it.
pub proof fn lemma_node_named_prefix(nodes: Seq<NodeModel>, kind: Seq<char>, name: Seq<char>, n: int)
    requires
        0 <= n <= nodes.len(),
        node_named(nodes.take(n), kind, name) is Some,
    ensures
        node_named(nodes, kind, name) == node_named(nodes.take(n), kind, name),
    decreases nodes.len() - n,
{
    if n < nodes.len() {
        assert(nodes.take(n + 1).drop_last() =~= nodes.take(n));
        lemma_node_named_prefix(nodes, kind, name, n + 1);
    } else {
        assert(nodes.take(n) =~= nodes);
    }
}

fn find_named(nodes: &Vec<Node>, kind: &str, name: &String) -> (r: Option<i64>)
    ensures
        match r {
            Some(id) => node_named(nodes.deep_view(), kind@, name@) == Some(id as int),
            None => node_named(nodes.deep_view(), kind@, name@) is None,
        },
{
    let ghost all = nodes.deep_view();
    let mut i: usize = 0;
    while i < nodes.len()
        invariant
            all == nodes.deep_view(),
            i <= all.len(),
            node_named(all.take(i as int), kind@, name@) is None,
        decreases all.len() - i,
    {
        assert(all[i as int] == nodes@[i as int].deep_view());
        assert(all.take(i + 1).drop_last() =~= all.take(i as int));
        if nodes[i].name == *name && same_text(&nodes[i].kind, kind) {
            proof {
                lemma_node_named_prefix(all, kind@, name@, i + 1);
            }
            return Some(nodes[i].id);
        }
        i += 1;
    }
    assert(all.take(all.len() as int) =~= all);
    None
}

fn push_node(
    build: Build,
    kind: &str,
    name: String,
    path: Option<String>,
    meta: String,
) -> (r: Result<Build, RebuildError>)
    requires
        node_named(build.deep_view().index.nodes, kind@, name@) is None,
    ensures
        step_is(r, insert_node(build.deep_view(), kind@, name@, path.deep_view(), meta@)),
{
    let ghost b = build.deep_view();
    let mut index = build.index;
    let n = index.nodes.len();
    if n as u128 >= i64::MAX as u128 {
        return Err(RebuildError::Full);
    }
    let ghost before = index.nodes.deep_view();
    let node = Node { id: n as i64 + 1, kind: kind.to_owned(), name, path, meta };
    index.nodes.push(node);
    assert(index.nodes.deep_view() =~= before.push(node.deep_view()));
    Ok(Build { index, edges: build.edges, loops: build.loops })
}

fn insert_node_in(
    build: Build,
    kind: &str,
    name: String,
    path: Option<String>,
    meta: String,
) -> (r: Result<Build, RebuildError>)
    ensures
        step_is(r, insert_node(build.deep_view(), kind@, name@, path.deep_view(), meta@)),
{
    if find_named(&build.index.nodes, kind, &name).is_some() {
        return Err(RebuildError::DuplicateNode);
    }
    push_node(build, kind, name, path, meta)
}

fn ensure_node_in(
    build: Build,
    kind: &str,
    name: String,
    path: Option<String>,
    meta: String,
) -> (r: Result<Build, RebuildError>)
    ensures
        step_is(r, ensure_node(build.deep_view(), kind@, name@, path.deep_view(), meta@)),
{
    if find_named(&build.index.nodes, kind, &name).is_some() {
        return Ok(build);
    }
    push_node(build, kind, name, path, meta)
}

fn edge_like_in(edges: &Vec<Edge>, edge: &Edge) -> (r: bool)
    ensures
        r == has_edge_like(edges.deep_view(), edge.deep_view()),
{
    let ghost all = edges.deep_view();
    let mut i: usize = 0;
    while i < edges.len()
        invariant
            all == edges.deep_view(),
            i <= all.len(),
            forall|k: int| 0 <= k < i ==> !same_edge(#[trigger] all[k], edge.deep_view()),
        decreases all.len() - i,
    {
        let other = &edges[i];
        assert(all[i as int] == other.deep_view());
        if other.src == edge.src && other.dst == edge.dst && other.kind == edge.kind
            && other.provenance == edge.provenance {
            assert(same_edge(all[i as int], edge.deep_view()));
            return true;
        }
        i += 1;
    }
    false
}

fn insert_edge_in(build: Build, edge: Edge) -> (r: Result<Build, RebuildError>)
    ensures
        step_is(r, insert_edge(build.deep_view(), edge.deep_view())),
{
    if build.edges >= usize::MAX || build.edges as u128 >= i64::MAX as u128 {
        return Err(RebuildError::Full);
    }
    let mut index = build.index;
    let ghost before = index.edges.deep_view();
    if !edge_like_in(&index.edges, &edge) {
        index.edges.push(edge);
        assert(index.edges.deep_view() =~= before.push(edge.deep_view()));
    }
    Ok(Build { index, edges: build.edges + 1, loops: build.loops })
}

fn edge_of(src: i64, dst: i64, kind: &str, provenance: &str, weight: i128, rationale: String) -> (r:
    Edge)
    ensures
        r.deep_view() == (EdgeModel {
            src: src as int,
            dst: dst as int,
            kind: kind@,
            provenance: provenance@,
            weight: weight as int,
            rationale: Some(rationale@),
        }),
{
    Edge {
        src,
        dst,
        kind: kind.to_owned(),
        provenance: provenance.to_owned(),
        weight,
        rationale: Some(rationale),
    }
}

impl Known {
    /// The identity of the project with a canonical name.
    pub fn project(&self, name: &String) -> (r: Option<i64>)
        ensures
            match r {
                Some(id) => project_id(self.deep_view().projects, name@) == Some(id as int),
                None => project_id(self.deep_view().projects, name@) is None,
            },
    {
        let ghost all = self.deep_view().projects;
        let mut i: usize = 0;
        assert(all.skip(0) =~= all);
        while i < self.projects.len()
            invariant
                all == self.deep_view().projects,
                i <= all.len(),
                project_id(all, name@) == project_id(all.skip(i as int), name@),
            decreases all.len() - i,
        {
            assert(all[i as int] == self.projects@[i as int].deep_view());
            assert(all.skip(i as int)[0] == all[i as int]);
            if self.projects[i].0 == *name {
                return Some(self.projects[i].1);
            }
            assert(all.skip(i as int).skip(1) =~= all.skip(i + 1));
            i += 1;
        }
        assert(all.skip(all.len() as int).len() == 0);
        None
    }
}

/// Whether a word carries no identity.
pub fn stopword(word: &str) -> (r: bool)
    ensures
        r == is_stopword(word@),
{
    same_text(word, "what") || same_text(word, "how") || same_text(word, "why") || same_text(
        word,
        "when",
    ) || same_text(word, "where") || same_text(word, "who") || same_text(word, "true") || same_text(
        word,
        "false",
    ) || same_text(word, "nil") || same_text(word, "null") || same_text(word, "none") || same_text(
        word,
        "yes",
    ) || same_text(word, "no") || same_text(word, "n/a") || same_text(word, "tbd") || same_text(
        word,
        "todo",
    ) || same_text(word, "done") || same_text(word, "new") || same_text(word, "old") || same_text(
        word,
        "the",
    ) || same_text(word, "and") || same_text(word, "for") || same_text(word, "not")
}

/// What a written name stands for.
pub enum Target {
    Nothing,
    Project(i64),
    Entity(String),
}

impl DeepView for Target {
    type V = TargetModel;

    open spec fn deep_view(&self) -> TargetModel {
        match self {
            Target::Nothing => TargetModel::Nothing,
            Target::Project(id) => TargetModel::Project(*id as int),
            Target::Entity(name) => TargetModel::Entity(name@),
        }
    }
}

/// Resolve a canonical name to one graph identity.
pub fn resolve_name(known: &Known, name: String) -> (r: Target)
    ensures
        r.deep_view() == target_named(known.deep_view(), name@),
{
    if name.as_str().is_empty() || known.ignore.contains(&name) {
        return Target::Nothing;
    }
    if let Some(id) = known.project(&name) {
        return Target::Project(id);
    }
    if bytes_in(&name) < 3 || stopword(&name) {
        return Target::Nothing;
    }
    Target::Entity(name)
}

/// Resolve extracted text to one graph identity.
pub fn resolve_target(known: &Known, raw: &str) -> (r: Target)
    ensures
        r.deep_view() == target_of(known.deep_view(), raw@),
{
    resolve_name(known, canonicalize(raw))
}

fn display_meta_of(raw: &str) -> (r: String)
    ensures
        r@ == display_meta(raw@),
{
    let mut fields: Vec<(String, MetaValue)> = Vec::new();
    fields.push(("display".to_owned(), MetaValue::Text(trim_text(raw))));
    assert(fields.deep_view() =~= seq![("display"@, MetaModel::Text(trim(raw@)))]);
    json_object(&fields)
}

fn mentions_in(known: &Known, build: Build, src: i64, mentions: &Vec<(String, usize)>) -> (r: Result<
    Build,
    RebuildError,
>)
    ensures
        step_is(
            r,
            add_mentions(
                known.deep_view(),
                build.deep_view(),
                src as int,
                mentions.deep_view(),
                0,
            ),
        ),
{
    let ghost k = known.deep_view();
    let ghost b = build.deep_view();
    let ghost all = mentions.deep_view();
    let mut now = build;
    let mut i: usize = 0;
    while i < mentions.len()
        invariant
            k == known.deep_view(),
            b == build.deep_view(),
            all == mentions.deep_view(),
            i <= all.len(),
            add_mentions(k, b, src as int, all, 0) == add_mentions(
                k,
                now.deep_view(),
                src as int,
                all,
                i as int,
            ),
        decreases all.len() - i,
    {
        assert(all[i as int] == mentions@[i as int].deep_view());
        let name = &mentions[i].0;
        let count = mentions[i].1;
        if let Some(dst) = known.project(&canonicalize(name)) {
            let numeral = decimal_of(count as u128);
            let rationale = cat5("matched project name '", name, "' ", &numeral, "x in prose");
            let edge = edge_of(src, dst, "mentions", "indexer", count as i128 * 1000, rationale);
            assert(edge.deep_view() == mention_edge(src as int, dst as int, name@, count));
            match insert_edge_in(now, edge) {
                Err(e) => {
                    return Err(e);
                },
                Ok(next) => {
                    now = next;
                },
            }
        }
        i += 1;
    }
    Ok(now)
}

proof fn lemma_entity_there(b: BuildModel, name: Seq<char>, meta: Seq<char>)
    ensures
        ensure_node(b, "entity"@, name, None, meta) matches Ok(c) ==> node_named(
            c.index.nodes,
            "entity"@,
            name,
        ) is Some,
{
    if node_named(b.index.nodes, "entity"@, name) is None && b.index.nodes.len() < i64::MAX {
        let c = insert_node(b, "entity"@, name, None, meta)->Ok_0;
        assert(c.index.nodes.drop_last() =~= b.index.nodes);
    }
}

fn entity_in(build: Build, name: &String, meta: String) -> (r: Result<(Build, i64), RebuildError>)
    ensures
        match r {
            Ok((b, id)) => ensure_node(build.deep_view(), "entity"@, name@, None, meta@) == Ok::<
                BuildModel,
                RebuildError,
            >(b.deep_view()) && id == entity_id(b.deep_view(), name@),
            Err(e) => ensure_node(build.deep_view(), "entity"@, name@, None, meta@) == Err::<
                BuildModel,
                RebuildError,
            >(e),
        },
{
    proof {
        lemma_entity_there(build.deep_view(), name@, meta@);
    }
    match ensure_node_in(build, "entity", name.clone(), None, meta) {
        Err(e) => Err(e),
        Ok(next) => {
            let found = find_named(&next.index.nodes, "entity", name);
            match found {
                Some(id) => Ok((next, id)),
                None => Ok((next, 0)),
            }
        },
    }
}

/// Add a wiki link of note `src`, given what it stands for.
pub fn link_to(build: Build, src: i64, target: Target, written: &str) -> (r: Result<
    Build,
    RebuildError,
>)
    ensures
        step_is(r, add_link_to(build.deep_view(), src as int, target.deep_view(), written@)),
{
    let rationale = cat3("wiki link [[", &trim_text(written), "]]");
    match target {
        Target::Nothing => Ok(build),
        Target::Project(dst) => insert_edge_in(
            build,
            edge_of(src, dst, "wikilink", "human", WEIGHT_WIKILINK, rationale),
        ),
        Target::Entity(name) => match entity_in(build, &name, display_meta_of(written)) {
            Err(e) => Err(e),
            Ok((next, dst)) => insert_edge_in(
                next,
                edge_of(src, dst, "wikilink", "human", WEIGHT_WIKILINK, rationale),
            ),
        },
    }
}

fn links_in(known: &Known, build: Build, src: i64, links: &Vec<String>) -> (r: Result<
    Build,
    RebuildError,
>)
    ensures
        step_is(
            r,
            add_links(known.deep_view(), build.deep_view(), src as int, links.deep_view(), 0),
        ),
{
    let ghost k = known.deep_view();
    let ghost b = build.deep_view();
    let ghost all = links.deep_view();
    let mut now = build;
    let mut i: usize = 0;
    while i < links.len()
        invariant
            k == known.deep_view(),
            b == build.deep_view(),
            all == links.deep_view(),
            i <= all.len(),
            add_links(k, b, src as int, all, 0) == add_links(
                k,
                now.deep_view(),
                src as int,
                all,
                i as int,
            ),
        decreases all.len() - i,
    {
        assert(all[i as int] == links@[i as int]@);
        match link_to(now, src, resolve_target(known, &links[i]), &links[i]) {
            Err(e) => {
                return Err(e);
            },
            Ok(next) => {
                now = next;
            },
        }
        i += 1;
    }
    Ok(now)
}

/// Add a backticked span of note `src`, given what it stands for.
pub fn span_to(build: Build, src: i64, target: Target, span: &str) -> (r: Result<
    Build,
    RebuildError,
>)
    ensures
        step_is(r, add_span_to(build.deep_view(), src as int, target.deep_view(), span@)),
{
    match target {
        Target::Nothing => Ok(build),
        Target::Project(_) => Ok(build),
        Target::Entity(name) => {
            let rationale = cat3("backticked span `", &trim_text(span), "`");
            match entity_in(build, &name, display_meta_of(span)) {
                Err(e) => Err(e),
                Ok((next, dst)) => insert_edge_in(
                    next,
                    edge_of(src, dst, "mentions", "indexer", WEIGHT_CODE_SPAN, rationale),
                ),
            }
        },
    }
}

fn spans_in(known: &Known, build: Build, src: i64, spans: &Vec<String>) -> (r: Result<
    Build,
    RebuildError,
>)
    ensures
        step_is(
            r,
            add_spans(known.deep_view(), build.deep_view(), src as int, spans.deep_view(), 0),
        ),
{
    let ghost k = known.deep_view();
    let ghost b = build.deep_view();
    let ghost all = spans.deep_view();
    let mut now = build;
    let mut i: usize = 0;
    while i < spans.len()
        invariant
            k == known.deep_view(),
            b == build.deep_view(),
            all == spans.deep_view(),
            i <= all.len(),
            add_spans(k, b, src as int, all, 0) == add_spans(
                k,
                now.deep_view(),
                src as int,
                all,
                i as int,
            ),
        decreases all.len() - i,
    {
        assert(all[i as int] == spans@[i as int]@);
        match span_to(now, src, resolve_target(known, &spans[i]), &spans[i]) {
            Err(e) => {
                return Err(e);
            },
            Ok(next) => {
                now = next;
            },
        }
        i += 1;
    }
    Ok(now)
}

fn loop_mentions_in(known: &Known, build: Build, src: i64, mentions: &Vec<(String, usize)>) -> (r:
    Result<Build, RebuildError>)
    ensures
        step_is(
            r,
            add_loop_mentions(
                known.deep_view(),
                build.deep_view(),
                src as int,
                mentions.deep_view(),
                0,
            ),
        ),
{
    let ghost k = known.deep_view();
    let ghost b = build.deep_view();
    let ghost all = mentions.deep_view();
    let mut now = build;
    let mut i: usize = 0;
    while i < mentions.len()
        invariant
            k == known.deep_view(),
            b == build.deep_view(),
            all == mentions.deep_view(),
            i <= all.len(),
            add_loop_mentions(k, b, src as int, all, 0) == add_loop_mentions(
                k,
                now.deep_view(),
                src as int,
                all,
                i as int,
            ),
        decreases all.len() - i,
    {
        assert(all[i as int] == mentions@[i as int].deep_view());
        let name = &mentions[i].0;
        if let Some(dst) = known.project(&canonicalize(name)) {
            let rationale = cat3("loop text mentions project '", name, "'");
            match insert_edge_in(
                now,
                edge_of(src, dst, "mentions", "indexer", WEIGHT_STRUCTURAL, rationale),
            ) {
                Err(e) => {
                    return Err(e);
                },
                Ok(next) => {
                    now = next;
                },
            }
        }
        i += 1;
    }
    Ok(now)
}

/// Whether a loop's metadata, read as JSON, gives back the loop's text and section.
pub open spec fn loop_reads_back(item: LoopModel) -> bool {
    &&& text_field(loop_meta(item), "text"@) == Some(item.text)
    &&& text_field(loop_meta(item), "section"@) == item.section
}

fn loop_meta_of(item: &Loop) -> (r: String)
    ensures
        r@ == loop_meta(item.deep_view()),
        loop_reads_back(item.deep_view()),
{
    let mut fields: Vec<(String, MetaValue)> = Vec::new();
    fields.push(("text".to_owned(), MetaValue::Text(item.text.clone())));
    let section = match &item.section {
        Some(section) => MetaValue::Text(section.clone()),
        None => MetaValue::Null,
    };
    fields.push(("section".to_owned(), section));
    let ghost model = loop_fields(item.deep_view());
    assert(fields.deep_view() =~= model);
    let r = json_object(&fields);
    proof {
        reveal_strlit("text");
        reveal_strlit("section");
        assert("text"@.len() != "section"@.len());
        assert(fields.deep_view()[0].0 == "text"@);
        assert(fields.deep_view()[1].0 == "section"@);
    }
    r
}

fn loop_in(
    known: &Known,
    build: Build,
    note_id: i64,
    path: &str,
    item: &Loop,
    ordinal: usize,
    mentions: &Mentions,
) -> (r: Result<Build, RebuildError>)
    ensures
        step_is(
            r,
            add_loop_with(
                known.deep_view(),
                build.deep_view(),
                note_id as int,
                path@,
                item.deep_view(),
                ordinal as int,
                mentions.deep_view(),
            ),
        ),
        loop_reads_back(item.deep_view()),
{
    let ghost b = build.deep_view();
    let meta = loop_meta_of(item);
    let numeral = decimal_of(ordinal as u128);
    let name = cat3(path, "#loop-", &numeral);
    let n = build.index.nodes.len();
    let with_loop = match insert_node_in(build, "loop", name, Some(path.to_owned()), meta) {
        Err(e) => {
            return Err(e);
        },
        Ok(next) => next,
    };
    assert(b.index.nodes.len() == n);
    let loop_id = n as i64 + 1;
    let edge = edge_of(
        note_id,
        loop_id,
        "contains",
        "indexer",
        WEIGHT_STRUCTURAL,
        "open loop found in note".to_owned(),
    );
    let mut linked = match insert_edge_in(with_loop, edge) {
        Err(e) => {
            return Err(e);
        },
        Ok(next) => next,
    };
    if linked.loops >= usize::MAX {
        return Err(RebuildError::Full);
    }
    let counted = Build { index: linked.index, edges: linked.edges, loops: linked.loops + 1 };
    loop_mentions_in(known, counted, loop_id, &mentions.entries)
}

fn loops_in(
    known: &Known,
    build: Build,
    note_id: i64,
    path: &str,
    loops: &Vec<Loop>,
    mentions: &Vec<Mentions>,
) -> (r: Result<Build, RebuildError>)
    requires
        mentions@.len() == loops@.len(),
    ensures
        step_is(
            r,
            add_loops_with(
                known.deep_view(),
                build.deep_view(),
                note_id as int,
                path@,
                loops.deep_view(),
                mentions.deep_view(),
                0,
            ),
        ),
        r is Ok ==> forall|j: int|
            0 <= j < loops@.len() ==> loop_reads_back(#[trigger] loops.deep_view()[j]),
{
    let ghost k = known.deep_view();
    let ghost b = build.deep_view();
    let ghost all = loops.deep_view();
    let ghost said = mentions.deep_view();
    let mut now = build;
    let mut i: usize = 0;
    while i < loops.len()
        invariant
            k == known.deep_view(),
            b == build.deep_view(),
            all == loops.deep_view(),
            said == mentions.deep_view(),
            said.len() == all.len(),
            i <= all.len(),
            add_loops_with(k, b, note_id as int, path@, all, said, 0) == add_loops_with(
                k,
                now.deep_view(),
                note_id as int,
                path@,
                all,
                said,
                i as int,
            ),
            forall|j: int| 0 <= j < i ==> loop_reads_back(#[trigger] all[j]),
        decreases all.len() - i,
    {
        assert(all[i as int] == loops@[i as int].deep_view());
        assert(said[i as int] == mentions@[i as int].deep_view());
        match loop_in(known, now, note_id, path, &loops[i], i, &mentions[i]) {
            Err(e) => {
                return Err(e);
            },
            Ok(next) => {
                now = next;
            },
        }
        i += 1;
    }
    Ok(now)
}

proof fn lemma_loops_with(
    known: KnownModel,
    b: BuildModel,
    note_id: int,
    path: Seq<char>,
    loops: Seq<LoopModel>,
    from: int,
)
    requires
        0 <= from <= loops.len(),
    ensures
        add_loops_with(known, b, note_id, path, loops, loop_mentions(known, loops), from)
            == add_loops(known, b, note_id, path, loops, from),
    decreases loops.len() - from,
{
    if from < loops.len() {
        if let Ok(c) = add_loop(known, b, note_id, path, loops[from], from) {
            lemma_loops_with(known, c, note_id, path, loops, from + 1);
        }
    }
}

fn loop_mentions_of(known: &Known, loops: &Vec<Loop>) -> (r: Vec<Mentions>)
    requires
        forall|i: int| 0 <= i < known.names@.len() ==> (#[trigger] known.names@[i]).len() > 0,
    ensures
        r.deep_view() == loop_mentions(known.deep_view(), loops.deep_view()),
{
    let ghost want = loop_mentions(known.deep_view(), loops.deep_view());
    let mut out: Vec<Mentions> = Vec::new();
    let mut i: usize = 0;
    assert(out.deep_view() =~= Seq::<Seq<(Seq<char>, usize)>>::empty());
    while i < loops.len()
        invariant
            forall|j: int| 0 <= j < known.names@.len() ==> (#[trigger] known.names@[j]).len() > 0,
            want == loop_mentions(known.deep_view(), loops.deep_view()),
            i <= loops@.len(),
            out.deep_view() == want.take(i as int),
        decreases loops@.len() - i,
    {
        let ghost before = out.deep_view();
        assert(loops.deep_view()[i as int] == loops@[i as int].deep_view());
        let mentions = extract(&loops[i].text, &known.names).project_mentions;
        out.push(mentions);
        assert(out.deep_view() =~= before.push(mentions.deep_view()));
        assert(want.take(i + 1) =~= before.push(mentions.deep_view()));
        i += 1;
    }
    assert(want.take(loops@.len() as int) =~= want);
    out
}

/// Whether the metadata of all loops of a note gives back their texts and sections.
pub open spec fn loops_read_back(note: NoteFileModel) -> bool {
    forall|j: int|
        0 <= j < loops_of(note.body).len() ==> loop_reads_back(#[trigger] loops_of(note.body)[j])
}

/// Add a note, given what it says and its loops with the project names that they mention.
pub fn note_with(
    known: &Known,
    build: Build,
    note: &NoteFile,
    found: &Extraction,
    loops: &Vec<Loop>,
    mentions: &Vec<Mentions>,
) -> (r: Result<Build, RebuildError>)
    requires
        mentions@.len() == loops@.len(),
    ensures
        step_is(
            r,
            add_note_with(
                known.deep_view(),
                build.deep_view(),
                note.deep_view(),
                found.deep_view(),
                loops.deep_view(),
                mentions.deep_view(),
            ),
        ),
        r is Ok ==> forall|j: int|
            0 <= j < loops@.len() ==> loop_reads_back(#[trigger] loops.deep_view()[j]),
{
    let ghost b = build.deep_view();
    let n = build.index.nodes.len();
    let with_node = match insert_node_in(
        build,
        "note",
        note.path.clone(),
        Some(note.path.clone()),
        "{}".to_owned(),
    ) {
        Err(e) => {
            return Err(e);
        },
        Ok(next) => next,
    };
    assert(b.index.nodes.len() == n);
    let id = n as i64 + 1;
    let ghost c = with_node.deep_view();
    let mut index = with_node.index;
    let row = NoteRow {
        node_id: id,
        body: note.body.clone(),
        note_date: copy_text(&note.note_date),
        mtime: copy_text(&note.mtime_date),
    };
    let ghost rows = index.notes.deep_view();
    index.notes.push(row);
    assert(index.notes.deep_view() =~= rows.push(row.deep_view()));
    let start = Build { index, edges: with_node.edges, loops: with_node.loops };
    assert(start.deep_view() == with_row(c, id as int, note.deep_view()));
    let mentioned = match mentions_in(known, start, id, &found.project_mentions.entries) {
        Err(e) => {
            return Err(e);
        },
        Ok(next) => next,
    };
    let linked = match links_in(known, mentioned, id, &found.wiki_links) {
        Err(e) => {
            return Err(e);
        },
        Ok(next) => next,
    };
    let spanned = match spans_in(known, linked, id, &found.code_spans) {
        Err(e) => {
            return Err(e);
        },
        Ok(next) => next,
    };
    loops_in(known, spanned, id, &note.path, loops, mentions)
}

fn note_in(known: &Known, build: Build, note: &NoteFile) -> (r: Result<Build, RebuildError>)
    requires
        forall|i: int| 0 <= i < known.names@.len() ==> (#[trigger] known.names@[i]).len() > 0,
    ensures
        step_is(r, add_note(known.deep_view(), build.deep_view(), note.deep_view())),
        r is Ok ==> loops_read_back(note.deep_view()),
{
    let found = extract(&note.body, &known.names);
    let loops = extract_loops(&note.body);
    let mentions = loop_mentions_of(known, &loops);
    assert(mentions.deep_view().len() == loops.deep_view().len());
    proof {
        lemma_note_with(known.deep_view(), build.deep_view(), note.deep_view());
    }
    note_with(known, build, note, &found, &loops, &mentions)
}

proof fn lemma_note_with(known: KnownModel, b: BuildModel, note: NoteFileModel)
    ensures
        add_note_with(
            known,
            b,
            note,
            extraction_of(note.body, known.names),
            loops_of(note.body),
            loop_mentions(known, loops_of(note.body)),
        ) == add_note(known, b, note),
{
    let id = next_id(b);
    let found = extraction_of(note.body, known.names);
    if let Ok(c) = insert_node(b, "note"@, note.path, Some(note.path), "{}"@) {
        if let Ok(d) = add_mentions(known, with_row(c, id, note), id, found.project_mentions, 0) {
            if let Ok(f) = add_links(known, d, id, found.wiki_links, 0) {
                if let Ok(g) = add_spans(known, f, id, found.code_spans, 0) {
                    lemma_loops_with(known, g, id, note.path, loops_of(note.body), 0);
                }
            }
        }
    }
}

#[verifier::rlimit(40)]
#[verifier::spinoff_prover]
fn notes_in(known: &Known, build: Build, notes: &Vec<NoteFile>) -> (r: Result<Build, RebuildError>)
    requires
        forall|i: int| 0 <= i < known.names@.len() ==> (#[trigger] known.names@[i]).len() > 0,
    ensures
        step_is(r, add_notes(known.deep_view(), build.deep_view(), notes.deep_view(), 0)),
        r is Ok ==> forall|i: int|
            0 <= i < notes@.len() ==> loops_read_back(#[trigger] notes.deep_view()[i]),
{
    let ghost k = known.deep_view();
    let ghost b = build.deep_view();
    let ghost all = notes.deep_view();
    let mut now = build;
    let mut i: usize = 0;
    while i < notes.len()
        invariant
            k == known.deep_view(),
            b == build.deep_view(),
            all == notes.deep_view(),
            i <= all.len(),
            forall|j: int| 0 <= j < known.names@.len() ==> (#[trigger] known.names@[j]).len() > 0,
            add_notes(k, b, all, 0) == add_notes(k, now.deep_view(), all, i as int),
            forall|j: int| 0 <= j < i ==> loops_read_back(#[trigger] all[j]),
        decreases all.len() - i,
    {
        assert(all[i as int] == notes@[i as int].deep_view());
        match note_in(known, now, &notes[i]) {
            Err(e) => {
                return Err(e);
            },
            Ok(next) => {
                now = next;
            },
        }
        i += 1;
    }
    Ok(now)
}

fn text_member(key: &str, value: String) -> (r: (String, MetaValue))
    ensures
        r.deep_view() == (key@, MetaModel::Text(value@)),
{
    (key.to_owned(), MetaValue::Text(value))
}

/// Whether a symbol's metadata, read as JSON, gives back where the symbol is defined.
pub open spec fn symbol_reads_back(symbol: SymbolModel) -> bool {
    &&& text_field(symbol_meta(symbol), "display"@) == Some(trim(symbol.name))
    &&& text_field(symbol_meta(symbol), "file"@) == Some(symbol.file)
    &&& text_field(symbol_meta(symbol), "repo"@) == Some(symbol.repo)
    &&& text_field(symbol_meta(symbol), "lang"@) == Some(symbol.lang)
}

fn symbol_meta_of(symbol: &CodeSymbol) -> (r: String)
    ensures
        r@ == symbol_meta(symbol.deep_view()),
        symbol_reads_back(symbol.deep_view()),
{
    let mut fields: Vec<(String, MetaValue)> = Vec::new();
    fields.push(text_member("display", trim_text(&symbol.name)));
    fields.push(text_member("file", symbol.file.clone()));
    fields.push(text_member("repo", symbol.repo.clone()));
    fields.push(text_member("lang", symbol.lang.to_owned()));
    let ghost model = seq![
        ("display"@, MetaModel::Text(trim(symbol.name@))),
        ("file"@, MetaModel::Text(symbol.file@)),
        ("repo"@, MetaModel::Text(symbol.repo@)),
        ("lang"@, MetaModel::Text(symbol.lang@)),
    ];
    assert(fields.deep_view() =~= model);
    let r = json_object(&fields);
    proof {
        reveal_strlit("display");
        reveal_strlit("file");
        reveal_strlit("repo");
        reveal_strlit("lang");
        assert("display"@.len() == 7);
        assert("file"@[0] == 'f' && "repo"@[0] == 'r' && "lang"@[0] == 'l');
        assert(fields.deep_view()[0] == model[0]);
        assert(fields.deep_view()[1] == model[1]);
        assert(fields.deep_view()[2] == model[2]);
        assert(fields.deep_view()[3] == model[3]);
    }
    r
}

/// Add a code symbol, given what its name stands for and the project that its repo is.
pub fn symbol_to(build: Build, symbol: &CodeSymbol, target: Target, repo: Option<i64>) -> (r: Result<
    Build,
    RebuildError,
>)
    ensures
        step_is(
            r,
            add_symbol_to(
                build.deep_view(),
                symbol.deep_view(),
                target.deep_view(),
                match repo {
                    Some(id) => Some(id as int),
                    None => None,
                },
            ),
        ),
{
    match target {
        Target::Entity(name) => match entity_in(build, &name, symbol_meta_of(symbol)) {
            Err(e) => Err(e),
            Ok((next, dst)) => match repo {
                None => Ok(next),
                Some(src) => {
                    let mut rationale = "defined in ".to_owned();
                    rationale.append(&symbol.file);
                    insert_edge_in(
                        next,
                        edge_of(src, dst, "defines", "indexer", WEIGHT_STRUCTURAL, rationale),
                    )
                },
            },
        },
        _ => Ok(build),
    }
}

fn symbols_into(known: &Known, build: Build, symbols: &Vec<CodeSymbol>) -> (r: Result<
    Build,
    RebuildError,
>)
    ensures
        step_is(r, add_symbols(known.deep_view(), build.deep_view(), symbols.deep_view(), 0)),
{
    let ghost k = known.deep_view();
    let ghost b = build.deep_view();
    let ghost all = symbols.deep_view();
    let mut now = build;
    let mut i: usize = 0;
    while i < symbols.len()
        invariant
            k == known.deep_view(),
            b == build.deep_view(),
            all == symbols.deep_view(),
            i <= all.len(),
            add_symbols(k, b, all, 0) == add_symbols(k, now.deep_view(), all, i as int),
        decreases all.len() - i,
    {
        assert(all[i as int] == symbols@[i as int].deep_view());
        let target = resolve_target(known, &symbols[i].name);
        let repo = known.project(&canonicalize(&symbols[i].repo));
        match symbol_to(now, &symbols[i], target, repo) {
            Err(e) => {
                return Err(e);
            },
            Ok(next) => {
                now = next;
            },
        }
        i += 1;
    }
    Ok(now)
}

/// The git metadata that the first `n` nodes hold: of projects with a path and a fingerprint.
pub open spec fn cache_upto(nodes: Seq<NodeModel>, n: int) -> Seq<CachedModel>
    decreases n,
{
    if n <= 0 {
        Seq::empty()
    } else {
        let node = nodes[n - 1];
        match (node.path, text_field(node.meta, "git_fingerprint"@)) {
            (Some(path), Some(fingerprint)) => if node.kind == "project"@ {
                cache_upto(nodes, n - 1).push(CachedModel { path, fingerprint, meta: node.meta })
            } else {
                cache_upto(nodes, n - 1)
            },
            _ => cache_upto(nodes, n - 1),
        }
    }
}

/// The git metadata that an index holds. An index of another schema version holds none.
pub open spec fn cache_of(version: i64, nodes: Seq<NodeModel>) -> Seq<CachedModel> {
    if version == SCHEMA_VERSION {
        cache_upto(nodes, nodes.len() as int)
    } else {
        Seq::empty()
    }
}

/// The version of the stored schema.
pub const SCHEMA_VERSION: i64 = 5;

/// Load cached git state from the nodes of the live index. Correctness never depends on the cache:
/// an empty one only means that every repo is refreshed.
pub fn load_git_cache(version: i64, nodes: &Vec<Node>) -> (r: Vec<CachedGit>)
    ensures
        r.deep_view() == cache_of(version, nodes.deep_view()),
{
    let ghost all = nodes.deep_view();
    let mut out: Vec<CachedGit> = Vec::new();
    assert(out.deep_view() =~= Seq::<CachedModel>::empty());
    if version != SCHEMA_VERSION {
        return out;
    }
    let mut i: usize = 0;
    while i < nodes.len()
        invariant
            all == nodes.deep_view(),
            i <= all.len(),
            out.deep_view() == cache_upto(all, i as int),
        decreases all.len() - i,
    {
        let ghost before = out.deep_view();
        let node = &nodes[i];
        assert(all[i as int] == node.deep_view());
        if same_text(&node.kind, "project") {
            if let Some(path) = &node.path {
                if let Some(fingerprint) = json_text_field(&node.meta, "git_fingerprint") {
                    let entry = CachedGit {
                        path: path.clone(),
                        fingerprint,
                        meta: node.meta.clone(),
                    };
                    out.push(entry);
                    assert(out.deep_view() =~= before.push(entry.deep_view()));
                }
            }
        }
        i += 1;
    }
    out
}

fn find_cached<'a>(cache: &'a Vec<CachedGit>, path: &String) -> (r: Option<&'a CachedGit>)
    ensures
        match r {
            Some(entry) => cached_for(cache.deep_view(), path@) == Some(entry.deep_view()),
            None => cached_for(cache.deep_view(), path@) is None,
        },
{
    let ghost all = cache.deep_view();
    let mut n: usize = cache.len();
    assert(all.take(n as int) =~= all);
    while n > 0
        invariant
            all == cache.deep_view(),
            n <= all.len(),
            cached_for(all, path@) == cached_for(all.take(n as int), path@),
        decreases n,
    {
        assert(all[n - 1] == cache@[n - 1].deep_view());
        assert(all.take(n as int).drop_last() =~= all.take(n - 1));
        if cache[n - 1].path == *path {
            return Some(&cache[n - 1]);
        }
        n = n - 1;
    }
    None
}

/// Where a project's metadata comes from.
pub fn meta_source(project: &Project, cache: &Vec<CachedGit>) -> (r: MetaSource)
    ensures
        r.deep_view() == source_of(project.deep_view(), cache.deep_view()),
{
    if !project.is_repo {
        return MetaSource::NoRepo;
    }
    if let Some(now) = &project.git_fingerprint {
        if let Some(entry) = find_cached(cache, &project.path) {
            if entry.fingerprint == *now {
                return MetaSource::Cached(entry.meta.clone());
            }
        }
    }
    MetaSource::Refresh
}

/// Whether fresh metadata, read as JSON, gives back the fingerprint that it belongs to.
pub open spec fn stamp_reads_back(project: ProjectModel, git: GitModel) -> bool {
    project.git_fingerprint matches Some(now) ==> text_field(
        object_text(fresh_fields(project, git)),
        "git_fingerprint"@,
    ) == Some(now)
}

/// The metadata that is stored for a project: the cached one where the fingerprint is unchanged,
/// else what git said, stamped with the current fingerprint.
pub fn project_meta(project: &Project, cache: &Vec<CachedGit>, git: &GitOutput) -> (r: String)
    ensures
        r@ == meta_of(project.deep_view(), cache.deep_view(), git.deep_view()),
        source_of(project.deep_view(), cache.deep_view()) is Refresh ==> stamp_reads_back(
            project.deep_view(),
            git.deep_view(),
        ),
{
    match meta_source(project, cache) {
        MetaSource::NoRepo => "{}".to_owned(),
        MetaSource::Cached(meta) => meta,
        MetaSource::Refresh => {
            let mut fields = match git_members(git) {
                Some(fields) => fields,
                None => Vec::new(),
            };
            let ghost said = fields.deep_view();
            assert(git_fields(git.deep_view()) is None ==> said =~= Seq::<
                (Seq<char>, MetaModel),
            >::empty());
            if let Some(now) = &project.git_fingerprint {
                fields.push(text_member("git_fingerprint", now.clone()));
                assert(fields.deep_view() =~= said.push(
                    ("git_fingerprint"@, MetaModel::Text(now@)),
                ));
            }
            let r = json_object(&fields);
            proof {
                reveal_strlit("branch");
                reveal_strlit("commits");
                reveal_strlit("git_fingerprint");
                assert("branch"@.len() == 6 && "commits"@.len() == 7 && "git_fingerprint"@.len()
                    == 15);
                if project.git_fingerprint is Some {
                    let last = fields@.len() - 1;
                    assert(fields.deep_view()[last].0 == "git_fingerprint"@);
                }
            }
            r
        },
    }
}

fn projects_in(projects: &Vec<Project>, cache: &Vec<CachedGit>, gits: &Vec<GitOutput>) -> (r: Result<
    Build,
    RebuildError,
>)
    requires
        gits@.len() == projects@.len(),
    ensures
        step_is(
            r,
            add_projects(
                nothing_yet(),
                projects.deep_view(),
                cache.deep_view(),
                gits.deep_view(),
                0,
            ),
        ),
{
    let ghost all = projects.deep_view();
    let ghost cached = cache.deep_view();
    let ghost said = gits.deep_view();
    let mut now = Build {
        index: Index { nodes: Vec::new(), notes: Vec::new(), edges: Vec::new() },
        edges: 0,
        loops: 0,
    };
    assert(now.deep_view() =~= nothing_yet());
    let mut i: usize = 0;
    while i < projects.len()
        invariant
            all == projects.deep_view(),
            cached == cache.deep_view(),
            said == gits.deep_view(),
            gits@.len() == projects@.len(),
            i <= all.len(),
            add_projects(nothing_yet(), all, cached, said, 0) == add_projects(
                now.deep_view(),
                all,
                cached,
                said,
                i as int,
            ),
        decreases all.len() - i,
    {
        let project = &projects[i];
        assert(all[i as int] == project.deep_view());
        assert(said[i as int] == gits@[i as int].deep_view());
        let meta = project_meta(project, cache, &gits[i]);
        match ensure_node_in(
            now,
            "project",
            project.name.clone(),
            Some(project.path.clone()),
            meta,
        ) {
            Err(e) => {
                return Err(e);
            },
            Ok(next) => {
                now = next;
            },
        }
        i += 1;
    }
    Ok(now)
}

fn dictionary_of(projects: &Vec<Project>, ignore: &NameSet) -> (r: NameSet)
    ensures
        r@ == dictionary(projects.deep_view(), ignore@, projects@.len() as int),
{
    let ghost all = projects.deep_view();
    let mut out = NameSet::new();
    let mut i: usize = 0;
    while i < projects.len()
        invariant
            all == projects.deep_view(),
            i <= all.len(),
            out@ == dictionary(all, ignore@, i as int),
        decreases all.len() - i,
    {
        assert(all[i as int] == projects@[i as int].deep_view());
        if !ignore.contains(&canonicalize(&projects[i].name)) {
            out = out.with(&projects[i].name);
        }
        i += 1;
    }
    out
}

fn identities_of(nodes: &Vec<Node>) -> (r: Vec<(String, i64)>)
    ensures
        r.deep_view() == identities(nodes.deep_view()),
{
    let ghost all = nodes.deep_view();
    let mut out: Vec<(String, i64)> = Vec::new();
    let mut i: usize = 0;
    assert(out.deep_view() =~= Seq::<(Seq<char>, i64)>::empty());
    while i < nodes.len()
        invariant
            all == nodes.deep_view(),
            i <= all.len(),
            out.deep_view() == identities(all).take(i as int),
        decreases all.len() - i,
    {
        let ghost before = out.deep_view();
        assert(all[i as int] == nodes@[i as int].deep_view());
        let entry = (canonicalize(&nodes[i].name), nodes[i].id);
        out.push(entry);
        assert(out.deep_view() =~= before.push(entry.deep_view()));
        assert(identities(all).take(i + 1) =~= before.push(identities(all)[i as int]));
        i += 1;
    }
    assert(identities(all).take(all.len() as int) =~= identities(all));
    out
}

proof fn lemma_dictionary(projects: Seq<ProjectModel>, ignore: Seq<Seq<char>>, n: int)
    requires
        0 <= n <= projects.len(),
        forall|i: int| 0 <= i < projects.len() ==> (#[trigger] projects[i]).name.len() > 0,
    ensures
        forall|i: int|
            0 <= i < dictionary(projects, ignore, n).len() ==> (#[trigger] dictionary(
                projects,
                ignore,
                n,
            )[i]).len() > 0,
    decreases n,
{
    if n > 0 {
        lemma_dictionary(projects, ignore, n - 1);
        let rest = dictionary(projects, ignore, n - 1);
        let all = dictionary(projects, ignore, n);
        assert(projects[n - 1].name.len() > 0);
        assert forall|i: int| 0 <= i < all.len() implies (#[trigger] all[i]).len() > 0 by {
            if i < rest.len() {
                assert(all[i] == rest[i]);
            }
        }
    }
}

/// How many of the first `n` projects reuse their stored metadata.
pub open spec fn cached_count(projects: Seq<ProjectModel>, cache: Seq<CachedModel>, n: int) -> nat
    decreases n,
{
    if n <= 0 {
        0
    } else if source_of(projects[n - 1], cache) is Cached {
        cached_count(projects, cache, n - 1) + 1
    } else {
        cached_count(projects, cache, n - 1)
    }
}

/// For how many of the first `n` projects git has to be asked.
pub open spec fn refreshed_count(projects: Seq<ProjectModel>, cache: Seq<CachedModel>, n: int) -> nat
    decreases n,
{
    if n <= 0 {
        0
    } else if source_of(projects[n - 1], cache) is Refresh {
        refreshed_count(projects, cache, n - 1) + 1
    } else {
        refreshed_count(projects, cache, n - 1)
    }
}

fn count_sources(projects: &Vec<Project>, cache: &Vec<CachedGit>) -> (r: (usize, usize))
    ensures
        r.0 == cached_count(projects.deep_view(), cache.deep_view(), projects@.len() as int),
        r.1 == refreshed_count(projects.deep_view(), cache.deep_view(), projects@.len() as int),
{
    let ghost all = projects.deep_view();
    let total = projects.len();
    let mut cached: usize = 0;
    let mut refreshed: usize = 0;
    let mut i: usize = 0;
    while i < projects.len()
        invariant
            all == projects.deep_view(),
            total == all.len(),
            i <= all.len(),
            cached <= i,
            refreshed <= i,
            cached == cached_count(all, cache.deep_view(), i as int),
            refreshed == refreshed_count(all, cache.deep_view(), i as int),
        decreases all.len() - i,
    {
        assert(all[i as int] == projects@[i as int].deep_view());
        match meta_source(&projects[i], cache) {
            MetaSource::NoRepo => {},
            MetaSource::Cached(_) => {
                cached += 1;
            },
            MetaSource::Refresh => {
                refreshed += 1;
            },
        }
        i += 1;
    }
    (cached, refreshed)
}

/// What was scanned, and what the index is built from.
pub struct Scanned {
    pub projects: Vec<Project>,
    /// What git said of each project; it counts only where the metadata is refreshed.
    pub gits: Vec<GitOutput>,
    pub symbols: Vec<CodeSymbol>,
    pub notes: Vec<NoteFile>,
}

/// The index of what was scanned.
pub open spec fn index_of(ignore: Seq<Seq<char>>, scanned: Scanned, cache: Seq<CachedModel>) -> Step {
    rebuilt(
        ignore,
        scanned.projects.deep_view(),
        cache,
        scanned.gits.deep_view(),
        scanned.symbols.deep_view(),
        scanned.notes.deep_view(),
    )
}

/// Full rebuild: the index of everything that was scanned, and what was counted on the way.
pub fn rebuild(config: &Config, scanned: &Scanned, cache: &Vec<CachedGit>) -> (r: Result<
    (Index, IndexStats),
    RebuildError,
>)
    requires
        scanned.gits@.len() == scanned.projects@.len(),
        forall|i: int|
            0 <= i < scanned.projects@.len() ==> (#[trigger] scanned.projects@[i]).name@.len() > 0,
    ensures
        match (r, index_of(config.ignore.deep_view(), *scanned, cache.deep_view())) {
            (Ok((index, stats)), Ok(b)) => {
                &&& index.deep_view() == b.index
                &&& stats.notes == scanned.notes@.len()
                &&& stats.projects == scanned.projects@.len()
                &&& stats.entities == kind_count(b.index.nodes, "entity"@)
                &&& stats.edges == b.edges
                &&& stats.loops == b.loops
                &&& stats.git_cached == cached_count(
                    scanned.projects.deep_view(),
                    cache.deep_view(),
                    scanned.projects@.len() as int,
                )
                &&& stats.git_refreshed == refreshed_count(
                    scanned.projects.deep_view(),
                    cache.deep_view(),
                    scanned.projects@.len() as int,
                )
            },
            (Err(e), Err(f)) => e == f,
            _ => false,
        },
        r is Ok ==> forall|i: int|
            0 <= i < scanned.notes@.len() ==> loops_read_back(
                #[trigger] scanned.notes.deep_view()[i],
            ),
        r matches Ok((index, _)) ==> index_ok(index.deep_view()),
{
    proof {
        law_rebuilt_index_is_consistent(
            config.ignore.deep_view(),
            scanned.projects.deep_view(),
            cache.deep_view(),
            scanned.gits.deep_view(),
            scanned.symbols.deep_view(),
            scanned.notes.deep_view(),
        );
    }
    let ghost all = scanned.projects.deep_view();
    let build = match projects_in(&scanned.projects, cache, &scanned.gits) {
        Err(e) => {
            return Err(e);
        },
        Ok(build) => build,
    };
    let ignored = canonical_set(&config.ignore);
    let names = dictionary_of(&scanned.projects, &ignored);
    proof {
        assert forall|i: int| 0 <= i < all.len() implies (#[trigger] all[i]).name.len() > 0 by {
            assert(all[i] == scanned.projects@[i].deep_view());
        }
        lemma_dictionary(all, ignored@, all.len() as int);
    }
    let projects = identities_of(&build.index.nodes);
    let known = Known { names, ignore: ignored, projects };
    assert(known.deep_view() == known_of(build.deep_view(), all, config.ignore.deep_view()));
    let with_symbols = match symbols_into(&known, build, &scanned.symbols) {
        Err(e) => {
            return Err(e);
        },
        Ok(next) => next,
    };
    let done = match notes_in(&known, with_symbols, &scanned.notes) {
        Err(e) => {
            return Err(e);
        },
        Ok(next) => next,
    };
    let (git_cached, git_refreshed) = count_sources(&scanned.projects, cache);
    let stats = IndexStats {
        notes: scanned.notes.len(),
        projects: scanned.projects.len(),
        entities: count_kind(&done.index.nodes, "entity"),
        edges: done.edges,
        loops: done.loops,
        git_cached,
        git_refreshed,
    };
    Ok((done.index, stats))
}

} // verus!
