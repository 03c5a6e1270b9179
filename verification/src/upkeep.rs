//! What keeping the index up promises: what is counted, what is reused, when the index counts as
//! healthy, and what calls of the tools ask for.

use vstd::prelude::*;

use crate::extract::{canonical, extraction_of, loops_of, LoopModel};
use crate::harvest::is_plain_name;
use crate::index::{
    add_link, add_links, add_loop, add_loop_mentions, add_loops, add_mentions, add_note, add_notes,
    add_projects, add_span, add_spans, add_symbol, add_symbols, cache_of, cache_upto, cached_count,
    cached_for, contains_edge, count_loop, ensure_node, fresh_fields, has_edge_like, insert_edge,
    insert_node, known_of, loop_edge, loop_meta, loop_name, mention_edge, meta_of, next_id,
    nothing_yet, project_id, rebuilt, refreshed_count, same_edge, source_of, target_of, with_row,
    BuildModel, CachedModel, KnownModel, TargetModel, SCHEMA_VERSION,
};
use crate::json::{object_text, text_field, MetaModel};
use crate::mcp::{requested, ArgsModel, RequestModel};
use crate::scan::{commits_of, GitModel, NoteFileModel, ProjectModel, SymbolModel};
use crate::select::{lemma_picked_count, picked};
use crate::status::{
    rebuilt_fault, status_of, temporary, unreadable, ProbeModel, SourceStatusModel,
};
use crate::store::{kind_count, EdgeModel, NodeModel};
use crate::text::{decimal, trim};
use crate::wording::law_numerals_read_back;

verus! {

/// The places of the nodes of a kind.
pub open spec fn places_of_kind(nodes: Seq<NodeModel>, kind: Seq<char>) -> Set<int> {
    Set::new(|i: int| 0 <= i < nodes.len() && nodes[i].kind == kind)
}

/// Counting the nodes of a kind gives how many there are.
pub proof fn law_nodes_are_counted(nodes: Seq<NodeModel>, kind: Seq<char>)
    ensures
        kind_count(nodes, kind) == places_of_kind(nodes, kind).len(),
        places_of_kind(nodes, kind).finite(),
{
    let flags = Seq::new(nodes.len(), |i: int| nodes[i].kind == kind);
    lemma_kind_flags(nodes, kind);
    lemma_picked_count(flags, places_of_kind(nodes, kind));
}

proof fn lemma_kind_flags(nodes: Seq<NodeModel>, kind: Seq<char>)
    ensures
        kind_count(nodes, kind) == picked(
            Seq::new(nodes.len(), |i: int| nodes[i].kind == kind),
        ).len(),
    decreases nodes.len(),
{
    let flags = Seq::new(nodes.len(), |i: int| nodes[i].kind == kind);
    if nodes.len() > 0 {
        let rest = nodes.drop_last();
        lemma_kind_flags(rest, kind);
        assert(flags.drop_last() =~= Seq::new(rest.len(), |i: int| rest[i].kind == kind));
    }
}

/// Whether what was counted fits the rows: the loops are the loop nodes, and there are no more
/// edges than were counted.
pub open spec fn tallied(b: BuildModel) -> bool {
    kind_count(b.index.nodes, "loop"@) == b.loops && b.index.edges.len() <= b.edges
}

proof fn lemma_kinds()
    ensures
        "loop"@ != "note"@,
        "loop"@ != "entity"@,
        "loop"@ != "project"@,
{
    reveal_strlit("loop");
    reveal_strlit("note");
    reveal_strlit("entity");
    reveal_strlit("project");
    assert("loop"@[0] == 'l' && "note"@[0] == 'n' && "entity"@[0] == 'e' && "project"@[0] == 'p');
}

proof fn lemma_insert_tallied(
    b: BuildModel,
    kind: Seq<char>,
    name: Seq<char>,
    path: Option<Seq<char>>,
    meta: Seq<char>,
)
    ensures
        insert_node(b, kind, name, path, meta) matches Ok(c) ==> {
            &&& kind_count(c.index.nodes, "loop"@) == kind_count(b.index.nodes, "loop"@) + (if kind
                == "loop"@ {
                1int
            } else {
                0
            })
            &&& c.edges == b.edges && c.loops == b.loops && c.index.edges == b.index.edges
        },
        kind != "loop"@ && tallied(b) ==> (ensure_node(b, kind, name, path, meta) matches Ok(c)
            ==> tallied(c)),
{
    if let Ok(c) = insert_node(b, kind, name, path, meta) {
        assert(c.index.nodes.drop_last() =~= b.index.nodes);
    }
}

proof fn lemma_mentions_tallied(
    known: KnownModel,
    b: BuildModel,
    src: int,
    mentions: Seq<(Seq<char>, usize)>,
    from: int,
)
    requires
        tallied(b),
        0 <= from,
    ensures
        add_mentions(known, b, src, mentions, from) matches Ok(c) ==> tallied(c),
        add_loop_mentions(known, b, src, mentions, from) matches Ok(c) ==> tallied(c),
    decreases mentions.len() - from,
{
    if from < mentions.len() {
        match project_id(known.projects, canonical(mentions[from].0)) {
            None => {
                lemma_mentions_tallied(known, b, src, mentions, from + 1);
            },
            Some(dst) => {
                let said = mention_edge(src, dst, mentions[from].0, mentions[from].1);
                if let Ok(c) = insert_edge(b, said) {
                    lemma_mentions_tallied(known, c, src, mentions, from + 1);
                }
                if let Ok(c) = insert_edge(b, loop_edge(src, dst, mentions[from].0)) {
                    lemma_mentions_tallied(known, c, src, mentions, from + 1);
                }
            },
        }
    }
}

proof fn lemma_links_tallied(
    known: KnownModel,
    b: BuildModel,
    src: int,
    texts: Seq<Seq<char>>,
    from: int,
)
    requires
        tallied(b),
        0 <= from,
    ensures
        add_links(known, b, src, texts, from) matches Ok(c) ==> tallied(c),
        add_spans(known, b, src, texts, from) matches Ok(c) ==> tallied(c),
    decreases texts.len() - from,
{
    if from < texts.len() {
        lemma_kinds();
        if let TargetModel::Entity(name) = target_of(known, texts[from]) {
            lemma_insert_tallied(
                b,
                "entity"@,
                name,
                None,
                crate::index::display_meta(texts[from]),
            );
        }
        if let Ok(c) = add_link(known, b, src, texts[from]) {
            lemma_links_tallied(known, c, src, texts, from + 1);
        }
        if let Ok(c) = add_span(known, b, src, texts[from]) {
            lemma_links_tallied(known, c, src, texts, from + 1);
        }
    }
}

proof fn lemma_loops_tallied(
    known: KnownModel,
    b: BuildModel,
    note_id: int,
    path: Seq<char>,
    loops: Seq<LoopModel>,
    from: int,
)
    requires
        tallied(b),
        0 <= from,
    ensures
        add_loops(known, b, note_id, path, loops, from) matches Ok(c) ==> tallied(c),
    decreases loops.len() - from,
{
    if from < loops.len() {
        let item = loops[from];
        lemma_insert_tallied(b, "loop"@, loop_name(path, from), Some(path), loop_meta(item));
        if let Ok(c) = insert_node(b, "loop"@, loop_name(path, from), Some(path), loop_meta(item)) {
            if let Ok(d) = insert_edge(c, contains_edge(note_id, next_id(b))) {
                if let Ok(f) = count_loop(d) {
                    lemma_mentions_tallied(
                        known,
                        f,
                        next_id(b),
                        extraction_of(item.text, known.names).project_mentions,
                        0,
                    );
                }
            }
        }
        if let Ok(c) = add_loop(known, b, note_id, path, item, from) {
            lemma_loops_tallied(known, c, note_id, path, loops, from + 1);
        }
    }
}

proof fn lemma_note_tallied(known: KnownModel, b: BuildModel, note: NoteFileModel)
    requires
        tallied(b),
    ensures
        add_note(known, b, note) matches Ok(c) ==> tallied(c),
{
    let id = next_id(b);
    let found = extraction_of(note.body, known.names);
    lemma_kinds();
    lemma_insert_tallied(b, "note"@, note.path, Some(note.path), "{}"@);
    if let Ok(c) = insert_node(b, "note"@, note.path, Some(note.path), "{}"@) {
        let row = with_row(c, id, note);
        assert(tallied(row));
        lemma_mentions_tallied(known, row, id, found.project_mentions, 0);
        if let Ok(d) = add_mentions(known, row, id, found.project_mentions, 0) {
            lemma_links_tallied(known, d, id, found.wiki_links, 0);
            if let Ok(f) = add_links(known, d, id, found.wiki_links, 0) {
                lemma_links_tallied(known, f, id, found.code_spans, 0);
                if let Ok(g) = add_spans(known, f, id, found.code_spans, 0) {
                    lemma_loops_tallied(known, g, id, note.path, loops_of(note.body), 0);
                }
            }
        }
    }
}

proof fn lemma_notes_tallied(
    known: KnownModel,
    b: BuildModel,
    notes: Seq<NoteFileModel>,
    from: int,
)
    requires
        tallied(b),
        0 <= from,
    ensures
        add_notes(known, b, notes, from) matches Ok(c) ==> tallied(c),
    decreases notes.len() - from,
{
    if from < notes.len() {
        lemma_note_tallied(known, b, notes[from]);
        if let Ok(c) = add_note(known, b, notes[from]) {
            lemma_notes_tallied(known, c, notes, from + 1);
        }
    }
}

proof fn lemma_symbols_tallied(
    known: KnownModel,
    b: BuildModel,
    symbols: Seq<SymbolModel>,
    from: int,
)
    requires
        tallied(b),
        0 <= from,
    ensures
        add_symbols(known, b, symbols, from) matches Ok(c) ==> tallied(c),
    decreases symbols.len() - from,
{
    if from < symbols.len() {
        let symbol = symbols[from];
        lemma_kinds();
        if let TargetModel::Entity(name) = target_of(known, symbol.name) {
            lemma_insert_tallied(b, "entity"@, name, None, crate::index::symbol_meta(symbol));
        }
        if let Ok(c) = add_symbol(known, b, symbol) {
            lemma_symbols_tallied(known, c, symbols, from + 1);
        }
    }
}

proof fn lemma_projects_tallied(
    b: BuildModel,
    projects: Seq<ProjectModel>,
    cache: Seq<CachedModel>,
    gits: Seq<GitModel>,
    from: int,
)
    requires
        tallied(b),
        0 <= from,
    ensures
        add_projects(b, projects, cache, gits, from) matches Ok(c) ==> tallied(c),
    decreases projects.len() - from,
{
    if from < projects.len() {
        let p = projects[from];
        let meta = meta_of(p, cache, gits[from]);
        lemma_kinds();
        lemma_insert_tallied(b, "project"@, p.name, Some(p.path), meta);
        if let Ok(c) = ensure_node(b, "project"@, p.name, Some(p.path), meta) {
            lemma_projects_tallied(c, projects, cache, gits, from + 1);
        }
    }
}

/// A rebuild counts every loop of the index once, and at least every edge of it.
pub proof fn law_rebuild_counts_its_loops(
    ignore: Seq<Seq<char>>,
    projects: Seq<ProjectModel>,
    cache: Seq<CachedModel>,
    gits: Seq<GitModel>,
    symbols: Seq<SymbolModel>,
    notes: Seq<NoteFileModel>,
)
    ensures
        rebuilt(ignore, projects, cache, gits, symbols, notes) matches Ok(b) ==> b.loops
            == places_of_kind(b.index.nodes, "loop"@).len() && b.index.edges.len() <= b.edges,
{
    assert(tallied(nothing_yet()));
    lemma_projects_tallied(nothing_yet(), projects, cache, gits, 0);
    if let Ok(b) = add_projects(nothing_yet(), projects, cache, gits, 0) {
        let known = known_of(b, projects, ignore);
        lemma_symbols_tallied(known, b, symbols, 0);
        if let Ok(c) = add_symbols(known, b, symbols, 0) {
            lemma_notes_tallied(known, c, notes, 0);
            if let Ok(d) = add_notes(known, c, notes, 0) {
                law_nodes_are_counted(d.index.nodes, "loop"@);
            }
        }
    }
}

/// Every edge that is found is counted. It is kept behind the others, unless there is one already
/// between the same nodes, of the same kind and by the same writer: then the first one stays.
pub proof fn law_every_found_edge_is_counted(b: BuildModel, edge: EdgeModel)
    ensures
        insert_edge(b, edge) matches Ok(c) ==> {
            let there = exists|k: int|
                0 <= k < b.index.edges.len() && (#[trigger] b.index.edges[k]).src == edge.src
                    && b.index.edges[k].dst == edge.dst && b.index.edges[k].kind == edge.kind
                    && b.index.edges[k].provenance == edge.provenance;
            &&& c.edges == b.edges + 1
            &&& c.loops == b.loops
            &&& c.index.nodes == b.index.nodes
            &&& c.index.notes == b.index.notes
            &&& there ==> c.index.edges == b.index.edges
            &&& !there ==> c.index.edges == b.index.edges.push(edge)
        },
{
    if let Ok(c) = insert_edge(b, edge) {
        if has_edge_like(b.index.edges, edge) {
            let k = choose|k: int|
                0 <= k < b.index.edges.len() && same_edge(#[trigger] b.index.edges[k], edge);
            assert(b.index.edges[k].src == edge.src);
        } else if exists|k: int|
            0 <= k < b.index.edges.len() && (#[trigger] b.index.edges[k]).src == edge.src
                && b.index.edges[k].dst == edge.dst && b.index.edges[k].kind == edge.kind
                && b.index.edges[k].provenance == edge.provenance {
            let k = choose|k: int|
                0 <= k < b.index.edges.len() && (#[trigger] b.index.edges[k]).src == edge.src
                    && b.index.edges[k].dst == edge.dst && b.index.edges[k].kind == edge.kind
                    && b.index.edges[k].provenance == edge.provenance;
            assert(same_edge(b.index.edges[k], edge));
        }
    }
}

/// Whether entry `k` is the last one for a path.
pub open spec fn is_last_for(cache: Seq<CachedModel>, path: Seq<char>, k: int) -> bool {
    &&& 0 <= k < cache.len()
    &&& cache[k].path == path
    &&& forall|j: int| k < j < cache.len() ==> (#[trigger] cache[j]).path != path
}

/// Whether the stored metadata of entry `k` still holds for a project.
pub open spec fn still_holds(project: ProjectModel, cache: Seq<CachedModel>, k: int) -> bool {
    &&& project.is_repo
    &&& is_last_for(cache, project.path, k)
    &&& project.git_fingerprint == Some(cache[k].fingerprint)
}

proof fn lemma_last_for(cache: Seq<CachedModel>, path: Seq<char>)
    ensures
        match cached_for(cache, path) {
            Some(entry) => exists|k: int| is_last_for(cache, path, k) && entry == cache[k],
            None => forall|j: int| 0 <= j < cache.len() ==> (#[trigger] cache[j]).path != path,
        },
    decreases cache.len(),
{
    if cache.len() > 0 {
        let last = cache.len() - 1;
        let rest = cache.drop_last();
        if cache[last].path == path {
            assert(is_last_for(cache, path, last));
        } else {
            lemma_last_for(rest, path);
            if let Some(entry) = cached_for(rest, path) {
                let k = choose|k: int| is_last_for(rest, path, k) && entry == rest[k];
                assert(cache[k] == rest[k]);
                assert forall|j: int| k < j < cache.len() implies (#[trigger] cache[j]).path
                    != path by {
                    if j < last {
                        assert(cache[j] == rest[j]);
                    }
                }
                assert(is_last_for(cache, path, k));
            } else {
                assert forall|j: int| 0 <= j < cache.len() implies (#[trigger] cache[j]).path
                    != path by {
                    if j < last {
                        assert(cache[j] == rest[j]);
                    }
                }
            }
        }
    }
}

/// The metadata of a project is none where it is no repo; what was stored where the fingerprint is
/// known and unchanged; and otherwise what git says.
pub proof fn law_metadata_is_reused_only_while_it_holds(
    project: ProjectModel,
    cache: Seq<CachedModel>,
    git: GitModel,
)
    ensures
        !project.is_repo ==> meta_of(project, cache, git) == "{}"@,
        forall|k: int| #[trigger]
            still_holds(project, cache, k) ==> meta_of(project, cache, git) == cache[k].meta,
        project.is_repo && (forall|k: int| !still_holds(project, cache, k)) ==> meta_of(
            project,
            cache,
            git,
        ) == object_text(fresh_fields(project, git)),
{
    lemma_last_for(cache, project.path);
    match cached_for(cache, project.path) {
        Some(entry) => {
            let k = choose|k: int| is_last_for(cache, project.path, k) && entry == cache[k];
            assert forall|l: int| #[trigger] still_holds(project, cache, l) implies l == k by {
                if l < k {
                    assert(cache[k].path != project.path);
                }
                if k < l {
                    assert(cache[l].path != project.path);
                }
            }
            if project.git_fingerprint == Some(entry.fingerprint) && project.is_repo {
                assert(still_holds(project, cache, k));
            }
        },
        None => {
            assert forall|l: int| !#[trigger] still_holds(project, cache, l) by {
                if is_last_for(cache, project.path, l) {
                    assert(cache[l].path != project.path);
                }
            }
        },
    }
}

/// Fresh metadata holds the branch without white space around it, the commits of the log, and the
/// fingerprint, each where it is known, and nothing else.
pub proof fn law_fresh_metadata_says_what_git_said(project: ProjectModel, git: GitModel)
    ensures
        git.branch matches Some(branch) ==> {
            &&& fresh_fields(project, git).contains(("branch"@, MetaModel::Text(trim(branch))))
            &&& fresh_fields(project, git).contains(
                ("commits"@, MetaModel::Rows(commits_of(git.log))),
            )
        },
        project.git_fingerprint matches Some(now) ==> fresh_fields(project, git).contains(
            ("git_fingerprint"@, MetaModel::Text(now)),
        ),
        fresh_fields(project, git).len() == (if git.branch is Some {
            2int
        } else {
            0
        }) + (if project.git_fingerprint is Some {
            1int
        } else {
            0
        }),
{
    let all = fresh_fields(project, git);
    if let Some(branch) = git.branch {
        assert(all[0] == ("branch"@, MetaModel::Text(trim(branch))));
        assert(all[1] == ("commits"@, MetaModel::Rows(commits_of(git.log))));
    }
    if let Some(now) = project.git_fingerprint {
        assert(all.last() == ("git_fingerprint"@, MetaModel::Text(now)));
        assert(all[all.len() - 1] == all.last());
    }
}

/// Whether node `i` is a project whose stored metadata has a fingerprint.
pub open spec fn is_stamped(nodes: Seq<NodeModel>, i: int) -> bool {
    &&& 0 <= i < nodes.len()
    &&& nodes[i].kind == "project"@
    &&& nodes[i].path is Some
    &&& text_field(nodes[i].meta, "git_fingerprint"@) is Some
}

/// Whether an entry is what node `i` stores.
pub open spec fn is_stored_by(nodes: Seq<NodeModel>, i: int, entry: CachedModel) -> bool {
    &&& is_stamped(nodes, i)
    &&& nodes[i].path == Some(entry.path)
    &&& nodes[i].meta == entry.meta
    &&& text_field(nodes[i].meta, "git_fingerprint"@) == Some(entry.fingerprint)
}

proof fn lemma_stored(nodes: Seq<NodeModel>, n: int) -> (places: Seq<int>)
    requires
        0 <= n <= nodes.len(),
    ensures
        places.len() == cache_upto(nodes, n).len(),
        forall|k: int|
            0 <= k < places.len() ==> #[trigger] places[k] < n && is_stored_by(
                nodes,
                places[k],
                cache_upto(nodes, n)[k],
            ),
        forall|k: int, l: int|
            0 <= k < l < places.len() ==> #[trigger] places[k] < #[trigger] places[l],
        forall|i: int| #[trigger] is_stamped(nodes, i) && i < n ==> places.contains(i),
    decreases n,
{
    if n <= 0 {
        Seq::empty()
    } else {
        let rest = lemma_stored(nodes, n - 1);
        if is_stamped(nodes, n - 1) {
            let places = rest.push(n - 1);
            let all = cache_upto(nodes, n);
            assert forall|k: int| 0 <= k < places.len() implies #[trigger] places[k] < n
                && is_stored_by(nodes, places[k], all[k]) by {
                if k < rest.len() {
                    assert(places[k] == rest[k]);
                }
            }
            assert forall|i: int| #[trigger] is_stamped(nodes, i) && i < n implies places.contains(
                i,
            ) by {
                if i < n - 1 {
                    assert(rest.contains(i));
                    let k = choose|k: int| 0 <= k < rest.len() && rest[k] == i;
                    assert(places[k] == i);
                } else {
                    assert(places[rest.len() as int] == i);
                }
            }
            places
        } else {
            rest
        }
    }
}

/// What can be reused of an index is the metadata of its projects that have a fingerprint, in their
/// order and none left out. Of an index with another schema version nothing is.
pub proof fn law_stored_metadata_is_that_of_projects(version: i64, nodes: Seq<NodeModel>) -> (places:
    Seq<int>)
    ensures
        version != SCHEMA_VERSION ==> cache_of(version, nodes).len() == 0,
        places.len() == cache_of(version, nodes).len(),
        forall|k: int|
            0 <= k < places.len() ==> is_stored_by(
                nodes,
                #[trigger] places[k],
                cache_of(version, nodes)[k],
            ),
        forall|k: int, l: int|
            0 <= k < l < places.len() ==> #[trigger] places[k] < #[trigger] places[l],
        version == SCHEMA_VERSION ==> forall|i: int| #[trigger]
            is_stamped(nodes, i) ==> places.contains(i),
{
    if version == SCHEMA_VERSION {
        lemma_stored(nodes, nodes.len() as int)
    } else {
        Seq::empty()
    }
}

/// Every project that is a repo is counted once: as reused or as asked.
pub proof fn law_repos_are_reused_or_asked(
    projects: Seq<ProjectModel>,
    cache: Seq<CachedModel>,
    n: int,
)
    requires
        0 <= n <= projects.len(),
    ensures
        cached_count(projects, cache, n) == Set::new(
            |i: int| 0 <= i < n && exists|k: int| still_holds(projects[i], cache, k),
        ).len(),
        refreshed_count(projects, cache, n) == Set::new(
            |i: int|
                0 <= i < n && projects[i].is_repo && forall|k: int|
                    !still_holds(projects[i], cache, k),
        ).len(),
{
    let reused = Seq::new(n as nat, |i: int| exists|k: int| still_holds(projects[i], cache, k));
    let asked = Seq::new(
        n as nat,
        |i: int|
            projects[i].is_repo && forall|k: int| !still_holds(projects[i], cache, k),
    );
    lemma_source_flags(projects, cache, n);
    lemma_picked_count(
        reused,
        Set::new(|i: int| 0 <= i < n && exists|k: int| still_holds(projects[i], cache, k)),
    );
    lemma_picked_count(
        asked,
        Set::new(
            |i: int|
                0 <= i < n && projects[i].is_repo && forall|k: int|
                    !still_holds(projects[i], cache, k),
        ),
    );
}

proof fn lemma_source(project: ProjectModel, cache: Seq<CachedModel>)
    ensures
        source_of(project, cache) is Cached <==> exists|k: int| still_holds(project, cache, k),
        source_of(project, cache) is Refresh <==> project.is_repo && forall|k: int|
            !still_holds(project, cache, k),
{
    lemma_last_for(cache, project.path);
    match cached_for(cache, project.path) {
        Some(entry) => {
            let k = choose|k: int| is_last_for(cache, project.path, k) && entry == cache[k];
            assert forall|l: int| #[trigger] still_holds(project, cache, l) implies l == k by {
                if l < k {
                    assert(cache[k].path != project.path);
                }
                if k < l {
                    assert(cache[l].path != project.path);
                }
            }
            assert(source_of(project, cache) is Cached <==> still_holds(project, cache, k));
        },
        None => {
            assert forall|l: int| !#[trigger] still_holds(project, cache, l) by {
                if is_last_for(cache, project.path, l) {
                    assert(cache[l].path != project.path);
                }
            }
        },
    }
}

proof fn lemma_source_flags(projects: Seq<ProjectModel>, cache: Seq<CachedModel>, n: int)
    requires
        0 <= n <= projects.len(),
    ensures
        cached_count(projects, cache, n) == picked(
            Seq::new(n as nat, |i: int| exists|k: int| still_holds(projects[i], cache, k)),
        ).len(),
        refreshed_count(projects, cache, n) == picked(
            Seq::new(
                n as nat,
                |i: int|
                    projects[i].is_repo && forall|k: int| !still_holds(projects[i], cache, k),
            ),
        ).len(),
    decreases n,
{
    let reused = Seq::new(n as nat, |i: int| exists|k: int| still_holds(projects[i], cache, k));
    let asked = Seq::new(
        n as nat,
        |i: int|
            projects[i].is_repo && forall|k: int| !still_holds(projects[i], cache, k),
    );
    if n > 0 {
        lemma_source_flags(projects, cache, n - 1);
        lemma_source(projects[n - 1], cache);
        assert(reused.drop_last() =~= Seq::new(
            (n - 1) as nat,
            |i: int| exists|k: int| still_holds(projects[i], cache, k),
        ));
        assert(asked.drop_last() =~= Seq::new(
            (n - 1) as nat,
            |i: int|
                projects[i].is_repo && forall|k: int| !still_holds(projects[i], cache, k),
        ));
    }
}

/// An index is reported as healthy only where its schema version is the current one and the
/// integrity check said `ok`. It is then reported with what was counted and without an error;
/// otherwise with an error and without what was counted.
pub proof fn law_only_sound_indexes_are_healthy(
    database: Seq<char>,
    probe: ProbeModel,
    sources: Seq<SourceStatusModel>,
)
    requires
        crate::status::probe_ok(probe),
    ensures
        ({
            let s = status_of(database, probe, sources);
            &&& s.database == database
            &&& s.sources == sources
            &&& s.expected_schema_version == SCHEMA_VERSION
            &&& s.indexed <==> !(probe is Missing)
            &&& s.healthy <==> (probe is Versioned && probe->version == SCHEMA_VERSION
                && probe->integrity == Some("ok"@))
            &&& s.error is None <==> s.healthy
            &&& s.healthy ==> s.counts == probe->counts && s.last_rebuilt == probe->last_rebuilt
            &&& !s.healthy ==> s.counts is None && s.last_rebuilt is None
            &&& s.schema_version == (if probe is Versioned {
                Some(probe->version)
            } else {
                None
            })
        }),
{
}

/// An index may be read only where it is there and has the current schema version, and a rebuilt
/// one replaces it only where all checks say so.
pub proof fn law_only_sound_indexes_are_used(
    path: Seq<char>,
    exists_there: bool,
    version: i64,
    integrity: Seq<char>,
    search_ok: bool,
)
    ensures
        unreadable(path, exists_there, version) is None <==> exists_there && version
            == SCHEMA_VERSION,
        rebuilt_fault(integrity, search_ok, version) is None <==> integrity == "ok"@ && search_ok
            && version == SCHEMA_VERSION,
{
}

/// The index under construction is hidden, and its name is that of no other process's.
pub proof fn law_processes_build_apart(dir: Seq<char>, name: Seq<char>, p: u32, q: u32)
    requires
        is_plain_name(name),
        p != q,
    ensures
        temporary(dir.push('/') + name, p) is Some,
        temporary(dir.push('/') + name, p)->0[0] == '.',
        temporary(dir.push('/') + name, p)->0.subrange(1, name.len() as int + 1) == name,
        temporary(dir.push('/') + name, p) != Some(name),
        temporary(dir.push('/') + name, p) != temporary(dir.push('/') + name, q),
{
    crate::harvest::law_files_are_named_by_the_last_part(dir, name);
    reveal_strlit(".");
    reveal_strlit(".tmp");
    law_numerals_read_back(p as nat);
    law_numerals_read_back(q as nat);
    let a = decimal(p as nat);
    let b = decimal(q as nat);
    let s = temporary(dir.push('/') + name, p)->0;
    let t = temporary(dir.push('/') + name, q)->0;
    assert(s.subrange(1, name.len() as int + 1) =~= name);
    assert(s.len() == 1 + name.len() + 1 + a.len() + 4);
    assert(t.len() == 1 + name.len() + 1 + b.len() + 4);
    if s == t {
        let from = name.len() as int + 2;
        assert(s.subrange(from, from + a.len()) =~= a);
        assert(t.subrange(from, from + b.len()) =~= b);
        assert(a == b);
    }
}

/// A limit that a call asks for counts as it is, unless it is negative: then nothing is left out.
/// Without one, `search` gives at most 20 results, `dangling` 50 and `connect` 15; `connect` pairs
/// what shares 3 notes, over edges that weigh a half, and `why` shows every edge.
pub proof fn law_calls_ask_for_what_they_say(tool: Seq<char>, args: ArgsModel)
    ensures
        requested(tool, args) matches Ok(request) ==> match request {
            RequestModel::Search { term, limit } => {
                &&& tool == "search"@
                &&& args.term == Some(term)
                &&& is_limit(args.limit, 20, limit)
            },
            RequestModel::About { name } => tool == "about"@ && args.name == Some(name),
            RequestModel::Why { name, min_weight } => {
                &&& tool == "why"@
                &&& args.name == Some(name)
                &&& min_weight == (if args.min_weight is Some {
                    args.min_weight->0
                } else {
                    0
                })
            },
            RequestModel::Dangling { about, limit } => {
                &&& tool == "dangling"@
                &&& about == args.about
                &&& is_limit(args.limit, 50, limit)
            },
            RequestModel::Connect { min, min_weight, limit } => {
                &&& tool == "connect"@
                &&& min == (if args.min is Some {
                    args.min->0
                } else {
                    3
                })
                &&& min_weight == (if args.min_weight is Some {
                    args.min_weight->0
                } else {
                    500
                })
                &&& is_limit(args.limit, 15, limit)
            },
            RequestModel::Reindex => tool == "reindex"@,
        },
{
}

/// Whether a limit is the one that was asked for, or the usual one where none was.
pub open spec fn is_limit(asked: Option<i64>, usual: usize, limit: usize) -> bool {
    match asked {
        None => limit == usual,
        Some(n) => if n < 0 {
            limit == usize::MAX
        } else {
            n <= usize::MAX ==> limit == n
        },
    }
}

} // verus!
