//! What the command line prints, as lines of text.

use vstd::prelude::*;

use crate::config::Source;
use crate::connect::{Connections, ConnectionsModel, PairModel, TemporalModel};
use crate::index::IndexStats;
use crate::json::{json_list_field, json_text_field, list_field, text_field};
use crate::mcp::{counted, counted_text, git_counted, git_text};
use crate::paths::{file_name, file_name_of};
use crate::publish::{
    PlanEntityModel, PlanFlagModel, PlanLoopModel, PlanModel, PlanNoteModel, PlanProjectModel,
    PublishPlan,
};
use crate::query::{
    About, AboutModel, CoMentionModel, Dangling, DanglingModel, Fact, FactModel, HitModel,
    NoteRefModel, OpenLoop, OpenLoopModel, SearchHit,
};
use crate::status::{IndexCounts, IndexStatus, SourceStatusModel, StatusModel};
use crate::text::{
    cat3, cat5, chars_of, decimal, decimal_int, decimal_of, decimal_of_int, part_of, same_text,
    text_of,
};

verus! {

/// A text of `n` spaces.
pub open spec fn spaces(n: int) -> Seq<char> {
    Seq::new(
        if n > 0 {
            n as nat
        } else {
            0
        },
        |i: int| ' ',
    )
}

/// A text with spaces behind it up to a width.
pub open spec fn pad_right(text: Seq<char>, width: int) -> Seq<char> {
    text + spaces(width - text.len())
}

/// A text with spaces before it up to a width.
pub open spec fn pad_left(text: Seq<char>, width: int) -> Seq<char> {
    spaces(width - text.len()) + text
}

fn gap(len: usize, width: usize) -> (r: String)
    ensures
        r@ == spaces(width - len),
{
    let mut out = String::new();
    let mut n: usize = len;
    assert(out@ =~= spaces(0));
    while n < width
        invariant
            len <= n,
            n <= width || n == len,
            out@ == spaces(n - len),
        decreases width - n,
    {
        out.push(' ');
        assert(spaces(n - len + 1) =~= spaces(n - len).push(' '));
        n += 1;
    }
    assert(spaces(n - len) =~= spaces(width - len));
    out
}

fn padded_right(text: &str, width: usize) -> (r: String)
    ensures
        r@ == pad_right(text@, width as int),
{
    let n = chars_of(text).len();
    let mut out = text.to_owned();
    out.append(&gap(n, width));
    out
}

fn padded_left(text: &str, width: usize) -> (r: String)
    ensures
        r@ == pad_left(text@, width as int),
{
    let n = chars_of(text).len();
    let mut out = gap(n, width);
    out.append(text);
    out
}

fn put(lines: &mut Vec<String>, line: String)
    ensures
        final(lines).deep_view() == old(lines).deep_view().push(line@),
{
    let ghost before = lines.deep_view();
    lines.push(line);
    assert(lines.deep_view() =~= before.push(line@));
}

fn put_str(lines: &mut Vec<String>, line: &str)
    ensures
        final(lines).deep_view() == old(lines).deep_view().push(line@),
{
    put(lines, line.to_owned());
}

fn no_lines() -> (r: Vec<String>)
    ensures
        r.deep_view() == Seq::<Seq<char>>::empty(),
{
    let r: Vec<String> = Vec::new();
    assert(r.deep_view() =~= Seq::<Seq<char>>::empty());
    r
}

/// The first `n` characters of a text, or all of it where it is shorter.
pub open spec fn head_of(text: Seq<char>, n: int) -> Seq<char> {
    if text.len() > n {
        text.take(n)
    } else {
        text
    }
}

fn head(text: &str, n: usize) -> (r: String)
    ensures
        r@ == head_of(text@, n as int),
{
    let chars = chars_of(text);
    if chars.len() > n {
        let part = part_of(&chars, 0, n);
        assert(part@ =~= text@.take(n as int));
        text_of(&part)
    } else {
        text.to_owned()
    }
}

/// A date, or as many spaces where there is none.
pub open spec fn date_column(date: Option<Seq<char>>) -> Seq<char> {
    match date {
        Some(d) => d,
        None => "          "@,
    }
}

fn dated(date: &Option<String>) -> (r: String)
    ensures
        r@ == date_column(date.deep_view()),
{
    match date {
        Some(d) => d.clone(),
        None => "          ".to_owned(),
    }
}

/// A text, or the empty text where there is none.
pub open spec fn text_or_empty(text: Option<Seq<char>>) -> Seq<char> {
    match text {
        Some(t) => t,
        None => ""@,
    }
}

fn or_empty(text: Option<String>) -> (r: String)
    ensures
        r@ == text_or_empty(text.deep_view()),
{
    match text {
        Some(t) => t,
        None => "".to_owned(),
    }
}

/// The answer where the graph knows nothing about `name`.
pub fn nothing_indexed(name: &str) -> (r: String)
    ensures
        r@ == "nothing known about '"@ + name@ + "' (try `raft index` first)"@,
{
    cat3("nothing known about '", name, "' (try `raft index` first)")
}

// ---------------------------------------------------------------------------
// Status

/// The state of an index in a word or two.
pub open spec fn state_text(m: StatusModel) -> Seq<char> {
    if m.healthy {
        "healthy"@
    } else if !m.indexed {
        "missing"@
    } else {
        "needs attention"@
    }
}

/// The line on the schema version.
pub open spec fn schema_text(m: StatusModel) -> Seq<char> {
    match m.schema_version {
        Some(version) => "schema:       "@ + decimal_int(version as int) + " (expected "@
            + decimal_int(m.expected_schema_version as int) + ")"@,
        None => "schema:       -"@,
    }
}

/// The line on when the index was rebuilt.
pub open spec fn rebuilt_text(m: StatusModel) -> Seq<char> {
    "last rebuilt: "@ + match m.last_rebuilt {
        Some(t) => t,
        None => "never"@,
    }
}

/// The line on the size of the graph.
pub open spec fn graph_text(c: IndexCounts) -> Seq<char> {
    "graph:        "@ + decimal_int(c.notes as int) + " notes, "@ + decimal_int(c.projects as int)
        + " projects, "@ + decimal_int(c.entities as int) + " entities, "@ + decimal_int(
        c.loops as int,
    ) + " loops, "@ + decimal_int(c.edges as int) + " edges"@
}

/// The line on a source.
pub open spec fn source_text(s: SourceStatusModel) -> Seq<char> {
    "  "@ + pad_right(s.kind, 9) + " "@ + pad_right(
        if s.healthy {
            "ok"@
        } else {
            "error"@
        },
        5,
    ) + " "@ + s.path
}

/// `lines` with the lines on the first `n` sources behind them.
pub open spec fn with_sources(
    lines: Seq<Seq<char>>,
    sources: Seq<SourceStatusModel>,
    n: int,
) -> Seq<Seq<char>>
    decreases n,
{
    if n <= 0 {
        lines
    } else {
        let before = with_sources(lines, sources, n - 1).push(source_text(sources[n - 1]));
        match sources[n - 1].error {
            Some(error) => before.push("                  "@ + error),
            None => before,
        }
    }
}

/// The lines on the index itself.
pub open spec fn index_lines(m: StatusModel) -> Seq<Seq<char>> {
    let head = seq![
        "index:        "@ + state_text(m),
        "database:     "@ + m.database,
        schema_text(m),
        rebuilt_text(m),
    ];
    let counted = match m.counts {
        Some(c) => head.push(graph_text(c)),
        None => head,
    };
    match m.error {
        Some(error) => counted.push("error:        "@ + error),
        None => counted,
    }
}

/// The report on the state of the index and of its sources.
pub open spec fn status_report(m: StatusModel) -> Seq<Seq<char>> {
    with_sources(index_lines(m).push("sources:"@), m.sources, m.sources.len() as int)
}

fn graph_line(c: &IndexCounts) -> (r: String)
    ensures
        r@ == graph_text(*c),
{
    let mut out = "graph:        ".to_owned();
    out.append(&decimal_of_int(c.notes));
    out.append(" notes, ");
    out.append(&decimal_of_int(c.projects));
    out.append(" projects, ");
    out.append(&decimal_of_int(c.entities));
    out.append(" entities, ");
    out.append(&decimal_of_int(c.loops));
    out.append(" loops, ");
    out.append(&decimal_of_int(c.edges));
    out.append(" edges");
    out
}

fn prefixed(prefix: &str, text: &str) -> (r: String)
    ensures
        r@ == prefix@ + text@,
{
    let mut out = prefix.to_owned();
    out.append(text);
    out
}

/// Report the state of the index and of its sources.
pub fn print_status(status: &IndexStatus) -> (r: Vec<String>)
    ensures
        r.deep_view() == status_report(status.deep_view()),
{
    let ghost m = status.deep_view();
    let state = if status.healthy {
        "healthy"
    } else if !status.indexed {
        "missing"
    } else {
        "needs attention"
    };
    let mut out = no_lines();
    put(&mut out, prefixed("index:        ", state));
    put(&mut out, prefixed("database:     ", &status.database));
    match status.schema_version {
        Some(version) => put(
            &mut out,
            cat5(
                "schema:       ",
                &decimal_of_int(version),
                " (expected ",
                &decimal_of_int(status.expected_schema_version),
                ")",
            ),
        ),
        None => put_str(&mut out, "schema:       -"),
    }
    match &status.last_rebuilt {
        Some(t) => put(&mut out, prefixed("last rebuilt: ", t)),
        None => put(&mut out, prefixed("last rebuilt: ", "never")),
    }
    assert(out.deep_view() =~= seq![
        "index:        "@ + state_text(m),
        "database:     "@ + m.database,
        schema_text(m),
        rebuilt_text(m),
    ]);
    if let Some(counts) = &status.counts {
        put(&mut out, graph_line(counts));
    }
    if let Some(error) = &status.error {
        put(&mut out, prefixed("error:        ", error));
    }
    assert(out.deep_view() == index_lines(m));
    put_str(&mut out, "sources:");
    let ghost head = out.deep_view();
    let mut i: usize = 0;
    while i < status.sources.len()
        invariant
            m == status.deep_view(),
            head == index_lines(m).push("sources:"@),
            i <= m.sources.len(),
            out.deep_view() == with_sources(head, m.sources, i as int),
        decreases m.sources.len() - i,
    {
        let source = &status.sources[i];
        assert(m.sources[i as int] == source.deep_view());
        let state = if source.healthy {
            "ok"
        } else {
            "error"
        };
        let mut line = cat3("  ", &padded_right(&source.kind, 9), " ");
        line.append(&padded_right(state, 5));
        line.append(" ");
        line.append(&source.path);
        put(&mut out, line);
        if let Some(error) = &source.error {
            put(&mut out, prefixed("                  ", error));
        }
        i += 1;
    }
    out
}

// ---------------------------------------------------------------------------
// Rebuilds and sources

/// The report on a rebuild.
pub open spec fn rebuild_report(stats: IndexStats) -> Seq<Seq<char>> {
    if stats.git_cached > 0 || stats.git_refreshed > 0 {
        seq![counted_text(stats), git_text(stats)]
    } else {
        seq![counted_text(stats)]
    }
}

/// Report on a rebuild.
pub fn print_rebuild(stats: &IndexStats) -> (r: Vec<String>)
    ensures
        r.deep_view() == rebuild_report(*stats),
{
    let mut out = no_lines();
    put(&mut out, counted(stats));
    if stats.git_cached > 0 || stats.git_refreshed > 0 {
        put(&mut out, git_counted(stats));
    }
    assert(out.deep_view() =~= rebuild_report(*stats));
    out
}

/// The list of configured sources.
pub open spec fn sources_report(sources: Seq<Source>) -> Seq<Seq<char>> {
    Seq::new(
        sources.len(),
        |i: int| pad_right(sources[i].kind.lower_name(), 9) + " "@ + sources[i].path@,
    )
}

/// List the configured sources.
pub fn print_sources(sources: &Vec<Source>) -> (r: Vec<String>)
    ensures
        r.deep_view() == sources_report(sources@),
{
    let mut out = no_lines();
    let mut i: usize = 0;
    while i < sources.len()
        invariant
            i <= sources@.len(),
            out.deep_view() == sources_report(sources@).take(i as int),
        decreases sources@.len() - i,
    {
        let ghost before = out.deep_view();
        let line = cat3(&padded_right(sources[i].kind.name(), 9), " ", &sources[i].path);
        put(&mut out, line);
        assert(sources_report(sources@).take(i + 1) =~= before.push(line@));
        i += 1;
    }
    assert(sources_report(sources@).take(sources@.len() as int) =~= sources_report(sources@));
    out
}

// ---------------------------------------------------------------------------
// Search

/// `lines` with the lines on the first `n` hits behind them.
pub open spec fn with_hits(lines: Seq<Seq<char>>, hits: Seq<HitModel>, n: int) -> Seq<Seq<char>>
    decreases n,
{
    if n <= 0 {
        lines
    } else {
        let hit = hits[n - 1];
        let before = with_hits(lines, hits, n - 1).push(
            date_column(hit.note_date) + "  "@ + hit.path,
        );
        if hit.snippet.len() > 0 {
            before.push("    ..."@ + hit.snippet + "..."@)
        } else {
            before
        }
    }
}

/// The report on a search.
pub open spec fn search_report(term: Seq<char>, hits: Seq<HitModel>) -> Seq<Seq<char>> {
    if hits.len() == 0 {
        seq!["no matches for '"@ + term + "'"@]
    } else {
        with_hits(Seq::empty(), hits, hits.len() as int)
    }
}

/// Report on a search.
pub fn print_search(term: &str, hits: &Vec<SearchHit>) -> (r: Vec<String>)
    ensures
        r.deep_view() == search_report(term@, hits.deep_view()),
{
    let ghost all = hits.deep_view();
    let mut out = no_lines();
    if hits.len() == 0 {
        put(&mut out, cat3("no matches for '", term, "'"));
        assert(out.deep_view() =~= search_report(term@, all));
        return out;
    }
    let mut i: usize = 0;
    while i < hits.len()
        invariant
            all == hits.deep_view(),
            i <= all.len(),
            out.deep_view() == with_hits(Seq::empty(), all, i as int),
        decreases all.len() - i,
    {
        let hit = &hits[i];
        assert(all[i as int] == hit.deep_view());
        put(&mut out, cat3(&dated(&hit.note_date), "  ", &hit.path));
        if chars_of(&hit.snippet).len() > 0 {
            put(&mut out, cat3("    ...", &hit.snippet, "..."));
        }
        i += 1;
    }
    out
}

// ---------------------------------------------------------------------------
// About

/// What a report shows of a project's git metadata: its branch, and the date and subject of its
/// commits.
pub struct GitSummary {
    pub branch: Option<String>,
    pub commits: Vec<(String, String)>,
}

/// The value of a `GitSummary`.
#[verifier::ext_equal]
pub struct GitSummaryModel {
    pub branch: Option<Seq<char>>,
    pub commits: Seq<(Seq<char>, Seq<char>)>,
}

impl DeepView for GitSummary {
    type V = GitSummaryModel;

    open spec fn deep_view(&self) -> GitSummaryModel {
        GitSummaryModel { branch: self.branch.deep_view(), commits: self.commits.deep_view() }
    }
}

/// The date and the subject of a commit in git metadata.
pub open spec fn commit_of(commit: Seq<char>) -> (Seq<char>, Seq<char>) {
    (
        text_or_empty(text_field(commit, "date"@)),
        text_or_empty(text_field(commit, "subject"@)),
    )
}

/// The summary of git metadata.
pub open spec fn git_summary(git: Seq<char>) -> GitSummaryModel {
    GitSummaryModel {
        branch: text_field(git, "branch"@),
        commits: match list_field(git, "commits"@) {
            Some(items) => Seq::new(items.len(), |i: int| commit_of(items[i])),
            None => Seq::empty(),
        },
    }
}

/// Summarize git metadata.
pub fn summarize_git(git: &str) -> (r: GitSummary)
    ensures
        r.deep_view() == git_summary(git@),
{
    let branch = json_text_field(git, "branch");
    let mut commits: Vec<(String, String)> = Vec::new();
    assert(commits.deep_view() =~= Seq::<(Seq<char>, Seq<char>)>::empty());
    if let Some(items) = json_list_field(git, "commits") {
        let ghost all = items.deep_view();
        let ghost want = Seq::new(all.len(), |i: int| commit_of(all[i]));
        let mut i: usize = 0;
        while i < items.len()
            invariant
                all == items.deep_view(),
                want == Seq::new(all.len(), |i: int| commit_of(all[i])),
                i <= all.len(),
                commits.deep_view() == want.take(i as int),
            decreases all.len() - i,
        {
            let ghost before = commits.deep_view();
            assert(all[i as int] == items@[i as int]@);
            let date = or_empty(json_text_field(&items[i], "date"));
            let subject = or_empty(json_text_field(&items[i], "subject"));
            let ghost entry = (date@, subject@);
            commits.push((date, subject));
            assert(commits.deep_view() =~= before.push(entry));
            assert(want.take(i + 1) =~= before.push(entry));
            i += 1;
        }
        assert(want.take(all.len() as int) =~= want);
    }
    GitSummary { branch, commits }
}

/// The repo and the file in which a symbol is defined.
pub open spec fn place_defined(definition: Seq<char>) -> (Seq<char>, Seq<char>) {
    (
        text_or_empty(text_field(definition, "repo"@)),
        text_or_empty(text_field(definition, "file"@)),
    )
}

/// Read the repo and the file in which a symbol is defined.
pub fn read_definition(definition: &str) -> (r: (String, String))
    ensures
        (r.0@, r.1@) == place_defined(definition@),
{
    (
        or_empty(json_text_field(definition, "repo")),
        or_empty(json_text_field(definition, "file")),
    )
}

/// `lines` with the lines on the first `n` commits behind them.
pub open spec fn with_commits(
    lines: Seq<Seq<char>>,
    commits: Seq<(Seq<char>, Seq<char>)>,
    n: int,
) -> Seq<Seq<char>>
    decreases n,
{
    if n <= 0 {
        lines
    } else {
        with_commits(lines, commits, n - 1).push(
            "  "@ + commits[n - 1].0 + "  "@ + commits[n - 1].1,
        )
    }
}

/// `lines` with the lines on git metadata behind them: the branch and at most five commits.
pub open spec fn with_git(lines: Seq<Seq<char>>, git: GitSummaryModel) -> Seq<Seq<char>> {
    let before = match git.branch {
        Some(branch) => lines.push(""@).push("  branch: "@ + branch),
        None => lines,
    };
    with_commits(
        before,
        git.commits,
        if git.commits.len() < 5 {
            git.commits.len() as int
        } else {
            5
        },
    )
}

/// `lines` with the lines on the first `n` notes behind them.
pub open spec fn with_note_refs(
    lines: Seq<Seq<char>>,
    notes: Seq<NoteRefModel>,
    n: int,
) -> Seq<Seq<char>>
    decreases n,
{
    if n <= 0 {
        lines
    } else {
        with_note_refs(lines, notes, n - 1).push(
            "  "@ + date_column(notes[n - 1].note_date) + "  "@ + notes[n - 1].path,
        )
    }
}

/// `lines` with the lines on the first `n` co-mentions behind them.
pub open spec fn with_co_mentions(
    lines: Seq<Seq<char>>,
    list: Seq<CoMentionModel>,
    n: int,
) -> Seq<Seq<char>>
    decreases n,
{
    if n <= 0 {
        lines
    } else {
        with_co_mentions(lines, list, n - 1).push(
            "  "@ + pad_left(decimal_int(list[n - 1].shared_notes), 3) + "x  "@ + list[n - 1].name
                + " ("@ + list[n - 1].kind + ")"@,
        )
    }
}

/// The report on a project or entity, given the place of its definition and its git metadata. It
/// shows at most fifteen notes.
pub open spec fn about_report(
    m: AboutModel,
    place: Option<(Seq<char>, Seq<char>)>,
    git: Option<GitSummaryModel>,
) -> Seq<Seq<char>> {
    let head = seq![m.name + " ("@ + m.kind + ")"@];
    let defined = match place {
        Some(p) => head.push(""@).push("  defined in: "@ + p.0 + "/"@ + p.1),
        None => head,
    };
    let versioned = match git {
        Some(g) => with_git(defined, g),
        None => defined,
    };
    let noted = if m.notes.len() > 0 {
        with_note_refs(
            versioned.push(""@).push("notes ("@ + decimal(m.notes.len()) + "):"@),
            m.notes,
            if m.notes.len() < 15 {
                m.notes.len() as int
            } else {
                15
            },
        )
    } else {
        versioned
    };
    if m.co_mentioned.len() > 0 {
        with_co_mentions(
            noted.push(""@).push("co-mentioned:"@),
            m.co_mentioned,
            m.co_mentioned.len() as int,
        )
    } else {
        noted
    }
}

fn put_git(out: &mut Vec<String>, git: &GitSummary)
    ensures
        final(out).deep_view() == with_git(old(out).deep_view(), git.deep_view()),
{
    let ghost start = out.deep_view();
    if let Some(branch) = &git.branch {
        put_str(out, "");
        put(out, prefixed("  branch: ", branch));
    }
    let ghost before = out.deep_view();
    let ghost all = git.commits.deep_view();
    let mut i: usize = 0;
    while i < git.commits.len() && i < 5
        invariant
            all == git.commits.deep_view(),
            i <= all.len(),
            i <= 5,
            out.deep_view() == with_commits(before, all, i as int),
        decreases all.len() - i,
    {
        assert(all[i as int] == git.commits@[i as int].deep_view());
        let mut line = cat3("  ", &git.commits[i].0, "  ");
        line.append(&git.commits[i].1);
        put(out, line);
        i += 1;
    }
}

/// Report on a project or entity, given the place of its definition and its git metadata.
pub fn about_lines(
    about: &About,
    place: &Option<(String, String)>,
    git: &Option<GitSummary>,
) -> (r: Vec<String>)
    ensures
        r.deep_view() == about_report(about.deep_view(), place.deep_view(), git.deep_view()),
{
    let ghost m = about.deep_view();
    let mut out = no_lines();
    let mut title = cat3(&about.name, " (", &about.kind);
    title.append(")");
    put(&mut out, title);
    assert(out.deep_view() =~= seq![m.name + " ("@ + m.kind + ")"@]);
    if let Some(p) = place {
        put_str(&mut out, "");
        let mut line = cat3("  defined in: ", &p.0, "/");
        line.append(&p.1);
        put(&mut out, line);
    }
    if let Some(g) = git {
        put_git(&mut out, g);
    }
    if about.notes.len() > 0 {
        put_str(&mut out, "");
        put(&mut out, cat3("notes (", &decimal_of(about.notes.len() as u128), "):"));
        let ghost head = out.deep_view();
        let mut i: usize = 0;
        while i < about.notes.len() && i < 15
            invariant
                m == about.deep_view(),
                i <= m.notes.len(),
                i <= 15,
                out.deep_view() == with_note_refs(head, m.notes, i as int),
            decreases m.notes.len() - i,
        {
            let note = &about.notes[i];
            assert(m.notes[i as int] == note.deep_view());
            let mut line = cat3("  ", &dated(&note.note_date), "  ");
            line.append(&note.path);
            put(&mut out, line);
            i += 1;
        }
    }
    if about.co_mentioned.len() > 0 {
        put_str(&mut out, "");
        put_str(&mut out, "co-mentioned:");
        let ghost head = out.deep_view();
        let mut i: usize = 0;
        while i < about.co_mentioned.len()
            invariant
                m == about.deep_view(),
                i <= m.co_mentioned.len(),
                out.deep_view() == with_co_mentions(head, m.co_mentioned, i as int),
            decreases m.co_mentioned.len() - i,
        {
            let co = &about.co_mentioned[i];
            assert(m.co_mentioned[i as int] == co.deep_view());
            let mut line = cat5(
                "  ",
                &padded_left(&decimal_of_int(co.shared_notes), 3),
                "x  ",
                &co.name,
                " (",
            );
            line.append(&co.kind);
            line.append(")");
            put(&mut out, line);
            i += 1;
        }
    }
    out
}

/// Report on a project or entity.
pub fn print_about(about: &About) -> (r: Vec<String>)
    ensures
        r.deep_view() == about_report(
            about.deep_view(),
            match about.definition.deep_view() {
                Some(d) => Some(place_defined(d)),
                None => None,
            },
            match about.git.deep_view() {
                Some(g) => Some(git_summary(g)),
                None => None,
            },
        ),
{
    let place = match &about.definition {
        Some(d) => Some(read_definition(d)),
        None => None,
    };
    let git = match &about.git {
        Some(g) => Some(summarize_git(g)),
        None => None,
    };
    about_lines(about, &place, &git)
}

// ---------------------------------------------------------------------------
// Why

/// Where an edge starts, for a reader: notes are known by their paths, and only the file name is
/// shown; anything else already has a readable name.
pub open spec fn source_label(name: Seq<char>, kind: Seq<char>) -> Seq<char> {
    if kind == "note"@ {
        match file_name(name) {
            Some(f) => f,
            None => name,
        }
    } else {
        name
    }
}

/// Where an edge starts, for a reader.
pub fn shorten_source(name: &str, kind: &str) -> (r: String)
    ensures
        r@ == source_label(name@, kind@),
{
    if same_text(kind, "note") {
        match file_name_of(name) {
            Some(f) => f,
            None => name.to_owned(),
        }
    } else {
        name.to_owned()
    }
}

/// `lines` with the lines on the first `n` facts behind them. `weights` holds the weights as they
/// are written.
pub open spec fn with_facts(
    lines: Seq<Seq<char>>,
    facts: Seq<FactModel>,
    weights: Seq<Seq<char>>,
    n: int,
) -> Seq<Seq<char>>
    decreases n,
{
    if n <= 0 {
        lines
    } else {
        let f = facts[n - 1];
        let before = with_facts(lines, facts, weights, n - 1).push(
            "  "@ + weights[n - 1] + "  "@ + pad_right(f.provenance, 8) + " "@ + pad_right(
                f.relation,
                9,
            ) + " "@ + source_label(f.from, f.from_kind),
        );
        match f.rationale {
            Some(r) => before.push("           "@ + r),
            None => before,
        }
    }
}

/// The report on why something is in the graph. `least` is the least weight asked for, as it is
/// written.
pub open spec fn why_report(
    name: Seq<char>,
    facts: Seq<FactModel>,
    weights: Seq<Seq<char>>,
    least: Seq<char>,
) -> Seq<Seq<char>> {
    if facts.len() == 0 {
        seq!["no edges point at '"@ + name + "' above weight "@ + least]
    } else {
        with_facts(
            seq![name + " ("@ + decimal(facts.len()) + " edges)"@],
            facts,
            weights,
            facts.len() as int,
        )
    }
}

/// Report why something is in the graph.
pub fn print_why(name: &str, facts: &Vec<Fact>, weights: &Vec<String>, least: &str) -> (r: Vec<
    String,
>)
    requires
        weights@.len() == facts@.len(),
    ensures
        r.deep_view() == why_report(name@, facts.deep_view(), weights.deep_view(), least@),
{
    let ghost all = facts.deep_view();
    let ghost written = weights.deep_view();
    let mut out = no_lines();
    if facts.len() == 0 {
        let mut line = cat3("no edges point at '", name, "' above weight ");
        line.append(least);
        put(&mut out, line);
        assert(out.deep_view() =~= why_report(name@, all, written, least@));
        return out;
    }
    let mut title = cat3(name, " (", &decimal_of(facts.len() as u128));
    title.append(" edges)");
    put(&mut out, title);
    let ghost head = out.deep_view();
    assert(head =~= seq![name@ + " ("@ + decimal(all.len()) + " edges)"@]);
    let mut i: usize = 0;
    while i < facts.len()
        invariant
            all == facts.deep_view(),
            written == weights.deep_view(),
            written.len() == all.len(),
            i <= all.len(),
            out.deep_view() == with_facts(head, all, written, i as int),
        decreases all.len() - i,
    {
        let f = &facts[i];
        assert(all[i as int] == f.deep_view());
        assert(written[i as int] == weights@[i as int]@);
        let mut line = cat5("  ", &weights[i], "  ", &padded_right(&f.provenance, 8), " ");
        line.append(&padded_right(&f.relation, 9));
        line.append(" ");
        line.append(&shorten_source(&f.from, &f.from_kind));
        put(&mut out, line);
        if let Some(r) = &f.rationale {
            put(&mut out, prefixed("           ", r));
        }
        i += 1;
    }
    out
}

// ---------------------------------------------------------------------------
// Open loops

/// How old a loop is.
pub open spec fn age_text(age: Option<i64>) -> Seq<char> {
    match age {
        Some(d) => decimal_int(d as int) + "d"@,
        None => "?"@,
    }
}

/// The text of a loop, shortened where it is long.
pub open spec fn short_loop(text: Seq<char>) -> Seq<char> {
    if text.len() > 110 {
        text.take(107) + "..."@
    } else {
        text
    }
}

/// How often a loop was seen, where that was more than once.
pub open spec fn seen_text(sightings: int) -> Seq<char> {
    if sightings > 1 {
        "  (seen "@ + decimal_int(sightings) + "x)"@
    } else {
        ""@
    }
}

/// `lines` with the lines on the first `n` loops behind them.
pub open spec fn with_loops(
    lines: Seq<Seq<char>>,
    loops: Seq<DanglingModel>,
    n: int,
) -> Seq<Seq<char>>
    decreases n,
{
    if n <= 0 {
        lines
    } else {
        let l = loops[n - 1];
        with_loops(lines, loops, n - 1).push(
            pad_left(age_text(l.age_days), 5) + "  "@ + short_loop(l.text),
        ).push(
            "       "@ + text_or_empty(l.first_seen) + "  "@ + l.note_path + seen_text(l.sightings),
        )
    }
}

/// The report on open loops.
pub open spec fn dangling_report(loops: Seq<DanglingModel>) -> Seq<Seq<char>> {
    if loops.len() == 0 {
        seq!["no open loops found"@]
    } else {
        with_loops(Seq::empty(), loops, loops.len() as int).push(""@).push(
            decimal(loops.len()) + " open loops"@,
        )
    }
}

fn shortened(text: &str) -> (r: String)
    ensures
        r@ == short_loop(text@),
{
    let chars = chars_of(text);
    if chars.len() > 110 {
        let part = part_of(&chars, 0, 107);
        assert(part@ =~= text@.take(107));
        let mut out = text_of(&part);
        out.append("...");
        out
    } else {
        text.to_owned()
    }
}

/// Report on open loops.
pub fn print_dangling(loops: &Vec<Dangling>) -> (r: Vec<String>)
    ensures
        r.deep_view() == dangling_report(loops.deep_view()),
{
    let ghost all = loops.deep_view();
    let mut out = no_lines();
    if loops.len() == 0 {
        put_str(&mut out, "no open loops found");
        assert(out.deep_view() =~= dangling_report(all));
        return out;
    }
    let mut i: usize = 0;
    while i < loops.len()
        invariant
            all == loops.deep_view(),
            i <= all.len(),
            out.deep_view() == with_loops(Seq::empty(), all, i as int),
        decreases all.len() - i,
    {
        let l = &loops[i];
        assert(all[i as int] == l.deep_view());
        let age = match l.age_days {
            Some(d) => prefixed(&decimal_of_int(d), "d"),
            None => "?".to_owned(),
        };
        put(&mut out, cat3(&padded_left(&age, 5), "  ", &shortened(&l.text)));
        let seen = if l.sightings > 1 {
            cat3("  (seen ", &decimal_of_int(l.sightings), "x)")
        } else {
            "".to_owned()
        };
        let first = match &l.first_seen {
            Some(t) => t.clone(),
            None => "".to_owned(),
        };
        put(&mut out, cat5("       ", &first, "  ", &l.note_path, &seen));
        i += 1;
    }
    put_str(&mut out, "");
    put(&mut out, prefixed(&decimal_of(loops.len() as u128), " open loops"));
    out
}

/// `lines` with the first `n` matching loops behind them.
pub open spec fn with_matches(
    lines: Seq<Seq<char>>,
    matching: Seq<OpenLoopModel>,
    n: int,
) -> Seq<Seq<char>>
    decreases n,
{
    if n <= 0 {
        lines
    } else {
        with_matches(lines, matching, n - 1).push("  - "@ + head_of(matching[n - 1].text, 90))
    }
}

/// The report where a pattern does not single out a loop. It shows at most ten of those that
/// match.
pub open spec fn unclear_report(pattern: Seq<char>, matching: Seq<OpenLoopModel>) -> Seq<
    Seq<char>,
> {
    if matching.len() == 0 {
        seq!["no open loop matches '"@ + pattern + "'"@]
    } else {
        with_matches(
            seq![
                "'"@ + pattern + "' matches "@ + decimal(matching.len())
                    + " loops; be more specific:"@,
            ],
            matching,
            if matching.len() < 10 {
                matching.len() as int
            } else {
                10
            },
        )
    }
}

/// The loop that a pattern singles out, or a report where it singles out none.
pub fn single_match(pattern: &str, matching: &Vec<OpenLoop>) -> (r: Result<usize, Vec<String>>)
    ensures
        match r {
            Ok(i) => matching@.len() == 1 && i == 0,
            Err(lines) => matching@.len() != 1 && lines.deep_view() == unclear_report(
                pattern@,
                matching.deep_view(),
            ),
        },
{
    let ghost all = matching.deep_view();
    if matching.len() == 1 {
        return Ok(0);
    }
    let mut out = no_lines();
    if matching.len() == 0 {
        put(&mut out, cat3("no open loop matches '", pattern, "'"));
        assert(out.deep_view() =~= unclear_report(pattern@, all));
        return Err(out);
    }
    put(
        &mut out,
        cat5(
            "'",
            pattern,
            "' matches ",
            &decimal_of(matching.len() as u128),
            " loops; be more specific:",
        ),
    );
    let ghost first = out.deep_view();
    assert(first =~= seq![
        "'"@ + pattern@ + "' matches "@ + decimal(all.len()) + " loops; be more specific:"@,
    ]);
    let mut i: usize = 0;
    while i < matching.len() && i < 10
        invariant
            all == matching.deep_view(),
            i <= all.len(),
            i <= 10,
            out.deep_view() == with_matches(first, all, i as int),
        decreases all.len() - i,
    {
        assert(all[i as int] == matching@[i as int].deep_view());
        put(&mut out, prefixed("  - ", &head(&matching[i].text, 90)));
        i += 1;
    }
    Err(out)
}

/// The report on a loop that was marked done in the notes at `changed`.
pub open spec fn done_report(text: Seq<char>, changed: Seq<Seq<char>>) -> Seq<Seq<char>> {
    if changed.len() == 0 {
        seq!["loop found in the index but not in the notes; run `raft index`"@]
    } else {
        seq!["done: "@ + text] + Seq::new(changed.len(), |i: int| "  updated "@ + changed[i])
    }
}

/// Report on a loop that was marked done in the notes at `changed`.
pub fn print_done(text: &str, changed: &Vec<String>) -> (r: Vec<String>)
    ensures
        r.deep_view() == done_report(text@, changed.deep_view()),
{
    let ghost all = changed.deep_view();
    let ghost want = done_report(text@, all);
    let mut out = no_lines();
    if changed.len() == 0 {
        put_str(&mut out, "loop found in the index but not in the notes; run `raft index`");
        assert(out.deep_view() =~= want);
        return out;
    }
    put(&mut out, prefixed("done: ", text));
    assert(out.deep_view() =~= want.take(1));
    let mut i: usize = 0;
    while i < changed.len()
        invariant
            all == changed.deep_view(),
            all.len() > 0,
            want == done_report(text@, all),
            i <= all.len(),
            out.deep_view() == want.take(i + 1),
        decreases all.len() - i,
    {
        let ghost before = out.deep_view();
        assert(all[i as int] == changed@[i as int]@);
        let line = prefixed("  updated ", &changed[i]);
        put(&mut out, line);
        assert(want.take(i + 2) =~= before.push(line@));
        i += 1;
    }
    assert(want.take(all.len() as int + 1) =~= want);
    out
}

// ---------------------------------------------------------------------------
// Connections

/// `lines` with the first `n` pairs behind them. `scores` holds their affinities as they are
/// written.
pub open spec fn with_pairs(
    lines: Seq<Seq<char>>,
    pairs: Seq<PairModel>,
    scores: Seq<Seq<char>>,
    n: int,
) -> Seq<Seq<char>>
    decreases n,
{
    if n <= 0 {
        lines
    } else {
        let p = pairs[n - 1];
        with_pairs(lines, pairs, scores, n - 1).push(
            "  "@ + scores[n - 1] + "  "@ + p.a + " ("@ + p.a_kind + ") <-> "@ + p.b + " ("@
                + p.b_kind + ")  ["@ + decimal_int(p.shared_notes) + " notes over "@ + decimal_int(
                p.span_days,
            ) + " days]"@,
        )
    }
}

/// `lines` with the first `n` pairs of projects behind them.
pub open spec fn with_temporal(
    lines: Seq<Seq<char>>,
    pairs: Seq<TemporalModel>,
    n: int,
) -> Seq<Seq<char>>
    decreases n,
{
    if n <= 0 {
        lines
    } else {
        let p = pairs[n - 1];
        with_temporal(lines, pairs, n - 1).push(
            "  "@ + pad_left(decimal_int(p.shared_days), 2) + " days  "@ + p.a + " <-> "@ + p.b,
        )
    }
}

/// The report on connections.
pub open spec fn connect_report(m: ConnectionsModel, scores: Seq<Seq<char>>) -> Seq<Seq<char>> {
    if m.co_mentions.len() == 0 && m.temporal.len() == 0 {
        seq!["no connections above the threshold (try --min 2)"@]
    } else {
        let paired = if m.co_mentions.len() > 0 {
            with_pairs(
                seq!["keep showing up together:"@],
                m.co_mentions,
                scores,
                m.co_mentions.len() as int,
            )
        } else {
            Seq::empty()
        };
        if m.temporal.len() > 0 {
            with_temporal(
                paired.push(""@).push("commits travel together:"@),
                m.temporal,
                m.temporal.len() as int,
            )
        } else {
            paired
        }
    }
}

/// Report on connections.
pub fn print_connections(connections: &Connections, scores: &Vec<String>) -> (r: Vec<String>)
    requires
        scores@.len() == connections.co_mentions@.len(),
    ensures
        r.deep_view() == connect_report(connections.deep_view(), scores.deep_view()),
{
    let ghost m = connections.deep_view();
    let ghost written = scores.deep_view();
    let mut out = no_lines();
    if connections.co_mentions.len() == 0 && connections.temporal.len() == 0 {
        put_str(&mut out, "no connections above the threshold (try --min 2)");
        assert(out.deep_view() =~= connect_report(m, written));
        return out;
    }
    if connections.co_mentions.len() > 0 {
        put_str(&mut out, "keep showing up together:");
        let ghost head = out.deep_view();
        assert(head =~= seq!["keep showing up together:"@]);
        let mut i: usize = 0;
        while i < connections.co_mentions.len()
            invariant
                m == connections.deep_view(),
                written == scores.deep_view(),
                written.len() == m.co_mentions.len(),
                i <= m.co_mentions.len(),
                out.deep_view() == with_pairs(head, m.co_mentions, written, i as int),
            decreases m.co_mentions.len() - i,
        {
            let p = &connections.co_mentions[i];
            assert(m.co_mentions[i as int] == p.deep_view());
            assert(written[i as int] == scores@[i as int]@);
            let mut line = cat5("  ", &scores[i], "  ", &p.a, " (");
            line.append(&p.a_kind);
            line.append(") <-> ");
            line.append(&p.b);
            line.append(" (");
            line.append(&p.b_kind);
            line.append(")  [");
            line.append(&decimal_of_int(p.shared_notes));
            line.append(" notes over ");
            line.append(&decimal_of_int(p.span_days));
            line.append(" days]");
            put(&mut out, line);
            i += 1;
        }
    }
    if connections.temporal.len() > 0 {
        put_str(&mut out, "");
        put_str(&mut out, "commits travel together:");
        let ghost head = out.deep_view();
        let mut i: usize = 0;
        while i < connections.temporal.len()
            invariant
                m == connections.deep_view(),
                i <= m.temporal.len(),
                out.deep_view() == with_temporal(head, m.temporal, i as int),
            decreases m.temporal.len() - i,
        {
            let p = &connections.temporal[i];
            assert(m.temporal[i as int] == p.deep_view());
            let mut line = cat5(
                "  ",
                &padded_left(&decimal_of(p.shared_days as u128), 2),
                " days  ",
                &p.a,
                " <-> ",
            );
            line.append(&p.b);
            put(&mut out, line);
            i += 1;
        }
    }
    out
}

// ---------------------------------------------------------------------------
// Publishing

/// The line on how much would be published.
pub open spec fn plan_text(m: PlanModel) -> Seq<char> {
    "would publish: "@ + decimal(m.notes.len()) + " notes, "@ + decimal(m.projects.len())
        + " projects, "@ + decimal(m.entities.len()) + " entities, "@ + decimal(m.loops.len())
        + " loops, "@ + decimal(m.edges.len()) + " edges"@
}

/// The lines on the first `n` notes.
pub open spec fn with_plan_notes(
    lines: Seq<Seq<char>>,
    notes: Seq<PlanNoteModel>,
    n: int,
) -> Seq<Seq<char>>
    decreases n,
{
    if n <= 0 {
        lines
    } else {
        with_plan_notes(lines, notes, n - 1).push(
            "  "@ + date_column(notes[n - 1].note_date) + "  "@ + notes[n - 1].path,
        )
    }
}

/// `lines` with the first `n` projects behind them.
pub open spec fn with_plan_projects(
    lines: Seq<Seq<char>>,
    projects: Seq<PlanProjectModel>,
    n: int,
) -> Seq<Seq<char>>
    decreases n,
{
    if n <= 0 {
        lines
    } else {
        with_plan_projects(lines, projects, n - 1).push("  "@ + projects[n - 1].name)
    }
}

/// `lines` with the first `n` entities behind them.
pub open spec fn with_plan_entities(
    lines: Seq<Seq<char>>,
    entities: Seq<PlanEntityModel>,
    n: int,
) -> Seq<Seq<char>>
    decreases n,
{
    if n <= 0 {
        lines
    } else {
        with_plan_entities(lines, entities, n - 1).push("  "@ + entities[n - 1].name)
    }
}

/// `lines` with the first `n` loops behind them.
pub open spec fn with_plan_loops(
    lines: Seq<Seq<char>>,
    loops: Seq<PlanLoopModel>,
    n: int,
) -> Seq<Seq<char>>
    decreases n,
{
    if n <= 0 {
        lines
    } else {
        with_plan_loops(lines, loops, n - 1).push(
            "  "@ + loops[n - 1].text + "  ("@ + loops[n - 1].note_path + ")"@,
        )
    }
}

/// `lines` with the first `n` flags behind them.
pub open spec fn with_plan_flags(
    lines: Seq<Seq<char>>,
    flags: Seq<PlanFlagModel>,
    n: int,
) -> Seq<Seq<char>>
    decreases n,
{
    if n <= 0 {
        lines
    } else {
        with_plan_flags(lines, flags, n - 1).push("  "@ + flags[n - 1].reason).push(
            "    in "@ + flags[n - 1].note_path,
        )
    }
}

/// The part of the audit on notes and projects, behind `lines`.
pub open spec fn audit_sources(lines: Seq<Seq<char>>, m: PlanModel) -> Seq<Seq<char>> {
    let noted = if m.notes.len() > 0 {
        with_plan_notes(lines.push(""@).push("notes:"@), m.notes, m.notes.len() as int)
    } else {
        lines
    };
    if m.projects.len() > 0 {
        with_plan_projects(
            noted.push(""@).push("projects:"@),
            m.projects,
            m.projects.len() as int,
        )
    } else {
        noted
    }
}

/// The part of the audit on entities, loops and flags, behind `lines`.
pub open spec fn audit_contents(lines: Seq<Seq<char>>, m: PlanModel) -> Seq<Seq<char>> {
    let named = if m.entities.len() > 0 {
        with_plan_entities(
            lines.push(""@).push("entities:"@),
            m.entities,
            m.entities.len() as int,
        )
    } else {
        lines
    };
    let looped = if m.loops.len() > 0 {
        with_plan_loops(named.push(""@).push("open loops:"@), m.loops, m.loops.len() as int)
    } else {
        named
    };
    if m.flags.len() > 0 {
        with_plan_flags(
            looped.push(""@).push("FLAGS - need a decision before emit:"@),
            m.flags,
            m.flags.len() as int,
        )
    } else {
        looped
    }
}

/// The audit of what would be published.
pub open spec fn audit_report(m: PlanModel) -> Seq<Seq<char>> {
    audit_contents(audit_sources(seq![plan_text(m)], m), m)
}

fn plan_line(plan: &PublishPlan) -> (r: String)
    ensures
        r@ == plan_text(plan.deep_view()),
{
    let mut out = "would publish: ".to_owned();
    out.append(&decimal_of(plan.notes.len() as u128));
    out.append(" notes, ");
    out.append(&decimal_of(plan.projects.len() as u128));
    out.append(" projects, ");
    out.append(&decimal_of(plan.entities.len() as u128));
    out.append(" entities, ");
    out.append(&decimal_of(plan.loops.len() as u128));
    out.append(" loops, ");
    out.append(&decimal_of(plan.edges.len() as u128));
    out.append(" edges");
    out
}

fn put_audit_sources(out: &mut Vec<String>, plan: &PublishPlan)
    ensures
        final(out).deep_view() == audit_sources(old(out).deep_view(), plan.deep_view()),
{
    let ghost m = plan.deep_view();
    if plan.notes.len() > 0 {
        put_str(out, "");
        put_str(out, "notes:");
        let ghost head = out.deep_view();
        let mut i: usize = 0;
        while i < plan.notes.len()
            invariant
                m == plan.deep_view(),
                i <= m.notes.len(),
                out.deep_view() == with_plan_notes(head, m.notes, i as int),
            decreases m.notes.len() - i,
        {
            let note = &plan.notes[i];
            assert(m.notes[i as int] == note.deep_view());
            let mut line = cat3("  ", &dated(&note.note_date), "  ");
            line.append(&note.path);
            put(out, line);
            i += 1;
        }
    }
    if plan.projects.len() > 0 {
        put_str(out, "");
        put_str(out, "projects:");
        let ghost head = out.deep_view();
        let mut i: usize = 0;
        while i < plan.projects.len()
            invariant
                m == plan.deep_view(),
                i <= m.projects.len(),
                out.deep_view() == with_plan_projects(head, m.projects, i as int),
            decreases m.projects.len() - i,
        {
            assert(m.projects[i as int] == plan.projects@[i as int].deep_view());
            put(out, prefixed("  ", &plan.projects[i].name));
            i += 1;
        }
    }
}

fn put_audit_contents(out: &mut Vec<String>, plan: &PublishPlan)
    ensures
        final(out).deep_view() == audit_contents(old(out).deep_view(), plan.deep_view()),
{
    let ghost m = plan.deep_view();
    if plan.entities.len() > 0 {
        put_str(out, "");
        put_str(out, "entities:");
        let ghost head = out.deep_view();
        let mut i: usize = 0;
        while i < plan.entities.len()
            invariant
                m == plan.deep_view(),
                i <= m.entities.len(),
                out.deep_view() == with_plan_entities(head, m.entities, i as int),
            decreases m.entities.len() - i,
        {
            assert(m.entities[i as int] == plan.entities@[i as int].deep_view());
            put(out, prefixed("  ", &plan.entities[i].name));
            i += 1;
        }
    }
    if plan.loops.len() > 0 {
        put_str(out, "");
        put_str(out, "open loops:");
        let ghost head = out.deep_view();
        let mut i: usize = 0;
        while i < plan.loops.len()
            invariant
                m == plan.deep_view(),
                i <= m.loops.len(),
                out.deep_view() == with_plan_loops(head, m.loops, i as int),
            decreases m.loops.len() - i,
        {
            let l = &plan.loops[i];
            assert(m.loops[i as int] == l.deep_view());
            put(out, cat5("  ", &l.text, "  (", &l.note_path, ")"));
            i += 1;
        }
    }
    if plan.flags.len() > 0 {
        put_str(out, "");
        put_str(out, "FLAGS - need a decision before emit:");
        let ghost head = out.deep_view();
        let mut i: usize = 0;
        while i < plan.flags.len()
            invariant
                m == plan.deep_view(),
                i <= m.flags.len(),
                out.deep_view() == with_plan_flags(head, m.flags, i as int),
            decreases m.flags.len() - i,
        {
            let f = &plan.flags[i];
            assert(m.flags[i as int] == f.deep_view());
            put(out, prefixed("  ", &f.reason));
            put(out, prefixed("    in ", &f.note_path));
            i += 1;
        }
    }
}

/// Report everything that would be published.
pub fn print_audit(plan: &PublishPlan) -> (r: Vec<String>)
    ensures
        r.deep_view() == audit_report(plan.deep_view()),
{
    let mut out = no_lines();
    put(&mut out, plan_line(plan));
    assert(out.deep_view() =~= seq![plan_text(plan.deep_view())]);
    put_audit_sources(&mut out, plan);
    put_audit_contents(&mut out, plan);
    out
}

} // verus!
