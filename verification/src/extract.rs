//! What a note says: wiki links, backticked spans, project mentions, and open loops.

use vstd::prelude::*;

use crate::patterns::{
    all_captures_of, bare_group, captures_in_text, captures_per_line, checkbox_mark, checkbox_text,
    def_pattern, header_text, is_bullet, is_checkbox, is_header, lemma_bare_groups,
    lemma_captures_from, Groups, CHECKBOX, CODE_SPAN, HEADER, JS_DEF, PYTHON_DEF, RUBY_DEF,
    WIKI_LINK,
};
use crate::text::{
    ascii_lowercase, ascii_uppercase, byte_len, bytes_in, chars_of, find_from, find_text, has_prefix,
    lead_len, lemma_find_from, lemma_lead_len, lemma_lead_len_unique, lemma_lines_have_no_newline,
    lemma_one_line, lemma_place_of, lemma_segments_concat, lemma_tail_len, lemma_tail_len_unique,
    lemma_trimmed_end_ending, lines, lines_of, lowercase, place_of, same_text, segments,
    segments_of, starts_with, tail_len, text_of, trim, trim_end_of, trim_of, trim_start_of,
    trim_text, trimmed, trimmed_end, trimmed_start, without_ending, CharClass,
};

verus! {

/// The canonical form of a name: lower case, without the punctuation and white space round it.
pub open spec fn canonical(name: Seq<char>) -> Seq<char> {
    lowercase(trimmed(name, CharClass::Edge))
}

/// Canonical form for entity identity: lowercase, edge punctuation trimmed. `Jolteon`, `jolteon`
/// and `jolteon,` are one entity.
pub fn canonicalize(name: &str) -> (r: String)
    ensures
        r@ == canonical(name@),
        vstd::utf8::is_ascii_chars(trimmed(name@, CharClass::Edge)) ==> r@ == ascii_canonical(
            name@,
        ) && canonical(r@) == r@,
{
    let bare = text_of(&trim_of(&chars_of(name), CharClass::Edge));
    let r = bare.to_lowercase();
    proof {
        if vstd::utf8::is_ascii_chars(bare@) {
            lemma_trimmed_has_no_edges(name@);
            lemma_lower_has_no_edges(bare@);
            lemma_no_edges_to_trim(r@);
        }
    }
    r
}

/// A set of names.
pub struct NameSet {
    names: Vec<String>,
}

impl View for NameSet {
    type V = Seq<Seq<char>>;

    /// The names in the order in which they came, each once.
    closed spec fn view(&self) -> Seq<Seq<char>> {
        self.names.deep_view()
    }
}

impl NameSet {
    #[verifier::type_invariant]
    spec fn distinct(&self) -> bool {
        self.names.deep_view().no_duplicates()
    }

    /// The empty set.
    pub fn new() -> (r: NameSet)
        ensures
            r@ == Seq::<Seq<char>>::empty(),
    {
        let names: Vec<String> = Vec::new();
        assert(names.deep_view() =~= Seq::<Seq<char>>::empty());
        NameSet { names }
    }

    /// Whether the set holds `name`.
    pub fn contains(&self, name: &str) -> (r: bool)
        ensures
            r == self@.contains(name@),
    {
        let mut i: usize = 0;
        while i < self.names.len()
            invariant
                i <= self.names@.len(),
                forall|j: int| 0 <= j < i ==> #[trigger] self@[j] != name@,
            decreases self.names@.len() - i,
        {
            assert(self@[i as int] == self.names@[i as int]@);
            if same_text(&self.names[i], name) {
                return true;
            }
            i += 1;
        }
        false
    }

    /// The set with `name` added behind the others, unless it is there.
    pub fn with(self, name: &str) -> (r: NameSet)
        ensures
            r@ == with_name(self@, name@),
    {
        proof {
            use_type_invariant(&self);
        }
        if self.contains(name) {
            self
        } else {
            let ghost before = self@;
            let mut names = self.names;
            names.push(name.to_owned());
            assert(names.deep_view() =~= before.push(name@));
            NameSet { names }
        }
    }

    /// How many names the set holds.
    pub fn len(&self) -> (r: usize)
        ensures
            r == self@.len(),
    {
        self.names.len()
    }

    /// The name at place `i`.
    pub fn at(&self, i: usize) -> (r: &String)
        requires
            i < self@.len(),
        ensures
            r@ == self@[i as int],
    {
        &self.names[i]
    }

    /// The names of a set are distinct.
    pub fn distinct_names(&self)
        ensures
            self@.no_duplicates(),
    {
        proof {
            use_type_invariant(&*self);
        }
    }
}

/// `names` with `name` behind them, unless it is among them.
pub open spec fn with_name(names: Seq<Seq<char>>, name: Seq<char>) -> Seq<Seq<char>> {
    if names.contains(name) {
        names
    } else {
        names.push(name)
    }
}

/// The members of `with_name`.
pub proof fn lemma_with_name(names: Seq<Seq<char>>, name: Seq<char>)
    ensures
        forall|t: Seq<char>| #[trigger]
            with_name(names, name).contains(t) <==> names.contains(t) || t == name,
{
    assert forall|t: Seq<char>| #[trigger]
        with_name(names, name).contains(t) <==> names.contains(t) || t == name by {
        let all = with_name(names, name);
        if names.contains(t) {
            let k = choose|k: int| 0 <= k < names.len() && names[k] == t;
            assert(all[k] == t);
        }
        if t == name && !names.contains(name) {
            assert(all[names.len() as int] == t);
        }
        if all.contains(t) && !names.contains(name) {
            let k = choose|k: int| 0 <= k < all.len() && all[k] == t;
            if k < names.len() {
                assert(names[k] == t);
            }
        }
    }
}

/// The canonical forms of names.
pub open spec fn canonicals(names: Seq<Seq<char>>) -> Seq<Seq<char>> {
    Seq::new(names.len(), |i: int| canonical(names[i]))
}

/// Names without repetitions, in the order in which they first come.
pub open spec fn distinct_of(names: Seq<Seq<char>>) -> Seq<Seq<char>>
    decreases names.len(),
{
    if names.len() == 0 {
        Seq::empty()
    } else {
        with_name(distinct_of(names.drop_last()), names.last())
    }
}

/// The set of the canonical forms of names.
pub fn canonical_set(names: &Vec<String>) -> (r: NameSet)
    ensures
        r@ == distinct_of(canonicals(names.deep_view())),
        forall|t: Seq<char>| #[trigger]
            r@.contains(t) <==> canonicals(names.deep_view()).contains(t),
{
    let ghost all = names.deep_view();
    let mut out = NameSet::new();
    let mut i: usize = 0;
    while i < names.len()
        invariant
            all == names.deep_view(),
            i <= all.len(),
            out@ == distinct_of(canonicals(all).take(i as int)),
            forall|t: Seq<char>| #[trigger]
                out@.contains(t) <==> canonicals(all).take(i as int).contains(t),
        decreases all.len() - i,
    {
        assert(all[i as int] == names@[i as int]@);
        let ghost before = out@;
        let name = canonicalize(&names[i]);
        out = out.with(&name);
        proof {
            lemma_with_name(before, name@);
            let part = canonicals(all).take(i as int);
            assert(canonicals(all).take(i + 1) =~= part.push(name@));
            assert(part.push(name@).drop_last() =~= part);
            lemma_push_contains(part, name@);
        }
        i += 1;
    }
    assert(canonicals(all).take(all.len() as int) =~= canonicals(all));
    out
}

proof fn lemma_push_contains(names: Seq<Seq<char>>, name: Seq<char>)
    ensures
        forall|t: Seq<char>| #[trigger]
            names.push(name).contains(t) <==> names.contains(t) || t == name,
{
    assert forall|t: Seq<char>| #[trigger]
        names.push(name).contains(t) <==> names.contains(t) || t == name by {
        let all = names.push(name);
        if names.contains(t) {
            let k = choose|k: int| 0 <= k < names.len() && names[k] == t;
            assert(all[k] == t);
        }
        if t == name {
            assert(all[names.len() as int] == t);
        }
        if all.contains(t) {
            let k = choose|k: int| 0 <= k < all.len() && all[k] == t;
            if k < names.len() {
                assert(names[k] == t);
            }
        }
    }
}

/// The project names that a note mentions, each with how often it stands in the prose.
#[derive(Debug)]
pub struct Mentions {
    pub entries: Vec<(String, usize)>,
}

impl DeepView for Mentions {
    type V = Seq<(Seq<char>, usize)>;

    open spec fn deep_view(&self) -> Seq<(Seq<char>, usize)> {
        self.entries.deep_view()
    }
}

/// The count of `name` among mentions.
pub open spec fn count_of(mentions: Seq<(Seq<char>, usize)>, name: Seq<char>) -> Option<usize>
    decreases mentions.len(),
{
    if mentions.len() == 0 {
        None
    } else if mentions[0].0 == name {
        Some(mentions[0].1)
    } else {
        count_of(mentions.skip(1), name)
    }
}

impl Mentions {
    /// How often `name` is mentioned, where it is.
    pub fn get(&self, name: &str) -> (r: Option<&usize>)
        ensures
            r.deep_view() == count_of(self.deep_view(), name@),
    {
        let ghost all = self.deep_view();
        let mut i: usize = 0;
        assert(all.skip(0) =~= all);
        while i < self.entries.len()
            invariant
                all == self.deep_view(),
                i <= all.len(),
                count_of(all, name@) == count_of(all.skip(i as int), name@),
            decreases all.len() - i,
        {
            assert(all[i as int] == self.entries@[i as int].deep_view());
            if same_text(&self.entries[i].0, name) {
                return Some(&self.entries[i].1);
            }
            assert(all.skip(i as int).skip(1) =~= all.skip(i + 1));
            i += 1;
        }
        None
    }

    /// Whether `name` is mentioned.
    pub fn contains_key(&self, name: &str) -> (r: bool)
        ensures
            r == (count_of(self.deep_view(), name@) is Some),
    {
        self.get(name).is_some()
    }

    /// Whether nothing is mentioned.
    pub fn is_empty(&self) -> (r: bool)
        ensures
            r == (self.deep_view().len() == 0),
    {
        self.entries.len() == 0
    }
}

/// Entities pulled out of one note's text.
#[derive(Debug)]
pub struct Extraction {
    /// `[[wiki links]]`, target names as written.
    pub wiki_links: Vec<String>,
    /// Backticked spans that look like entities (not code blocks).
    pub code_spans: Vec<String>,
    /// Project names matched against the known-project dictionary, with mention counts.
    pub project_mentions: Mentions,
}

/// The value of an `Extraction`.
pub struct ExtractionModel {
    pub wiki_links: Seq<Seq<char>>,
    pub code_spans: Seq<Seq<char>>,
    pub project_mentions: Seq<(Seq<char>, usize)>,
}

impl DeepView for Extraction {
    type V = ExtractionModel;

    open spec fn deep_view(&self) -> ExtractionModel {
        ExtractionModel {
            wiki_links: self.wiki_links.deep_view(),
            code_spans: self.code_spans.deep_view(),
            project_mentions: self.project_mentions.deep_view(),
        }
    }
}

/// A language that top-level symbols are extracted from: which file extensions it owns, its
/// display name, and a pattern whose first group is the defined symbol name. Definition-level only
/// (classes, modules, functions), not call graphs or references.
pub struct Lang {
    pub name: &'static str,
    pub exts: Vec<&'static str>,
    pub pattern: &'static str,
}

/// The value of a `Lang`.
pub struct LangModel {
    pub name: Seq<char>,
    pub exts: Seq<Seq<char>>,
    pub pattern: Seq<char>,
}

impl DeepView for Lang {
    type V = LangModel;

    open spec fn deep_view(&self) -> LangModel {
        LangModel {
            name: self.name@,
            exts: Seq::new(self.exts@.len(), |i: int| self.exts@[i]@),
            pattern: self.pattern@,
        }
    }
}

impl Lang {
    /// The pattern of the language's definitions.
    pub fn def_re(&self) -> (r: &'static str)
        ensures
            r@ == self.deep_view().pattern,
    {
        self.pattern
    }
}

/// The language table.
pub open spec fn language_table() -> Seq<LangModel> {
    seq![
        LangModel { name: "ruby"@, exts: seq!["rb"@], pattern: RUBY_DEF@ },
        LangModel { name: "python"@, exts: seq!["py"@], pattern: PYTHON_DEF@ },
        LangModel {
            name: "javascript"@,
            exts: seq!["js"@, "jsx"@, "ts"@, "tsx"@, "mjs"@],
            pattern: JS_DEF@,
        },
    ]
}

/// The language table. Adding a language is a data change here, not a change to the scanner.
pub fn languages() -> (r: Vec<Lang>)
    ensures
        r.deep_view() == language_table(),
{
    let ruby = Lang { name: "ruby", exts: vec!["rb"], pattern: RUBY_DEF };
    let python = Lang { name: "python", exts: vec!["py"], pattern: PYTHON_DEF };
    let javascript = Lang {
        name: "javascript",
        exts: vec!["js", "jsx", "ts", "tsx", "mjs"],
        pattern: JS_DEF,
    };
    assert(ruby.deep_view().exts =~= language_table()[0].exts);
    assert(python.deep_view().exts =~= language_table()[1].exts);
    assert(javascript.deep_view().exts =~= language_table()[2].exts);
    let r = vec![ruby, python, javascript];
    assert(r.deep_view() =~= language_table());
    r
}

/// The first language at or behind place `from` of a table that owns a file extension.
pub open spec fn owner_of(table: Seq<LangModel>, ext: Seq<char>, from: int) -> Option<LangModel>
    decreases table.len() - from,
{
    if from < 0 || from >= table.len() {
        None
    } else if table[from].exts.contains(ext) {
        Some(table[from])
    } else {
        owner_of(table, ext, from + 1)
    }
}

/// The language that owns a file extension.
pub open spec fn language_of(ext: Seq<char>) -> Option<LangModel> {
    owner_of(language_table(), ext, 0)
}

fn owns(lang: &Lang, ext: &str) -> (r: bool)
    ensures
        r == lang.deep_view().exts.contains(ext@),
{
    let ghost exts = lang.deep_view().exts;
    let mut i: usize = 0;
    while i < lang.exts.len()
        invariant
            exts == lang.deep_view().exts,
            i <= exts.len(),
            forall|k: int| 0 <= k < i ==> #[trigger] exts[k] != ext@,
        decreases exts.len() - i,
    {
        assert(exts[i as int] == lang.exts@[i as int]@);
        if same_text(lang.exts[i], ext) {
            return true;
        }
        i += 1;
    }
    false
}

/// Look up the language that owns a file extension, if any.
pub fn lang_for_ext(ext: &str) -> (r: Option<Lang>)
    ensures
        r.deep_view() == language_of(ext@),
        r is Some ==> def_pattern(r->0.pattern@),
{
    let mut table = languages();
    let ghost all = language_table();
    let ghost mut n: int = 0;
    assert(table.deep_view() =~= all.skip(0));
    while table.len() > 0
        invariant
            0 <= n <= all.len(),
            all == language_table(),
            table.deep_view() == all.skip(n),
            owner_of(all, ext@, 0) == owner_of(all, ext@, n),
        decreases table@.len(),
    {
        assert(all.skip(n)[0] == table@[0].deep_view());
        assert(table.deep_view().len() == table@.len());
        let ghost before = table@;
        let lang = table.remove(0);
        assert(all[n] == lang.deep_view());
        if owns(&lang, ext) {
            return Some(lang);
        }
        proof {
            assert forall|j: int| 0 <= j < table@.len() implies #[trigger] table.deep_view()[j]
                == all.skip(n + 1)[j] by {
                assert(table@[j] == before[j + 1]);
                assert(all.skip(n)[j + 1] == before[j + 1].deep_view());
            }
            assert(table.deep_view() =~= all.skip(n + 1));
            n = n + 1;
        }
    }
    assert(table.deep_view().len() == 0);
    None
}

/// The length of the line that opens a frontmatter block, where `body` starts with one.
pub open spec fn frontmatter_opening(body: Seq<char>) -> Option<int> {
    if has_prefix(body, "---\n"@) {
        Some(4)
    } else if has_prefix(body, "---\r\n"@) {
        Some(5)
    } else {
        None
    }
}

/// Whether a line, with or without its ending, closes a frontmatter block.
pub open spec fn closes_frontmatter(line: Seq<char>) -> bool {
    trimmed_end(line, CharClass::White) == "---"@
}

/// How many characters the pieces hold up to the end of the first one that closes a block.
pub open spec fn closing_end(pieces: Seq<Seq<char>>) -> Option<int>
    decreases pieces.len(),
{
    if pieces.len() == 0 {
        None
    } else if closes_frontmatter(pieces[0]) {
        Some(pieces[0].len() as int)
    } else {
        match closing_end(pieces.skip(1)) {
            Some(n) => Some(pieces[0].len() + n),
            None => None,
        }
    }
}

/// A note body without its leading frontmatter block, if that block is closed.
pub open spec fn without_frontmatter(body: Seq<char>) -> Seq<char> {
    match frontmatter_opening(body) {
        None => body,
        Some(k) => match closing_end(segments(body.skip(k))) {
            None => body,
            Some(n) => body.skip(k + n),
        },
    }
}

/// How many characters the pieces hold together.
spec fn pieces_len(pieces: Seq<Seq<char>>) -> nat
    decreases pieces.len(),
{
    if pieces.len() == 0 {
        0
    } else {
        pieces[0].len() + pieces_len(pieces.skip(1))
    }
}

proof fn lemma_pieces_len(s: Seq<char>)
    ensures
        pieces_len(segments(s)) == s.len(),
    decreases s.len(),
{
    lemma_place_of(s, '\n');
    let n = place_of(s, '\n') as int;
    if s.len() > 0 {
        if n < s.len() {
            let rest = s.skip(n + 1);
            lemma_pieces_len(rest);
            assert(segments(s).skip(1) =~= segments(rest));
            assert(segments(s)[0] == s.take(n + 1));
        } else {
            assert(segments(s).skip(1) =~= Seq::<Seq<char>>::empty());
            assert(pieces_len(segments(s).skip(1)) == 0);
        }
    }
}

/// Skip a leading closed frontmatter block. Frontmatter is metadata, not prose: keys like
/// `tags: [raft]` must not become project mentions or entities. An unterminated block is left
/// alone.
pub fn strip_frontmatter<'a>(body: &'a str) -> (r: &'a str)
    ensures
        r@ == without_frontmatter(body@),
{
    proof {
        reveal_strlit("---\n");
        reveal_strlit("---\r\n");
    }
    let opening: usize = if starts_with(body, "---\n") {
        4
    } else if starts_with(body, "---\r\n") {
        5
    } else {
        return body;
    };
    let chars = chars_of(body);
    let rest = crate::text::part_of(&chars, opening, chars.len());
    assert(rest@ =~= body@.skip(opening as int));
    let pieces = segments_of(&rest);
    let ghost all = pieces.deep_view();
    proof {
        lemma_pieces_len(rest@);
    }
    let total = chars.len();
    let mut offset: usize = 0;
    let mut i: usize = 0;
    assert(all.skip(0) =~= all);
    while i < pieces.len()
        invariant
            all == pieces.deep_view(),
            i <= all.len(),
            chars@ == body@,
            rest@ == body@.skip(opening as int),
            all == segments(rest@),
            frontmatter_opening(body@) == Some(opening as int),
            opening <= chars@.len(),
            total == chars@.len(),
            rest@.len() + opening == total,
            offset + pieces_len(all.skip(i as int)) == rest@.len(),
            closing_end(all) == (match closing_end(all.skip(i as int)) {
                Some(n) => Some(offset + n),
                None => None,
            }),
        decreases all.len() - i,
    {
        assert(all[i as int] == pieces@[i as int]@);
        let piece = chars_of(&pieces[i]);
        let bare = text_of(&trim_end_of(&piece, CharClass::White));
        if same_text(&bare, "---") {
            let end = opening + (offset + piece.len());
            let r = body.substring_char(end, chars.len());
            assert(body@.subrange(end as int, body@.len() as int) =~= body@.skip(end as int));
            return r;
        }
        assert(all.skip(i as int).skip(1) =~= all.skip(i + 1));
        offset = offset + piece.len();
        i += 1;
    }
    body
}

/// Whether a line opens or closes a fenced code block.
pub open spec fn is_fence(line: Seq<char>) -> bool {
    has_prefix(trimmed_start(line, CharClass::White), "```"@)
}

/// Whether a line opens or closes a fenced code block.
pub fn fence_line(line: &str) -> (r: bool)
    ensures
        r == is_fence(line@),
{
    starts_with(&text_of(&trim_start_of(&chars_of(line), CharClass::White)), "```")
}

/// Whether line `n` stands behind an odd number of fence lines.
pub open spec fn fenced_at(lines: Seq<Seq<char>>, n: int) -> bool
    decreases n,
{
    if n <= 0 {
        false
    } else if is_fence(lines[n - 1]) {
        !fenced_at(lines, n - 1)
    } else {
        fenced_at(lines, n - 1)
    }
}

/// Whether line `n` is neither a fence line nor inside a fenced block.
pub open spec fn is_prose_line(lines: Seq<Seq<char>>, n: int) -> bool {
    !is_fence(lines[n]) && !fenced_at(lines, n)
}

/// The prose among the first `n` lines, each line ended by a line feed.
pub open spec fn prose_upto(lines: Seq<Seq<char>>, n: int) -> Seq<char>
    decreases n,
{
    if n <= 0 {
        Seq::empty()
    } else if is_prose_line(lines, n - 1) {
        prose_upto(lines, n - 1) + lines[n - 1].push('\n')
    } else {
        prose_upto(lines, n - 1)
    }
}

/// A text without its fenced code blocks.
pub open spec fn without_fences(body: Seq<char>) -> Seq<char> {
    prose_upto(lines(body), lines(body).len() as int)
}

/// A text without its fenced code blocks and their fence lines. A fence that is never closed
/// swallows the rest.
pub fn strip_fences(body: &str) -> (r: String)
    ensures
        r@ == without_fences(body@),
{
    let all_lines = lines_of(body);
    let ghost all = lines(body@);
    let mut out = String::new();
    let mut in_fence = false;
    let mut i: usize = 0;
    while i < all_lines.len()
        invariant
            all == all_lines.deep_view(),
            i <= all.len(),
            in_fence == fenced_at(all, i as int),
            out@ == prose_upto(all, i as int),
        decreases all.len() - i,
    {
        assert(all[i as int] == all_lines@[i as int]@);
        if fence_line(&all_lines[i]) {
            in_fence = !in_fence;
        } else if !in_fence {
            out.append(&all_lines[i]);
            out.push('\n');
            assert(out@ =~= prose_upto(all, i as int) + all[i as int].push('\n'));
        }
        i += 1;
    }
    out
}

/// The prose of a note: its body without frontmatter and fenced code blocks.
pub open spec fn prose_of(body: Seq<char>) -> Seq<char> {
    without_fences(without_frontmatter(body))
}

/// The targets of wiki links: the trimmed groups that are not empty.
pub open spec fn link_targets_of(captures: Seq<Groups>) -> Seq<Seq<char>>
    decreases captures.len(),
{
    if captures.len() == 0 {
        Seq::empty()
    } else {
        let before = link_targets_of(captures.drop_last());
        let target = trim(captures.last()[1]->0);
        if target.len() > 0 {
            before.push(target)
        } else {
            before
        }
    }
}

/// Whether matches have a group behind the whole match.
pub open spec fn have_group(captures: Seq<Groups>) -> bool {
    forall|i: int|
        0 <= i < captures.len() ==> (#[trigger] captures[i]).len() == 2 && captures[i][1] is Some
}

/// The targets of the wiki links that were matched.
pub fn link_targets(captures: &Vec<Vec<Option<String>>>) -> (r: Vec<String>)
    requires
        have_group(captures.deep_view()),
    ensures
        r.deep_view() == link_targets_of(captures.deep_view()),
{
    let ghost all = captures.deep_view();
    let mut out: Vec<String> = Vec::new();
    let mut i: usize = 0;
    assert(out.deep_view() =~= Seq::<Seq<char>>::empty());
    while i < captures.len()
        invariant
            all == captures.deep_view(),
            have_group(all),
            i <= all.len(),
            out.deep_view() == link_targets_of(all.take(i as int)),
        decreases all.len() - i,
    {
        let ghost before = out.deep_view();
        assert(all.take(i + 1).drop_last() =~= all.take(i as int));
        let group = &captures[i];
        assert(all[i as int] == group.deep_view());
        assert(all[i as int][1] == group@[1].deep_view());
        if let Some(text) = &group[1] {
            let target = trim_text(text);
            if !target.as_str().is_empty() {
                out.push(target);
                assert(out.deep_view() =~= before.push(target@));
            }
        }
        i += 1;
    }
    assert(all.take(all.len() as int) =~= all);
    out
}

/// Whether a backticked text is kept: not empty, and not a long phrase with spaces.
pub open spec fn span_kept(span: Seq<char>) -> bool {
    span.len() > 0 && !(span.contains(' ') && byte_len(span) > 40)
}

/// The kept texts of backticked spans.
pub open spec fn span_texts_of(captures: Seq<Groups>) -> Seq<Seq<char>>
    decreases captures.len(),
{
    if captures.len() == 0 {
        Seq::empty()
    } else {
        let before = span_texts_of(captures.drop_last());
        let span = trim(captures.last()[1]->0);
        if span_kept(span) {
            before.push(span)
        } else {
            before
        }
    }
}

fn has_space(s: &str) -> (r: bool)
    ensures
        r == s@.contains(' '),
{
    let chars = chars_of(s);
    let mut i: usize = 0;
    while i < chars.len()
        invariant
            chars@ == s@,
            i <= chars@.len(),
            forall|j: int| 0 <= j < i ==> #[trigger] chars@[j] != ' ',
        decreases chars@.len() - i,
    {
        if chars[i] == ' ' {
            return true;
        }
        i += 1;
    }
    false
}

/// The kept texts of the backticked spans that were matched.
pub fn span_texts(captures: &Vec<Vec<Option<String>>>) -> (r: Vec<String>)
    requires
        have_group(captures.deep_view()),
    ensures
        r.deep_view() == span_texts_of(captures.deep_view()),
{
    let ghost all = captures.deep_view();
    let mut out: Vec<String> = Vec::new();
    let mut i: usize = 0;
    assert(out.deep_view() =~= Seq::<Seq<char>>::empty());
    while i < captures.len()
        invariant
            all == captures.deep_view(),
            have_group(all),
            i <= all.len(),
            out.deep_view() == span_texts_of(all.take(i as int)),
        decreases all.len() - i,
    {
        let ghost before = out.deep_view();
        assert(all.take(i + 1).drop_last() =~= all.take(i as int));
        let group = &captures[i];
        assert(all[i as int] == group.deep_view());
        assert(all[i as int][1] == group@[1].deep_view());
        if let Some(text) = &group[1] {
            let span = trim_text(text);
            if !(span.as_str().is_empty() || has_space(&span) && bytes_in(&span) > 40) {
                out.push(span);
                assert(out.deep_view() =~= before.push(span@));
            }
        }
        i += 1;
    }
    assert(all.take(all.len() as int) =~= all);
    out
}

/// Whether a character belongs to a word: an ASCII letter or digit, `_` or `-`.
pub open spec fn is_word(c: char) -> bool {
    'a' <= c <= 'z' || 'A' <= c <= 'Z' || '0' <= c <= '9' || c == '_' || c == '-'
}

/// Whether a character belongs to a word.
pub fn is_word_char(c: char) -> (r: bool)
    ensures
        r == is_word(c),
{
    ('a' <= c && c <= 'z') || ('A' <= c && c <= 'Z') || ('0' <= c && c <= '9') || c == '_' || c
        == '-'
}

/// Whether the characters of `s` from `i` up to `j` have no word character beside them.
pub open spec fn word_bounds(s: Seq<char>, i: int, j: int) -> bool {
    (i == 0 || !is_word(s[i - 1])) && (j >= s.len() || !is_word(s[j]))
}

/// How often `needle` stands in `s` as a whole word, read from `from` on without overlaps.
pub open spec fn mentions_from(s: Seq<char>, needle: Seq<char>, from: int) -> nat
    decreases s.len() - from,
    when 0 <= from <= s.len() && needle.len() > 0
    via mentions_from_decreases
{
    match find_from(s, needle, from) {
        None => 0,
        Some(i) => (if word_bounds(s, i, i + needle.len()) {
            1nat
        } else {
            0nat
        }) + mentions_from(s, needle, i + needle.len()),
    }
}

#[via_fn]
proof fn mentions_from_decreases(s: Seq<char>, needle: Seq<char>, from: int) {
    lemma_find_from(s, needle, from);
}

proof fn lemma_mentions_bound(s: Seq<char>, needle: Seq<char>, from: int)
    requires
        0 <= from <= s.len(),
        needle.len() > 0,
    ensures
        mentions_from(s, needle, from) <= s.len() - from,
    decreases s.len() - from,
{
    lemma_find_from(s, needle, from);
    if let Some(i) = find_from(s, needle, from) {
        lemma_mentions_bound(s, needle, i + needle.len());
    }
}

/// How often `needle` stands in `text` as a whole word.
pub fn count_mentions(text: &str, needle: &str) -> (r: usize)
    requires
        needle@.len() > 0,
    ensures
        r == mentions_from(text@, needle@, 0),
{
    let s = chars_of(text);
    let p = chars_of(needle);
    let mut count: usize = 0;
    let mut start: usize = 0;
    proof {
        lemma_mentions_bound(s@, p@, 0);
    }
    loop
        invariant
            s@ == text@,
            p@ == needle@,
            p@.len() > 0,
            start <= s@.len(),
            count + mentions_from(s@, p@, start as int) == mentions_from(s@, p@, 0) <= s@.len(),
        decreases s@.len() - start,
    {
        proof {
            lemma_find_from(s@, p@, start as int);
        }
        match find_text(&s, &p, start) {
            None => {
                return count;
            },
            Some(at) => {
                let end = at + p.len();
                let before_ok = at == 0 || !is_word_char(s[at - 1]);
                let after_ok = end >= s.len() || !is_word_char(s[end]);
                if before_ok && after_ok {
                    count += 1;
                }
                start = end;
            },
        }
    }
}

/// The lowercase forms of texts.
pub open spec fn all_lowercase(texts: Seq<Seq<char>>) -> Seq<Seq<char>> {
    Seq::new(texts.len(), |i: int| lowercase(texts[i]))
}

/// Whether a project name is trusted where it stands in prose: short names are trusted only where
/// they are backticked too.
pub open spec fn name_trusted(name: Seq<char>, spans: Seq<Seq<char>>) -> bool {
    byte_len(name) >= 4 || all_lowercase(spans).contains(lowercase(name))
}

/// The mentions of the first `n` names: those that stand in the prose and are trusted, with their
/// counts.
pub open spec fn mentions_upto(
    names: Seq<Seq<char>>,
    prose: Seq<char>,
    spans: Seq<Seq<char>>,
    n: int,
) -> Seq<(Seq<char>, usize)>
    decreases n,
{
    if n <= 0 {
        Seq::empty()
    } else {
        let before = mentions_upto(names, prose, spans, n - 1);
        let name = names[n - 1];
        let count = mentions_from(lowercase(prose), lowercase(name), 0);
        if count > 0 && name_trusted(name, spans) {
            before.push((name, count as usize))
        } else {
            before
        }
    }
}

/// What a note says, given the names of the known projects.
pub open spec fn extraction_of(body: Seq<char>, names: Seq<Seq<char>>) -> ExtractionModel {
    let prose = prose_of(body);
    let spans = span_texts_of(all_captures_of(CODE_SPAN@, prose));
    ExtractionModel {
        wiki_links: link_targets_of(all_captures_of(WIKI_LINK@, prose)),
        code_spans: spans,
        project_mentions: mentions_upto(names, prose, spans, names.len() as int),
    }
}

fn lower_all(texts: &Vec<String>) -> (r: NameSet)
    ensures
        forall|t: Seq<char>|
            #[trigger] r@.contains(t) <==> all_lowercase(texts.deep_view()).contains(t),
{
    let ghost all = texts.deep_view();
    let mut out = NameSet::new();
    let mut i: usize = 0;
    while i < texts.len()
        invariant
            all == texts.deep_view(),
            i <= all.len(),
            forall|t: Seq<char>|
                #[trigger] out@.contains(t) <==> all_lowercase(all.take(i as int)).contains(t),
        decreases all.len() - i,
    {
        assert(all[i as int] == texts@[i as int]@);
        let lower = texts[i].to_lowercase();
        let ghost before = out@;
        out = out.with(&lower);
        proof {
            lemma_with_name(before, lower@);
            lemma_push_contains(all_lowercase(all.take(i as int)), lower@);
            assert(all_lowercase(all.take(i + 1)) =~= all_lowercase(all.take(i as int)).push(
                lower@,
            ));
        }
        i += 1;
    }
    assert(all.take(all.len() as int) =~= all);
    out
}

/// The trusted mentions of known projects in a prose text, given the backticked spans in it.
pub fn project_mentions(prose: &str, spans: &Vec<String>, project_names: &NameSet) -> (r: Mentions)
    requires
        forall|i: int| 0 <= i < project_names@.len() ==> (#[trigger] project_names@[i]).len() > 0,
    ensures
        r.deep_view() == mentions_upto(
            project_names@,
            prose@,
            spans.deep_view(),
            project_names@.len() as int,
        ),
{
    let lower = prose.to_lowercase();
    let spans_lower = lower_all(spans);
    let mut entries: Vec<(String, usize)> = Vec::new();
    let mut i: usize = 0;
    assert(entries.deep_view() =~= Seq::<(Seq<char>, usize)>::empty());
    while i < project_names.len()
        invariant
            i <= project_names@.len(),
            forall|k: int|
                0 <= k < project_names@.len() ==> (#[trigger] project_names@[k]).len() > 0,
            lower@ == lowercase(prose@),
            forall|t: Seq<char>|
                #[trigger] spans_lower@.contains(t) <==> all_lowercase(
                    spans.deep_view(),
                ).contains(t),
            entries.deep_view() == mentions_upto(
                project_names@,
                prose@,
                spans.deep_view(),
                i as int,
            ),
        decreases project_names@.len() - i,
    {
        let ghost before = entries.deep_view();
        let name = project_names.at(i);
        let needle = name.to_lowercase();
        let count = count_mentions(&lower, &needle);
        if count > 0 && (bytes_in(name) >= 4 || spans_lower.contains(&needle)) {
            entries.push((name.clone(), count));
            assert(entries.deep_view() =~= before.push((name@, count)));
        }
        i += 1;
    }
    Mentions { entries }
}

/// Pull wiki links, backticked spans and project mentions out of a note's prose. Frontmatter and
/// fenced code blocks do not count.
pub fn extract(body: &str, project_names: &NameSet) -> (r: Extraction)
    requires
        forall|i: int| 0 <= i < project_names@.len() ==> (#[trigger] project_names@[i]).len() > 0,
    ensures
        r.deep_view() == extraction_of(body@, project_names@),
{
    let prose = strip_fences(strip_frontmatter(body));
    let links = captures_in_text(WIKI_LINK, &prose);
    let spans = captures_in_text(CODE_SPAN, &prose);
    proof {
        lemma_captures_from(WIKI_LINK@, prose@, 0);
        lemma_captures_from(CODE_SPAN@, prose@, 0);
    }
    let wiki_links = link_targets(&links);
    let code_spans = span_texts(&spans);
    let project_mentions = project_mentions(&prose, &code_spans, project_names);
    Extraction { wiki_links, code_spans, project_mentions }
}

/// An open loop: an unchecked task item.
#[derive(Debug)]
pub struct Loop {
    pub text: String,
    /// The header the item was found under, if any.
    pub section: Option<String>,
    /// Zero-based line index of the item's first line in the note.
    pub line: usize,
}

/// The value of a `Loop`.
pub struct LoopModel {
    pub text: Seq<char>,
    pub section: Option<Seq<char>>,
    pub line: int,
}

impl DeepView for Loop {
    type V = LoopModel;

    open spec fn deep_view(&self) -> LoopModel {
        LoopModel {
            text: self.text@,
            section: self.section.deep_view(),
            line: self.line as int,
        }
    }
}

/// The text of the last heading before line `n` that is prose.
pub open spec fn section_at(lines: Seq<Seq<char>>, n: int) -> Option<Seq<char>>
    decreases n,
{
    if n <= 0 {
        None
    } else if is_prose_line(lines, n - 1) && is_header(lines[n - 1]) {
        Some(header_text(lines[n - 1]))
    } else {
        section_at(lines, n - 1)
    }
}

/// Whether a line carries on the item before it: it is indented, not blank, and no bullet item.
pub open spec fn is_continuation(line: Seq<char>) -> bool {
    has_prefix(line, "  "@) && trim(line).len() > 0 && !is_bullet(line)
}

/// Whether an unchecked item is still open for continuation lines at line `n`.
pub open spec fn item_open_at(lines: Seq<Seq<char>>, n: int) -> bool
    decreases n,
{
    if n <= 0 || !is_prose_line(lines, n - 1) || is_header(lines[n - 1]) {
        false
    } else if is_checkbox(lines[n - 1]) {
        checkbox_mark(lines[n - 1]) == ' '
    } else {
        item_open_at(lines, n - 1) && is_continuation(lines[n - 1])
    }
}

/// The loops with the last one's text carried on by a line.
pub open spec fn with_continuation(loops: Seq<LoopModel>, line: Seq<char>) -> Seq<LoopModel> {
    let last = loops.last();
    loops.drop_last().push(LoopModel { text: last.text.push(' ') + trim(line), ..last })
}

/// The open loops among the first `n` lines.
pub open spec fn loops_upto(lines: Seq<Seq<char>>, n: int) -> Seq<LoopModel>
    decreases n,
{
    if n <= 0 {
        Seq::empty()
    } else {
        let before = loops_upto(lines, n - 1);
        let line = lines[n - 1];
        if !is_prose_line(lines, n - 1) || is_header(line) {
            before
        } else if is_checkbox(line) {
            if checkbox_mark(line) == ' ' {
                before.push(
                    LoopModel {
                        text: checkbox_text(line),
                        section: section_at(lines, n - 1),
                        line: n - 1,
                    },
                )
            } else {
                before
            }
        } else if item_open_at(lines, n - 1) && is_continuation(line) {
            with_continuation(before, line)
        } else {
            before
        }
    }
}

/// The open loops of a note body.
pub open spec fn loops_of(body: Seq<char>) -> Seq<LoopModel> {
    loops_upto(lines(body), lines(body).len() as int)
}

fn clone_text(t: &Option<String>) -> (r: Option<String>)
    ensures
        r.deep_view() == t.deep_view(),
{
    match t {
        Some(s) => Some(s.clone()),
        None => None,
    }
}

fn bullet_line(line: &str) -> (r: bool)
    ensures
        r == is_bullet(line@),
{
    let a = trim_start_of(&chars_of(line), CharClass::White);
    a.len() > 1 && (a[0] == '-' || a[0] == '*') && a[1].is_whitespace()
}

fn continuation_line(line: &str) -> (r: bool)
    ensures
        r == is_continuation(line@),
{
    starts_with(line, "  ") && !trim_text(line).as_str().is_empty() && !bullet_line(line)
}

/// Extract open loops from a note body. `- [ ]` is the one loop syntax, recognized anywhere;
/// checked boxes are done and skipped, and plain bullets are never loops. Continuation lines
/// (indented non-bullet text) fold into the preceding item.
pub fn extract_loops(body: &str) -> (r: Vec<Loop>)
    ensures
        r.deep_view() == loops_of(body@),
{
    let all_lines = lines_of(body);
    let headers = captures_per_line(HEADER, &all_lines);
    let boxes = captures_per_line(CHECKBOX, &all_lines);
    let ghost all = lines(body@);
    proof {
        lemma_lines_have_no_newline(body@);
    }
    let mut loops: Vec<Loop> = Vec::new();
    let mut section: Option<String> = None;
    let mut in_fence = false;
    let mut item_open = false;
    let mut i: usize = 0;
    assert(loops.deep_view() =~= Seq::<LoopModel>::empty());
    while i < all_lines.len()
        invariant
            all == all_lines.deep_view(),
            headers@.len() == all.len(),
            boxes@.len() == all.len(),
            i <= all.len(),
            forall|k: int|
                0 <= k < all.len() ==> crate::patterns::line_captures(
                    HEADER@,
                    all[k],
                    (#[trigger] headers@[k]).deep_view(),
                ),
            forall|k: int|
                0 <= k < all.len() ==> crate::patterns::line_captures(
                    CHECKBOX@,
                    all[k],
                    (#[trigger] boxes@[k]).deep_view(),
                ),
            in_fence == fenced_at(all, i as int),
            section.deep_view() == section_at(all, i as int),
            item_open == item_open_at(all, i as int),
            loops.deep_view() == loops_upto(all, i as int),
            item_open ==> loops@.len() > 0,
        decreases all.len() - i,
    {
        let ghost before = loops.deep_view();
        let line = &all_lines[i];
        assert(all[i as int] == line@);
        if fence_line(line) {
            in_fence = !in_fence;
            item_open = false;
        } else if in_fence {
            item_open = false;
        } else if let Some(groups) = &headers[i] {
            assert(headers@[i as int].deep_view() == Some(groups.deep_view()));
            assert(groups.deep_view()[2] == groups@[2].deep_view());
            if let Some(text) = &groups[2] {
                section = Some(trim_text(text));
            }
            item_open = false;
        } else if let Some(groups) = &boxes[i] {
            assert(boxes@[i as int].deep_view() == Some(groups.deep_view()));
            assert(groups.deep_view()[1] == groups@[1].deep_view());
            assert(groups.deep_view()[2] == groups@[2].deep_view());
            item_open = false;
            if let Some(mark) = &groups[1] {
                if same_text(mark, " ") {
                    proof {
                        reveal_strlit(" ");
                        assert(" "@[0] == ' ');
                        assert(mark@[0] == ' ');
                    }
                    if let Some(text) = &groups[2] {
                        let item = Loop {
                            text: trim_text(text),
                            section: clone_text(&section),
                            line: i,
                        };
                        loops.push(item);
                        assert(loops.deep_view() =~= before.push(item.deep_view()));
                        item_open = true;
                    }
                } else {
                    proof {
                        reveal_strlit(" ");
                        if checkbox_mark(all[i as int]) == ' ' {
                            assert(mark@ =~= " "@);
                        }
                    }
                }
            }
        } else if item_open && continuation_line(line) {
            if let Some(mut last) = loops.pop() {
                assert(last.deep_view() == before.last());
                last.text.push(' ');
                let more = trim_text(line);
                last.text.append(&more);
                loops.push(last);
                assert(loops.deep_view() =~= with_continuation(before, line@));
            }
        } else {
            item_open = false;
        }
        i += 1;
    }
    loops
}

proof fn lemma_trim_holds_less(s: Seq<char>, c: char)
    ensures
        trim(s).len() <= s.len(),
        trim(s).contains(c) ==> s.contains(c),
{
    lemma_lead_len(s, CharClass::White);
    let rest = trimmed_start(s, CharClass::White);
    lemma_tail_len(rest, CharClass::White);
    if trim(s).contains(c) {
        let k = choose|k: int| 0 <= k < trim(s).len() && trim(s)[k] == c;
        assert(s[k + lead_len(s, CharClass::White)] == c);
    }
}

/// Whether a link target is bare.
pub open spec fn is_bare_target(target: Seq<char>) -> bool {
    target.len() > 0 && !target.contains(']') && !target.contains('|') && !target.contains('#')
}

/// Whether a span is a short text on one line.
pub open spec fn is_short_span(span: Seq<char>) -> bool {
    span_kept(span) && span.len() <= 80 && !span.contains('`') && !span.contains('\n')
}

proof fn lemma_bare_targets(captures: Seq<Groups>)
    requires
        forall|k: int|
            0 <= k < captures.len() ==> bare_group(WIKI_LINK@, (#[trigger] captures[k])[1]->0),
    ensures
        forall|k: int|
            0 <= k < link_targets_of(captures).len() ==> is_bare_target(
                #[trigger] link_targets_of(captures)[k],
            ),
    decreases captures.len(),
{
    if captures.len() > 0 {
        let rest = captures.drop_last();
        assert forall|k: int| 0 <= k < rest.len() implies bare_group(
            WIKI_LINK@,
            (#[trigger] rest[k])[1]->0,
        ) by {
            assert(rest[k] == captures[k]);
        }
        lemma_bare_targets(rest);
        let before = link_targets_of(rest);
        let all = link_targets_of(captures);
        assert(bare_group(WIKI_LINK@, captures[captures.len() - 1][1]->0));
        let group = captures.last()[1]->0;
        lemma_trim_holds_less(group, ']');
        lemma_trim_holds_less(group, '|');
        lemma_trim_holds_less(group, '#');
        assert forall|k: int| 0 <= k < all.len() implies is_bare_target(#[trigger] all[k]) by {
            if k < before.len() {
                assert(all[k] == before[k]);
            }
        }
    }
}

proof fn lemma_short_spans(captures: Seq<Groups>)
    requires
        forall|k: int|
            0 <= k < captures.len() ==> bare_group(CODE_SPAN@, (#[trigger] captures[k])[1]->0),
    ensures
        forall|k: int|
            0 <= k < span_texts_of(captures).len() ==> is_short_span(
                #[trigger] span_texts_of(captures)[k],
            ),
    decreases captures.len(),
{
    if captures.len() > 0 {
        let rest = captures.drop_last();
        assert forall|k: int| 0 <= k < rest.len() implies bare_group(
            CODE_SPAN@,
            (#[trigger] rest[k])[1]->0,
        ) by {
            assert(rest[k] == captures[k]);
        }
        lemma_short_spans(rest);
        let before = span_texts_of(rest);
        let all = span_texts_of(captures);
        assert(bare_group(CODE_SPAN@, captures[captures.len() - 1][1]->0));
        let group = captures.last()[1]->0;
        lemma_trim_holds_less(group, '`');
        lemma_trim_holds_less(group, '\n');
        assert forall|k: int| 0 <= k < all.len() implies is_short_span(#[trigger] all[k]) by {
            if k < before.len() {
                assert(all[k] == before[k]);
            }
        }
    }
}

/// Anchors and aliases are stripped from link targets, and code spans are short texts on one line.
pub proof fn law_links_and_spans_are_bare(body: Seq<char>, names: Seq<Seq<char>>)
    ensures
        forall|k: int|
            0 <= k < extraction_of(body, names).wiki_links.len() ==> is_bare_target(
                #[trigger] extraction_of(body, names).wiki_links[k],
            ),
        forall|k: int|
            0 <= k < extraction_of(body, names).code_spans.len() ==> is_short_span(
                #[trigger] extraction_of(body, names).code_spans[k],
            ),
{
    let prose = prose_of(body);
    lemma_bare_groups(WIKI_LINK@, prose, 0);
    lemma_bare_groups(CODE_SPAN@, prose, 0);
    lemma_bare_targets(all_captures_of(WIKI_LINK@, prose));
    lemma_short_spans(all_captures_of(CODE_SPAN@, prose));
}

/// Punctuation and white space round a name do not change what it names.
pub proof fn law_edges_do_not_count(lead: Seq<char>, name: Seq<char>, tail: Seq<char>)
    requires
        forall|i: int| 0 <= i < lead.len() ==> CharClass::Edge.holds(#[trigger] lead[i]),
        forall|i: int| 0 <= i < tail.len() ==> CharClass::Edge.holds(#[trigger] tail[i]),
    ensures
        canonical(lead + name + tail) == canonical(name),
{
    let class = CharClass::Edge;
    let whole = lead + name + tail;
    let a = lead_len(name, class);
    lemma_lead_len(name, class);
    if a == name.len() {
        assert forall|i: int| 0 <= i < whole.len() implies class.holds(#[trigger] whole[i]) by {
            if i < lead.len() {
                assert(whole[i] == lead[i]);
            } else if i < lead.len() + name.len() {
                assert(whole[i] == name[i - lead.len()]);
            } else {
                assert(whole[i] == tail[i - lead.len() - name.len()]);
            }
        }
        lemma_lead_len_unique(whole, class, whole.len());
        assert(trimmed_start(whole, class) =~= Seq::<char>::empty());
        assert(trimmed_start(name, class) =~= Seq::<char>::empty());
    } else {
        let n = lead.len() + a;
        assert forall|i: int| 0 <= i < n implies class.holds(#[trigger] whole[i]) by {
            if i < lead.len() {
                assert(whole[i] == lead[i]);
            } else {
                assert(whole[i] == name[i - lead.len()]);
            }
        }
        assert(whole[n as int] == name[a as int]);
        lemma_lead_len_unique(whole, class, n);
        let rest = trimmed_start(name, class);
        let wide = trimmed_start(whole, class);
        assert(wide =~= rest + tail);
        let b = tail_len(rest, class);
        lemma_tail_len(rest, class);
        if b == rest.len() {
            assert(class.holds(rest[0]));
            assert(rest[0] == name[a as int]);
        }
        let m = tail.len() + b;
        assert forall|i: int| wide.len() - m <= i < wide.len() implies class.holds(
            #[trigger] wide[i],
        ) by {
            if i < rest.len() {
                assert(wide[i] == rest[i]);
            } else {
                assert(wide[i] == tail[i - rest.len()]);
            }
        }
        assert(wide[wide.len() - m - 1] == rest[rest.len() - b - 1]);
        lemma_tail_len_unique(wide, class, m);
        assert(trimmed_end(wide, class) =~= trimmed_end(rest, class));
    }
}

/// The canonical form of a name in ASCII: small letters, without the punctuation and white space
/// round it.
pub open spec fn ascii_canonical(name: Seq<char>) -> Seq<char> {
    ascii_lowercase(trimmed(name, CharClass::Edge))
}

proof fn lemma_case_keeps_edges(s: Seq<char>, t: Seq<char>)
    requires
        s.len() == t.len(),
        forall|i: int|
            0 <= i < s.len() ==> CharClass::Edge.holds(#[trigger] s[i]) == CharClass::Edge.holds(
                t[i],
            ),
    ensures
        trimmed(s, CharClass::Edge).len() == trimmed(t, CharClass::Edge).len(),
        lead_len(s, CharClass::Edge) + trimmed(s, CharClass::Edge).len() <= s.len(),
        forall|i: int|
            0 <= i < trimmed(s, CharClass::Edge).len() ==> {
                &&& #[trigger] trimmed(s, CharClass::Edge)[i] == s[i + lead_len(s, CharClass::Edge)]
                &&& trimmed(t, CharClass::Edge)[i] == t[i + lead_len(s, CharClass::Edge)]
            },
{
    let class = CharClass::Edge;
    lemma_lead_len(s, class);
    let n = lead_len(s, class);
    assert forall|i: int| 0 <= i < n implies class.holds(#[trigger] t[i]) by {
        assert(class.holds(s[i]));
    }
    if n < t.len() {
        assert(!class.holds(s[n as int]));
    }
    lemma_lead_len_unique(t, class, n);
    let a = trimmed_start(s, class);
    let b = trimmed_start(t, class);
    lemma_tail_len(a, class);
    let m = tail_len(a, class);
    assert forall|i: int| b.len() - m <= i < b.len() implies class.holds(#[trigger] b[i]) by {
        assert(class.holds(a[i]));
        assert(a[i] == s[i + n] && b[i] == t[i + n]);
    }
    if m < b.len() {
        let k = b.len() - m - 1;
        assert(!class.holds(a[k]));
        assert(a[k] == s[k + n] && b[k] == t[k + n]);
    }
    lemma_tail_len_unique(b, class, m);
}

/// Whether a name neither starts nor ends with punctuation or white space.
pub open spec fn has_no_edges(name: Seq<char>) -> bool {
    name.len() > 0 ==> !CharClass::Edge.holds(name[0]) && !CharClass::Edge.holds(name.last())
}

proof fn lemma_trimmed_has_no_edges(name: Seq<char>)
    ensures
        has_no_edges(trimmed(name, CharClass::Edge)),
{
    let class = CharClass::Edge;
    lemma_lead_len(name, class);
    let rest = trimmed_start(name, class);
    lemma_tail_len(rest, class);
    let t = trimmed(name, class);
    if t.len() > 0 {
        assert(t[0] == name[lead_len(name, class) as int]);
        assert(t.last() == rest[rest.len() - tail_len(rest, class) - 1]);
    }
}

proof fn lemma_no_edges_to_trim(name: Seq<char>)
    requires
        has_no_edges(name),
    ensures
        trimmed(name, CharClass::Edge) == name,
{
    let class = CharClass::Edge;
    lemma_lead_len_unique(name, class, 0);
    assert(trimmed_start(name, class) =~= name);
    lemma_tail_len_unique(name, class, 0);
    assert(trimmed_end(name, class) =~= name);
}

proof fn lemma_lower_has_no_edges(name: Seq<char>)
    requires
        has_no_edges(name),
    ensures
        has_no_edges(ascii_lowercase(name)),
{
}

/// In ASCII, a canonical name is its own canonical name, it does not matter in which case a name
/// is written, and no punctuation or white space is left round it. Any name has the canonical name
/// of what is left of it without the punctuation and white space round it; and where lowercasing
/// that once more changes nothing and brings none of them back, the canonical name is its own
/// canonical name.
pub proof fn law_canonical_names_are_stable(name: Seq<char>)
    ensures
        ascii_canonical(ascii_canonical(name)) == ascii_canonical(name),
        ascii_canonical(ascii_uppercase(name)) == ascii_canonical(name),
        ascii_canonical(ascii_lowercase(name)) == ascii_canonical(name),
        has_no_edges(ascii_canonical(name)),
        canonical(trimmed(name, CharClass::Edge)) == canonical(name),
        lowercase(canonical(name)) == canonical(name) && has_no_edges(canonical(name))
            ==> canonical(canonical(name)) == canonical(name),
{
    let class = CharClass::Edge;
    let t = trimmed(name, class);
    let c = ascii_canonical(name);
    lemma_trimmed_has_no_edges(name);
    lemma_lower_has_no_edges(t);
    lemma_no_edges_to_trim(t);
    if has_no_edges(canonical(name)) {
        lemma_no_edges_to_trim(canonical(name));
    }
    lemma_no_edges_to_trim(c);
    assert(ascii_lowercase(c) =~= c);
    let upper = ascii_uppercase(name);
    lemma_case_keeps_edges(name, upper);
    assert forall|i: int| 0 <= i < c.len() implies #[trigger] ascii_canonical(upper)[i] == c[i] by {
        assert(t[i] == name[i + lead_len(name, class)]);
    }
    assert(ascii_canonical(upper) =~= c);
    let lower = ascii_lowercase(name);
    lemma_case_keeps_edges(name, lower);
    assert forall|i: int| 0 <= i < c.len() implies #[trigger] ascii_canonical(lower)[i] == c[i] by {
        assert(t[i] == name[i + lead_len(name, class)]);
    }
    assert(ascii_canonical(lower) =~= c);
}

/// Fences that are all closed again do not reach into what follows.
proof fn lemma_prose_concat(u: Seq<Seq<char>>, v: Seq<Seq<char>>, n: int)
    requires
        0 <= n <= v.len(),
    ensures
        fenced_at(u + v, u.len() as int) == fenced_at(u, u.len() as int),
        prose_upto(u + v, u.len() as int) == prose_upto(u, u.len() as int),
        !fenced_at(u, u.len() as int) ==> {
            &&& fenced_at(u + v, u.len() + n) == fenced_at(v, n)
            &&& prose_upto(u + v, u.len() + n) == prose_upto(u, u.len() as int) + prose_upto(v, n)
        },
    decreases n,
{
    lemma_prose_prefix(u, u + v, u.len() as int);
    if n > 0 {
        lemma_prose_concat(u, v, n - 1);
        assert((u + v)[u.len() + n - 1] == v[n - 1]);
        assert(prose_upto(u, u.len() as int) + (prose_upto(v, n - 1) + v[n - 1].push('\n'))
            =~= prose_upto(u, u.len() as int) + prose_upto(v, n - 1) + v[n - 1].push('\n'));
    } else {
        assert(prose_upto(u, u.len() as int) + prose_upto(v, 0) =~= prose_upto(u, u.len() as int));
    }
}

proof fn lemma_prose_prefix(a: Seq<Seq<char>>, b: Seq<Seq<char>>, n: int)
    requires
        n <= a.len(),
        n <= b.len(),
        forall|i: int| 0 <= i < n ==> #[trigger] a[i] == b[i],
    ensures
        fenced_at(a, n) == fenced_at(b, n),
        prose_upto(a, n) == prose_upto(b, n),
    decreases n,
{
    if n > 0 {
        lemma_prose_prefix(a, b, n - 1);
        assert(a[n - 1] == b[n - 1]);
    }
}

/// The lines of a fenced block.
pub open spec fn block(open: Seq<char>, inside: Seq<Seq<char>>, close: Seq<char>) -> Seq<Seq<char>> {
    seq![open] + inside + seq![close]
}

/// Whether lines are a fenced block: a fence, lines that are none, and a fence.
pub open spec fn is_block(open: Seq<char>, inside: Seq<Seq<char>>, close: Seq<char>) -> bool {
    &&& is_fence(open)
    &&& is_fence(close)
    &&& forall|i: int| 0 <= i < inside.len() ==> !is_fence(#[trigger] inside[i])
}

proof fn lemma_block(open: Seq<char>, inside: Seq<Seq<char>>, close: Seq<char>, n: int)
    requires
        is_block(open, inside, close),
        0 <= n <= inside.len() + 2,
    ensures
        fenced_at(block(open, inside, close), n) == (0 < n < inside.len() + 2),
        prose_upto(block(open, inside, close), n) == Seq::<char>::empty(),
    decreases n,
{
    if n > 0 {
        lemma_block(open, inside, close, n - 1);
        let all = block(open, inside, close);
        if n == 1 {
            assert(all[0] == open);
        } else if n <= inside.len() + 1 {
            assert(all[n - 1] == inside[n - 2]);
        } else {
            assert(all[n - 1] == close);
        }
    }
}

proof fn lemma_block_is_no_prose(
    all: Seq<Seq<char>>,
    before: Seq<Seq<char>>,
    open: Seq<char>,
    inside: Seq<Seq<char>>,
    close: Seq<char>,
    behind: Seq<Seq<char>>,
)
    requires
        all == before + block(open, inside, close) + behind,
        is_block(open, inside, close),
        !fenced_at(before, before.len() as int),
    ensures
        prose_upto(all, all.len() as int) == prose_upto(before, before.len() as int) + prose_upto(
            behind,
            behind.len() as int,
        ),
{
    let mid = block(open, inside, close);
    lemma_block(open, inside, close, mid.len() as int);
    lemma_prose_concat(before, mid, mid.len() as int);
    lemma_prose_concat(before + mid, behind, behind.len() as int);
    assert(prose_upto(before, before.len() as int) + Seq::<char>::empty() =~= prose_upto(
        before,
        before.len() as int,
    ));
}

/// A fenced block never counts, whatever stands in it and however long it is: two notes that
/// differ only between a fence and the fence that closes it say the same.
pub proof fn law_fenced_block_never_counts(
    a: Seq<char>,
    b: Seq<char>,
    before: Seq<Seq<char>>,
    open: Seq<char>,
    inside_a: Seq<Seq<char>>,
    inside_b: Seq<Seq<char>>,
    close: Seq<char>,
    behind: Seq<Seq<char>>,
    names: Seq<Seq<char>>,
)
    requires
        lines(without_frontmatter(a)) == before + block(open, inside_a, close) + behind,
        lines(without_frontmatter(b)) == before + block(open, inside_b, close) + behind,
        is_block(open, inside_a, close),
        is_block(open, inside_b, close),
        !fenced_at(before, before.len() as int),
    ensures
        prose_of(a) == prose_of(b),
        extraction_of(a, names) == extraction_of(b, names),
{
    let all_a = lines(without_frontmatter(a));
    let all_b = lines(without_frontmatter(b));
    lemma_block_is_no_prose(all_a, before, open, inside_a, close, behind);
    lemma_block_is_no_prose(all_b, before, open, inside_b, close, behind);
}

/// The prose lines among the first `n` lines, as they are read back.
spec fn prose_lines(lines: Seq<Seq<char>>, n: int) -> Seq<Seq<char>>
    decreases n,
{
    if n <= 0 {
        Seq::empty()
    } else if is_prose_line(lines, n - 1) {
        prose_lines(lines, n - 1).push(without_ending(lines[n - 1].push('\n')))
    } else {
        prose_lines(lines, n - 1)
    }
}

proof fn lemma_prose_lines(all: Seq<Seq<char>>, n: int)
    requires
        0 <= n <= all.len(),
        forall|i: int| 0 <= i < all.len() ==> !(#[trigger] all[i]).contains('\n'),
    ensures
        lines(prose_upto(all, n)) == prose_lines(all, n),
        prose_upto(all, n).len() > 0 ==> prose_upto(all, n).last() == '\n',
        forall|i: int| 0 <= i < prose_lines(all, n).len() ==> !is_fence(
            #[trigger] prose_lines(all, n)[i],
        ),
    decreases n,
{
    if n > 0 {
        lemma_prose_lines(all, n - 1);
        if is_prose_line(all, n - 1) {
            let line = all[n - 1];
            assert(!line.contains('\n'));
            lemma_one_line(line);
            lemma_segments_concat(prose_upto(all, n - 1), line.push('\n'));
            assert(lines(prose_upto(all, n)) =~= prose_lines(all, n));
            let kept = without_ending(line.push('\n'));
            assert(!is_fence(kept)) by {
                reveal_strlit("```");
                lemma_lead_len(kept, CharClass::White);
                let k = lead_len(kept, CharClass::White);
                if is_fence(kept) {
                    assert(kept.skip(k as int).take(3).len() == 3);
                    assert forall|j: int| 0 <= j < kept.len() implies kept[j] == #[trigger] line[j] by {}
                    assert forall|j: int| 0 <= j < k implies CharClass::White.holds(
                        #[trigger] line[j],
                    ) by {
                        assert(CharClass::White.holds(kept[j]));
                    }
                    assert(line[k as int] == kept[k as int]);
                    lemma_lead_len_unique(line, CharClass::White, k);
                    assert(line.skip(k as int).take(3) =~= kept.skip(k as int).take(3));
                }
            }
        }
    } else {
        assert(lines(prose_upto(all, n)) =~= prose_lines(all, n));
    }
}

proof fn lemma_prose_again(all: Seq<Seq<char>>, n: int)
    requires
        0 <= n <= all.len(),
        forall|i: int| 0 <= i < all.len() ==> !(#[trigger] all[i]).contains('\r'),
        forall|i: int| 0 <= i < prose_lines(all, n).len() ==> !is_fence(
            #[trigger] prose_lines(all, n)[i],
        ),
    ensures
        !fenced_at(prose_lines(all, n), prose_lines(all, n).len() as int),
        prose_upto(prose_lines(all, n), prose_lines(all, n).len() as int) == prose_upto(all, n),
    decreases n,
{
    if n > 0 {
        let now = prose_lines(all, n);
        let rest = prose_lines(all, n - 1);
        if is_prose_line(all, n - 1) {
            let line = all[n - 1];
            assert(!line.contains('\r'));
            assert(without_ending(line.push('\n')) =~= line) by {
                if line.len() > 0 {
                    assert(line.push('\n')[line.len() - 1] == line[line.len() - 1]);
                    assert(line[line.len() - 1] != '\r');
                }
            }
            assert forall|i: int| 0 <= i < rest.len() implies !is_fence(#[trigger] rest[i]) by {
                assert(now[i] == rest[i]);
            }
            lemma_prose_again(all, n - 1);
            assert forall|i: int| 0 <= i < rest.len() implies #[trigger] now[i] == rest[i] by {}
            lemma_prose_prefix(now, rest, rest.len() as int);
            assert(now[rest.len() as int] == line);
            assert(!is_fence(now[rest.len() as int]));
        } else {
            lemma_prose_again(all, n - 1);
        }
    }
}

/// No line holds a character that the text does not hold.
proof fn lemma_line_chars(s: Seq<char>, c: char)
    requires
        !s.contains(c),
    ensures
        forall|i: int| 0 <= i < lines(s).len() ==> !(#[trigger] lines(s)[i]).contains(c),
    decreases s.len(),
{
    lemma_place_of(s, '\n');
    let n = place_of(s, '\n') as int;
    if s.len() > 0 {
        let first = if n < s.len() {
            s.take(n + 1)
        } else {
            s
        };
        let rest = if n < s.len() {
            s.skip(n + 1)
        } else {
            Seq::empty()
        };
        assert(segments(s)[0] == first);
        if n < s.len() {
            if rest.contains(c) {
                let j = choose|j: int| 0 <= j < rest.len() && rest[j] == c;
                assert(s[n + 1 + j] == c);
            }
            lemma_line_chars(rest, c);
        }
        assert forall|i: int| 0 <= i < lines(s).len() implies !(#[trigger] lines(s)[i]).contains(
            c,
        ) by {
            if i == 0 {
                let line = lines(s)[0];
                if line.contains(c) {
                    let j = choose|j: int| 0 <= j < line.len() && line[j] == c;
                    assert(s[j] == c);
                }
            } else {
                assert(segments(s)[i] == segments(rest)[i - 1]);
                assert(lines(s)[i] == lines(rest)[i - 1]);
            }
        }
    }
}

/// What is left without the fenced blocks has no fence line, and stripping it again changes
/// nothing (but for carriage returns at line ends, which are taken for a part of the ending).
pub proof fn law_stripping_leaves_no_fence(body: Seq<char>)
    ensures
        forall|i: int|
            0 <= i < lines(without_fences(body)).len() ==> !is_fence(
                #[trigger] lines(without_fences(body))[i],
            ),
        !body.contains('\r') ==> without_fences(without_fences(body)) == without_fences(body),
{
    let all = lines(body);
    let n = all.len() as int;
    lemma_lines_have_no_newline(body);
    lemma_prose_lines(all, n);
    if !body.contains('\r') {
        lemma_line_chars(body, '\r');
        lemma_prose_again(all, n);
    }
}

/// Stripping goes block by block: behind complete lines with all fences closed, what follows is
/// stripped as if it stood alone.
pub proof fn law_stripping_goes_block_by_block(a: Seq<char>, b: Seq<char>)
    requires
        a.len() > 0 ==> a.last() == '\n',
        !fenced_at(lines(a), lines(a).len() as int),
    ensures
        without_fences(a + b) == without_fences(a) + without_fences(b),
{
    lemma_segments_concat(a, b);
    lemma_prose_concat(lines(a), lines(b), lines(b).len() as int);
}

/// A text of complete lines without a fence, and without carriage returns, stays as it is.
pub proof fn law_plain_text_is_kept(body: Seq<char>)
    requires
        body.len() > 0 ==> body.last() == '\n',
        !body.contains('\r'),
        forall|i: int| 0 <= i < lines(body).len() ==> !is_fence(#[trigger] lines(body)[i]),
    ensures
        without_fences(body) == body,
    decreases body.len(),
{
    if body.len() == 0 {
        assert(without_fences(body) =~= body);
    } else {
        lemma_place_of(body, '\n');
        let n = place_of(body, '\n') as int;
        if n == body.len() {
            assert(body[body.len() - 1] != '\n');
        }
        let line = body.take(n);
        let first = body.take(n + 1);
        let rest = body.skip(n + 1);
        assert(first =~= line.push('\n'));
        assert(!line.contains('\n')) by {
            if line.contains('\n') {
                let j = choose|j: int| 0 <= j < n && line[j] == '\n';
                assert(body[j] == '\n');
            }
        }
        lemma_one_line(line);
        assert(without_ending(first) =~= line) by {
            if n > 0 && first[n - 1] == '\r' {
                assert(body[n - 1] == '\r');
            }
        }
        lemma_segments_concat(first, rest);
        assert(first + rest =~= body);
        assert(lines(first) == seq![line]);
        assert(lines(body)[0] == line);
        assert forall|i: int| 0 <= i < lines(rest).len() implies !is_fence(
            #[trigger] lines(rest)[i],
        ) by {
            assert(lines(body)[i + 1] == lines(rest)[i]);
        }
        assert(!rest.contains('\r')) by {
            if rest.contains('\r') {
                let j = choose|j: int| 0 <= j < rest.len() && rest[j] == '\r';
                assert(body[n + 1 + j] == '\r');
            }
        }
        law_plain_text_is_kept(rest);
        assert(!is_fence(lines(body)[0]));
        reveal_with_fuel(prose_upto, 2);
        reveal_with_fuel(fenced_at, 2);
        assert(seq![line][0] == line);
        assert(prose_upto(seq![line], 1) =~= first);
        lemma_prose_concat(seq![line], lines(rest), lines(rest).len() as int);
    }
}

/// Whether a line closes a frontmatter block does not depend on its ending.
pub proof fn lemma_closes_without_ending(piece: Seq<char>)
    ensures
        closes_frontmatter(without_ending(piece)) == closes_frontmatter(piece),
{
    lemma_trimmed_end_ending(piece);
}

/// A block that closes does so within the text.
pub proof fn lemma_closing_end_fits(s: Seq<char>)
    ensures
        closing_end(segments(s)) matches Some(n) ==> n <= s.len(),
{
    lemma_pieces_len(s);
    lemma_closing_end_within(segments(s));
}

proof fn lemma_closing_end_within(pieces: Seq<Seq<char>>)
    ensures
        closing_end(pieces) matches Some(n) ==> n <= pieces_len(pieces),
    decreases pieces.len(),
{
    if pieces.len() > 0 {
        lemma_closing_end_within(pieces.skip(1));
    }
}

/// A block closes at the first piece that closes it.
proof fn lemma_closing_end(pieces: Seq<Seq<char>>, close: Seq<char>, behind: Seq<Seq<char>>)
    requires
        forall|i: int| 0 <= i < pieces.len() ==> !closes_frontmatter(#[trigger] pieces[i]),
        closes_frontmatter(close),
    ensures
        closing_end(pieces + (seq![close] + behind)) == Some(
            pieces_len(pieces) as int + close.len(),
        ),
    decreases pieces.len(),
{
    let all = pieces + (seq![close] + behind);
    if pieces.len() == 0 {
        assert(all[0] == close);
    } else {
        assert(all[0] == pieces[0]);
        assert(all.skip(1) =~= pieces.skip(1) + (seq![close] + behind));
        assert forall|i: int| 0 <= i < pieces.skip(1).len() implies !closes_frontmatter(
            #[trigger] pieces.skip(1)[i],
        ) by {
            assert(pieces.skip(1)[i] == pieces[i + 1]);
        }
        lemma_closing_end(pieces.skip(1), close, behind);
    }
}

/// Whether a text can stand inside a frontmatter block: complete lines, none of which closes it.
pub open spec fn is_frontmatter(text: Seq<char>) -> bool {
    &&& text.len() > 0 ==> text.last() == '\n'
    &&& forall|i: int| 0 <= i < lines(text).len() ==> !closes_frontmatter(#[trigger] lines(text)[i])
}

/// Frontmatter never counts: whatever stands in the block, it is taken off whole, and notes that
/// differ only in their frontmatter say the same.
pub proof fn law_frontmatter_never_counts(
    a: Seq<char>,
    b: Seq<char>,
    rest: Seq<char>,
    names: Seq<Seq<char>>,
)
    requires
        is_frontmatter(a),
        is_frontmatter(b),
    ensures
        without_frontmatter("---\n"@ + a + "---\n"@ + rest) == rest,
        extraction_of("---\n"@ + a + "---\n"@ + rest, names) == extraction_of(
            "---\n"@ + b + "---\n"@ + rest,
            names,
        ),
{
    lemma_frontmatter_off(a, rest);
    lemma_frontmatter_off(b, rest);
}

proof fn lemma_frontmatter_off(inside: Seq<char>, rest: Seq<char>)
    requires
        is_frontmatter(inside),
    ensures
        without_frontmatter("---\n"@ + inside + "---\n"@ + rest) == rest,
{
    reveal_strlit("---\n");
    reveal_strlit("---");
    let mark = "---\n"@;
    let body = mark + inside + mark + rest;
    assert(body.take(4) =~= mark);
    assert(body.skip(4) =~= inside + (mark + rest));
    lemma_segments_concat(inside, mark + rest);
    lemma_segments_concat(mark, rest);
    assert("---"@.push('\n') =~= mark);
    assert(!"---"@.contains('\n'));
    lemma_one_line("---"@);
    assert(closes_frontmatter(mark)) by {
        lemma_closes_without_ending(mark);
        assert(without_ending(mark) =~= "---"@);
        lemma_tail_len_unique("---"@, CharClass::White, 0);
        assert(trimmed_end("---"@, CharClass::White) =~= "---"@);
    }
    let pieces = segments(inside);
    assert forall|i: int| 0 <= i < pieces.len() implies !closes_frontmatter(#[trigger] pieces[i]) by {
        lemma_closes_without_ending(pieces[i]);
        assert(!closes_frontmatter(lines(inside)[i]));
    }
    lemma_closing_end(pieces, mark, segments(rest));
    lemma_pieces_len(inside);
    assert(segments(body.skip(4)) == pieces + (seq![mark] + segments(rest)));
    assert(body.skip(4 + (inside.len() as int + 4)) =~= rest);
}

/// Whether two texts have the same lines but for the insides of their fenced blocks.
pub open spec fn same_outside_fences(a: Seq<Seq<char>>, b: Seq<Seq<char>>) -> bool {
    &&& a.len() == b.len()
    &&& forall|i: int|
        0 <= i < a.len() ==> #[trigger] a[i] == b[i] || fenced_at(a, i) && !is_fence(a[i])
            && !is_fence(b[i])
}

proof fn lemma_same_fences(a: Seq<Seq<char>>, b: Seq<Seq<char>>, n: int)
    requires
        same_outside_fences(a, b),
        0 <= n <= a.len(),
    ensures
        fenced_at(a, n) == fenced_at(b, n),
        prose_upto(a, n) == prose_upto(b, n),
        section_at(a, n) == section_at(b, n),
        item_open_at(a, n) == item_open_at(b, n),
        loops_upto(a, n) == loops_upto(b, n),
    decreases n,
{
    if n > 0 {
        lemma_same_fences(a, b, n - 1);
        assert(a[n - 1] == b[n - 1] || fenced_at(a, n - 1) && !is_fence(a[n - 1]) && !is_fence(
            b[n - 1],
        ));
    }
}

/// What stands inside fenced code blocks never counts: it changes neither the prose nor the open
/// loops.
pub proof fn law_fenced_text_never_counts(a: Seq<char>, b: Seq<char>)
    requires
        same_outside_fences(lines(a), lines(b)),
    ensures
        without_fences(a) == without_fences(b),
        loops_of(a) == loops_of(b),
{
    lemma_same_fences(lines(a), lines(b), lines(a).len() as int);
}

/// Neither frontmatter nor fenced code is read for links, spans and mentions: notes with the same
/// prose say the same.
pub proof fn law_only_prose_counts(a: Seq<char>, b: Seq<char>, names: Seq<Seq<char>>)
    requires
        same_outside_fences(lines(without_frontmatter(a)), lines(without_frontmatter(b))),
    ensures
        extraction_of(a, names) == extraction_of(b, names),
{
    law_fenced_text_never_counts(without_frontmatter(a), without_frontmatter(b));
}

/// A closed frontmatter block is taken off whole, and the rest of the note stays as it is.
pub proof fn law_frontmatter_is_taken_off(head: Seq<char>, tail: Seq<char>)
    requires
        frontmatter_opening(head + tail) matches Some(k) && closing_end(
            segments((head + tail).skip(k)),
        ) == Some(head.len() - k),
    ensures
        without_frontmatter(head + tail) == tail,
{
    assert((head + tail).skip(head.len() as int) =~= tail);
}

/// Every open loop stands on a line with an unchecked box, outside fenced blocks; checked boxes
/// and plain bullets are no loops.
pub proof fn law_loops_are_unchecked_boxes(body: Seq<char>, n: int)
    requires
        0 <= n <= lines(body).len(),
    ensures
        forall|k: int|
            0 <= k < loops_upto(lines(body), n).len() ==> {
                let at = (#[trigger] loops_upto(lines(body), n)[k]).line;
                &&& 0 <= at < n
                &&& is_prose_line(lines(body), at)
                &&& is_checkbox(lines(body)[at])
                &&& checkbox_mark(lines(body)[at]) == ' '
            },
        forall|at: int|
            0 <= at < n && is_prose_line(lines(body), at) && !is_header(#[trigger] lines(body)[at])
                && is_checkbox(lines(body)[at]) && checkbox_mark(lines(body)[at]) == ' '
                ==> exists|k: int|
                0 <= k < loops_upto(lines(body), n).len() && (#[trigger] loops_upto(
                    lines(body),
                    n,
                )[k]).line == at,
        item_open_at(lines(body), n) ==> loops_upto(lines(body), n).len() > 0,
    decreases n,
{
    let all = lines(body);
    if n > 0 {
        law_loops_are_unchecked_boxes(body, n - 1);
        let rest = loops_upto(all, n - 1);
        let now = loops_upto(all, n);
        assert(now.len() >= rest.len());
        assert forall|k: int| 0 <= k < rest.len() implies (#[trigger] now[k]).line
            == rest[k].line by {}
        assert forall|k: int| 0 <= k < now.len() implies {
            let at = (#[trigger] now[k]).line;
            &&& 0 <= at < n
            &&& is_prose_line(all, at)
            &&& is_checkbox(all[at])
            &&& checkbox_mark(all[at]) == ' '
        } by {
            if k < rest.len() {
                assert(now[k].line == rest[k].line);
            }
        }
        assert forall|at: int|
            0 <= at < n && is_prose_line(all, at) && !is_header(#[trigger] all[at]) && is_checkbox(
                all[at],
            ) && checkbox_mark(all[at]) == ' ' implies exists|k: int|
            0 <= k < now.len() && (#[trigger] now[k]).line == at by {
            if at < n - 1 {
                let k = choose|k: int| 0 <= k < rest.len() && (#[trigger] rest[k]).line == at;
                assert(now[k].line == at);
            } else {
                assert(now[rest.len() as int].line == at);
            }
        }
    }
}

} // verus!
