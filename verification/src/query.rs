//! Questions that the index answers.

use vstd::prelude::*;

use crate::extract::{canonical, canonicalize};
use crate::graph::{edge_ends, end_ok, ends_ok, find_named, first_named};
use crate::dates::{parse_day, parsed_day};
use crate::json::{field, json_field, json_text_field, text_field};
use crate::order::{
    is_order, keys_ok, order_of, ordered, places, stable_order, text_le, text_not_after, KeyModel,
    KeyPart, PartModel, SortKey,
};
use crate::select::{arrange, lemma_ordered, lemma_picked, pick, picked};
use crate::store::{
    copy_text, find_node, find_note, has_node, has_note, index_ok, lemma_node_place,
    lemma_note_place, node_by_id, EdgeModel, Index, IndexModel, Node, NodeModel, NoteModel, NoteRow,
};
use crate::text::{
    ascii_lower, ascii_lowercase, boundary, byte_len, bytes_in, cat3, chars_of, contains_text,
    find_boundary, find_char, find_from, find_text, has_text, lemma_find_from, lowercase, part_of,
    place_of, replace_char, replaced, same_text, text_of, trim, trim_text,
};

verus! {

/// Why a question cannot be answered.
#[derive(Clone, Copy, Debug, PartialEq, Eq, Structural)]
pub enum QueryError {
    /// A note that would be listed has no path.
    NoPath,
    /// The search term is too long.
    TermTooLong,
    /// The place of the search term in the lowercase text is no place in the text itself.
    NoSnippet,
}

/// A note that a search found.
#[derive(Debug)]
pub struct SearchHit {
    pub path: String,
    pub note_date: Option<String>,
    pub snippet: String,
}

/// The value of a `SearchHit`.
pub struct HitModel {
    pub path: Seq<char>,
    pub note_date: Option<Seq<char>>,
    pub snippet: Seq<char>,
}

impl DeepView for SearchHit {
    type V = HitModel;

    open spec fn deep_view(&self) -> HitModel {
        HitModel {
            path: self.path@,
            note_date: self.note_date.deep_view(),
            snippet: self.snippet@,
        }
    }
}

/// Whether a pattern with wildcards matches a whole text: `%` stands for any characters, `_` for
/// any one, and ASCII letters match in either case.
pub open spec fn like(pattern: Seq<char>, text: Seq<char>) -> bool
    decreases pattern.len() + text.len(),
{
    if pattern.len() == 0 {
        text.len() == 0
    } else if pattern[0] == '%' {
        like(pattern.skip(1), text) || text.len() > 0 && like(pattern, text.skip(1))
    } else {
        text.len() > 0 && (pattern[0] == '_' || ascii_lower(pattern[0]) == ascii_lower(text[0]))
            && like(pattern.skip(1), text.skip(1))
    }
}

fn lower_char(c: char) -> (r: char)
    ensures
        r == ascii_lower(c),
{
    if 'A' <= c && c <= 'Z' {
        ((c as u32) as u8 + 32) as char
    } else {
        c
    }
}

/// Whether `row` and `end` say which tails of a text a pattern matches; `end` is the empty tail.
spec fn tails(pattern: Seq<char>, text: Seq<char>, row: Seq<bool>, end: bool) -> bool {
    &&& row.len() == text.len()
    &&& forall|j: int| 0 <= j < row.len() ==> #[trigger] row[j] == like(pattern, text.skip(j))
    &&& end == like(pattern, Seq::<char>::empty())
}

/// The tails that a pattern matches whose first character is `%`, from those of the rest of it.
fn tails_any(text: &Vec<char>, row: Vec<bool>, end: bool, Ghost(pattern): Ghost<Seq<char>>) -> (r: Vec<
    bool,
>)
    requires
        pattern.len() > 0,
        pattern[0] == '%',
        tails(pattern.skip(1), text@, row@, end),
    ensures
        tails(pattern, text@, r@, end),
{
    let ghost rest = pattern.skip(1);
    let ghost old_row = row@;
    let mut now = row;
    let mut j: usize = text.len();
    while j > 0
        invariant
            j <= text@.len(),
            now@.len() == text@.len(),
            pattern.len() > 0,
            pattern[0] == '%',
            rest == pattern.skip(1),
            tails(rest, text@, old_row, end),
            forall|k: int| j <= k < now@.len() ==> #[trigger] now@[k] == like(pattern, text@.skip(k)),
            forall|k: int| 0 <= k < j ==> #[trigger] now@[k] == old_row[k],
        decreases j,
    {
        j = j - 1;
        let behind = if j < text.len() - 1 {
            now[j + 1]
        } else {
            end
        };
        assert(text@.skip(j as int).skip(1) =~= text@.skip(j + 1));
        assert(like(pattern, Seq::<char>::empty()) == end);
        if j == text.len() - 1 {
            assert(text@.skip(j + 1) =~= Seq::<char>::empty());
        }
        let here = now[j] || behind;
        now.set(j, here);
    }
    now
}

/// The tails that a pattern matches whose first character is not `%`, from those of the rest of it.
fn tails_one(text: &Vec<char>, row: Vec<bool>, end: bool, first: char, Ghost(pattern): Ghost<Seq<char>>) -> (r:
    Vec<bool>)
    requires
        pattern.len() > 0,
        pattern[0] == first,
        first != '%',
        tails(pattern.skip(1), text@, row@, end),
    ensures
        tails(pattern, text@, r@, false),
{
    let ghost rest = pattern.skip(1);
    let ghost old_row = row@;
    let folded = lower_char(first);
    let mut now = row;
    let mut j: usize = 0;
    while j < text.len()
        invariant
            j <= text@.len(),
            now@.len() == text@.len(),
            pattern.len() > 0,
            pattern[0] == first,
            first != '%',
            folded == ascii_lower(first),
            rest == pattern.skip(1),
            tails(rest, text@, old_row, end),
            forall|k: int| 0 <= k < j ==> #[trigger] now@[k] == like(pattern, text@.skip(k)),
            forall|k: int| j <= k < now@.len() ==> #[trigger] now@[k] == old_row[k],
        decreases text@.len() - j,
    {
        let behind = if j < text.len() - 1 {
            now[j + 1]
        } else {
            end
        };
        assert(text@.skip(j as int).skip(1) =~= text@.skip(j + 1));
        assert(text@.skip(j as int)[0] == text@[j as int]);
        if j == text.len() - 1 {
            assert(text@.skip(j + 1) =~= Seq::<char>::empty());
        }
        let here = (first == '_' || folded == lower_char(text[j])) && behind;
        now.set(j, here);
        j += 1;
    }
    now
}

/// Whether a pattern with wildcards matches a whole text.
pub fn is_like(pattern: &Vec<char>, text: &Vec<char>) -> (r: bool)
    ensures
        r == like(pattern@, text@),
{
    let mut row: Vec<bool> = Vec::new();
    let mut j: usize = 0;
    while j < text.len()
        invariant
            j <= text@.len(),
            row@.len() == j,
            forall|k: int| 0 <= k < j ==> !#[trigger] row@[k],
        decreases text@.len() - j,
    {
        row.push(false);
        j += 1;
    }
    let mut end = true;
    let mut i: usize = pattern.len();
    assert(pattern@.skip(i as int) =~= Seq::<char>::empty());
    assert(tails(pattern@.skip(i as int), text@, row@, end));
    while i > 0
        invariant
            i <= pattern@.len(),
            tails(pattern@.skip(i as int), text@, row@, end),
        decreases i,
    {
        i = i - 1;
        let first = pattern[i];
        let ghost here = pattern@.skip(i as int);
        assert(here.skip(1) =~= pattern@.skip(i + 1));
        assert(here[0] == first);
        if first == '%' {
            row = tails_any(text, row, end, Ghost(here));
        } else {
            row = tails_one(text, row, end, first, Ghost(here));
            end = false;
        }
    }
    assert(pattern@.skip(0) =~= pattern@);
    assert(text@.skip(0) =~= text@);
    if text.len() == 0 {
        assert(text@ =~= Seq::<char>::empty());
        end
    } else {
        row[0]
    }
}

/// A text up to its first NUL character.
pub open spec fn until_nul(s: Seq<char>) -> Seq<char> {
    s.take(place_of(s, '\0') as int)
}

fn cut_at_nul(chars: &Vec<char>) -> (r: Vec<char>)
    ensures
        r@ == until_nul(chars@),
{
    let n = find_char(chars, '\0');
    let r = part_of(chars, 0, n);
    assert(r@ =~= until_nul(chars@));
    r
}

/// The pattern that finds a lowercase term anywhere.
pub open spec fn anywhere(lower: Seq<char>) -> Seq<char> {
    "%"@ + lower + "%"@
}

/// Whether a note body is found by a lowercase term. `%` and `_` in the term are wildcards.
pub open spec fn finds(lower: Seq<char>, body: Seq<char>) -> bool {
    like(until_nul(anywhere(lower)), until_nul(ascii_lowercase(body)))
}

fn lower_chars(chars: &Vec<char>) -> (r: Vec<char>)
    ensures
        r@ == ascii_lowercase(chars@),
{
    let mut out: Vec<char> = Vec::new();
    let mut i: usize = 0;
    while i < chars.len()
        invariant
            i <= chars@.len(),
            out@ == ascii_lowercase(chars@).take(i as int),
        decreases chars@.len() - i,
    {
        out.push(lower_char(chars[i]));
        assert(ascii_lowercase(chars@).take(i + 1) =~= ascii_lowercase(chars@).take(i as int).push(
            ascii_lower(chars@[i as int]),
        ));
        i += 1;
    }
    assert(ascii_lowercase(chars@).take(chars@.len() as int) =~= ascii_lowercase(chars@));
    out
}

fn found_in(lower: &str, body: &str) -> (r: bool)
    ensures
        r == finds(lower@, body@),
{
    let pattern = chars_of(&cat3("%", lower, "%"));
    is_like(&cut_at_nul(&pattern), &cut_at_nul(&lower_chars(&chars_of(body))))
}

/// Whether the place of a term in a lowercase text is a place in the text itself.
pub open spec fn snippet_fits(body: Seq<char>, lower: Seq<char>, term: Seq<char>) -> bool {
    match find_from(lower, term, 0) {
        Some(i) => boundary(body, byte_len(lower.take(i))) is Some,
        None => true,
    }
}

/// The part of a text round the place of a term: about sixty characters on either side, on one
/// line. Empty where the term is not there.
pub open spec fn snippet(body: Seq<char>, lower: Seq<char>, term: Seq<char>) -> Seq<char> {
    match find_from(lower, term, 0) {
        None => ""@,
        Some(i) => {
            let at = boundary(body, byte_len(lower.take(i)))->0;
            let start = if at >= 61 {
                at - 61
            } else {
                0
            };
            let end = if at + byte_len(term) + 60 < body.len() {
                at + byte_len(term) + 60
            } else {
                body.len() as int
            };
            trim(replaced(body.subrange(start, end), '\n', " "@))
        },
    }
}

/// The part of a text round a term, given the lowercase forms of the text and the term.
pub fn snippet_around(body: &str, lower: &str, term_lower: &str) -> (r: String)
    requires
        snippet_fits(body@, lower@, term_lower@),
    ensures
        r@ == snippet(body@, lower@, term_lower@),
{
    let chars = chars_of(body);
    let low = chars_of(lower);
    let term = chars_of(term_lower);
    proof {
        lemma_find_from(low@, term@, 0);
    }
    match find_text(&low, &term, 0) {
        None => "".to_owned(),
        Some(i) => {
            let before = part_of(&low, 0, i);
            assert(before@ =~= lower@.take(i as int));
            let pos = bytes_in(&text_of(&before));
            match find_boundary(&chars, pos) {
                None => "".to_owned(),
                Some(at) => {
                    let n = chars.len();
                    let start: usize = if at >= 61 {
                        at - 61
                    } else {
                        0
                    };
                    let room = n - at;
                    let bytes = bytes_in(term_lower);
                    let end: usize = if room > 60 && bytes < room - 60 {
                        at + bytes + 60
                    } else {
                        n
                    };
                    let part = text_of(&part_of(&chars, start, end));
                    trim_text(&replace_char(&part, '\n', " "))
                },
            }
        },
    }
}

/// Whether a snippet can be cut out round a term.
fn fits(body: &str, lower: &str, term_lower: &str) -> (r: bool)
    ensures
        r == snippet_fits(body@, lower@, term_lower@),
{
    let low = chars_of(lower);
    let term = chars_of(term_lower);
    proof {
        lemma_find_from(low@, term@, 0);
    }
    match find_text(&low, &term, 0) {
        None => true,
        Some(i) => {
            let before = part_of(&low, 0, i);
            assert(before@ =~= lower@.take(i as int));
            let pos = bytes_in(&text_of(&before));
            find_boundary(&chars_of(body), pos).is_some()
        },
    }
}

/// What listed notes are sorted by: newest first, undated ones last.
pub open spec fn newest_first(date: Option<Seq<char>>) -> KeyModel {
    match date {
        Some(d) => seq![PartModel::Num(0), PartModel::TextDown(d)],
        None => seq![PartModel::Num(1)],
    }
}

fn newest_key(date: &Option<String>) -> (r: SortKey)
    ensures
        r.deep_view() == newest_first(date.deep_view()),
{
    let mut parts: Vec<KeyPart> = Vec::new();
    match date {
        Some(d) => {
            parts.push(KeyPart::Num(0));
            parts.push(KeyPart::TextDown(d.clone()));
        },
        None => {
            parts.push(KeyPart::Num(1));
        },
    }
    let key = SortKey { parts };
    assert(key.deep_view() =~= newest_first(date.deep_view()));
    key
}

/// The sort keys of the given notes.
pub open spec fn note_keys(notes: Seq<NoteModel>, picks: Seq<int>) -> Seq<KeyModel> {
    Seq::new(picks.len(), |k: int| newest_first(notes[picks[k]].note_date))
}

/// The flagged notes, newest first.
pub open spec fn by_date(notes: Seq<NoteModel>, flags: Seq<bool>) -> Seq<int> {
    ordered(picked(flags), note_keys(notes, picked(flags)))
}

proof fn lemma_by_date(notes: Seq<NoteModel>, flags: Seq<bool>)
    requires
        flags.len() == notes.len(),
    ensures
        keys_ok(note_keys(notes, picked(flags))),
        by_date(notes, flags).len() == picked(flags).len(),
        forall|k: int|
            0 <= k < by_date(notes, flags).len() ==> 0 <= #[trigger] by_date(notes, flags)[k]
                < notes.len() && flags[by_date(notes, flags)[k]],
        forall|i: int|
            0 <= i < notes.len() ==> (#[trigger] by_date(notes, flags).contains(i) <==> flags[i]),
{
    let picks = picked(flags);
    let keys = note_keys(notes, picks);
    lemma_picked(flags);
    assert(keys_ok(keys));
    lemma_ordered(picks, keys);
    assert forall|i: int| 0 <= i < notes.len() implies (#[trigger] by_date(notes, flags).contains(
        i,
    ) <==> flags[i]) by {
        if flags[i] {
            assert(picks.contains(i));
        }
        if picks.contains(i) {
            let k = choose|k: int| 0 <= k < picks.len() && picks[k] == i;
            assert(flags[picks[k]]);
        }
    }
}

fn by_date_of(notes: &Vec<NoteRow>, flags: &Vec<bool>) -> (r: Vec<usize>)
    requires
        flags@.len() == notes@.len(),
    ensures
        places(r@) == by_date(notes.deep_view(), flags@),
        forall|k: int| 0 <= k < r@.len() ==> #[trigger] r@[k] < notes@.len(),
{
    let ghost all = notes.deep_view();
    let picks = pick(flags);
    let mut keys: Vec<SortKey> = Vec::new();
    let mut k: usize = 0;
    proof {
        lemma_picked(flags@);
        lemma_by_date(all, flags@);
    }
    assert(keys.deep_view() =~= Seq::<KeyModel>::empty());
    while k < picks.len()
        invariant
            k <= picks@.len(),
            all == notes.deep_view(),
            flags@.len() == all.len(),
            places(picks@) == picked(flags@),
            forall|j: int|
                0 <= j < picked(flags@).len() ==> 0 <= #[trigger] picked(flags@)[j] < flags@.len(),
            keys.deep_view() == note_keys(all, places(picks@)).take(k as int),
        decreases picks@.len() - k,
    {
        let ghost before = keys.deep_view();
        assert(places(picks@)[k as int] == picks@[k as int]);
        assert(picked(flags@)[k as int] == picks@[k as int]);
        let row = &notes[picks[k]];
        assert(all[picks@[k as int] as int] == row.deep_view());
        let key = newest_key(&row.note_date);
        keys.push(key);
        assert(keys.deep_view() =~= before.push(key.deep_view()));
        assert(note_keys(all, places(picks@)).take(k + 1) =~= before.push(key.deep_view()));
        k += 1;
    }
    assert(note_keys(all, places(picks@)).take(picks@.len() as int) =~= note_keys(
        all,
        places(picks@),
    ));
    let r = arrange(&picks, &keys);
    proof {
        assert forall|j: int| 0 <= j < r@.len() implies #[trigger] r@[j] < notes@.len() by {
            assert(places(r@)[j] == r@[j]);
            assert(by_date(all, flags@)[j] == r@[j]);
        }
    }
    r
}

/// The path of the node of note row `i`.
pub open spec fn note_path_of(m: IndexModel, i: int) -> Option<Seq<char>> {
    node_by_id(m.nodes, m.notes[i].node_id).path
}

/// Which notes a lowercase term finds.
pub open spec fn found_flags(notes: Seq<NoteModel>, lower: Seq<char>) -> Seq<bool> {
    Seq::new(notes.len(), |i: int| finds(lower, notes[i].body))
}

/// The hit of note row `i`, given the lowercase form of its text.
pub open spec fn hit_of(m: IndexModel, i: int, lower_body: Seq<char>, term: Seq<char>) -> Result<
    HitModel,
    QueryError,
> {
    let row = m.notes[i];
    match note_path_of(m, i) {
        None => Err(QueryError::NoPath),
        Some(path) => if !snippet_fits(row.body, lower_body, term) {
            Err(QueryError::NoSnippet)
        } else {
            Ok(
                HitModel {
                    path,
                    note_date: row.note_date,
                    snippet: snippet(row.body, lower_body, term),
                },
            )
        },
    }
}

/// The hits among the listed notes, from place `from` on.
pub open spec fn hits_from(
    m: IndexModel,
    term: Seq<char>,
    order: Seq<int>,
    from: int,
    before: Seq<HitModel>,
) -> Result<Seq<HitModel>, QueryError>
    decreases order.len() - from,
{
    if from < 0 || from >= order.len() {
        Ok(before)
    } else {
        match hit_of(m, order[from], lowercase(m.notes[order[from]].body), term) {
            Err(e) => Err(e),
            Ok(hit) => hits_from(m, term, order, from + 1, before.push(hit)),
        }
    }
}

/// At most `limit` of a list, from its start.
pub open spec fn limited<T>(items: Seq<T>, limit: usize) -> Seq<T> {
    if items.len() <= limit {
        items
    } else {
        items.take(limit as int)
    }
}

/// Whether the pattern of a lowercase term is longer than patterns may be.
pub open spec fn too_long(lower: Seq<char>) -> bool {
    byte_len(lower) + 2 > 50_000
}

/// The notes that a lowercase term finds, newest first and no more than the limit.
pub open spec fn found_order(m: IndexModel, lower: Seq<char>, limit: usize) -> Seq<int> {
    limited(by_date(m.notes, found_flags(m.notes, lower)), limit)
}

/// What a search for a lowercase term finds: the notes whose text matches, newest first.
pub open spec fn hits_of(m: IndexModel, lower: Seq<char>, limit: usize) -> Result<
    Seq<HitModel>,
    QueryError,
> {
    if limit > 0 && m.notes.len() > 0 && too_long(lower) {
        Err(QueryError::TermTooLong)
    } else {
        hits_from(m, lower, found_order(m, lower, limit), 0, Seq::empty())
    }
}

fn found_flags_of(notes: &Vec<NoteRow>, lower: &str) -> (r: Vec<bool>)
    ensures
        r@ == found_flags(notes.deep_view(), lower@),
{
    let ghost all = notes.deep_view();
    let mut out: Vec<bool> = Vec::new();
    let mut i: usize = 0;
    while i < notes.len()
        invariant
            all == notes.deep_view(),
            i <= all.len(),
            out@ == found_flags(all, lower@).take(i as int),
        decreases all.len() - i,
    {
        assert(all[i as int] == notes@[i as int].deep_view());
        let found = found_in(lower, &notes[i].body);
        out.push(found);
        assert(found_flags(all, lower@).take(i + 1) =~= found_flags(all, lower@).take(
            i as int,
        ).push(found));
        i += 1;
    }
    assert(found_flags(all, lower@).take(all.len() as int) =~= found_flags(all, lower@));
    out
}

/// The path of the node of a note.
fn path_of_note(index: &Index, i: usize) -> (r: Option<String>)
    requires
        index_ok(index.deep_view()),
        i < index.notes@.len(),
    ensures
        r.deep_view() == note_path_of(index.deep_view(), i as int),
{
    let ghost m = index.deep_view();
    assert(m.notes[i as int] == index.notes@[i as int].deep_view());
    assert(has_node(m.nodes, m.notes[i as int].node_id));
    match find_node(&index.nodes, index.notes[i].node_id) {
        Some(k) => {
            assert(m.nodes[k as int] == index.nodes@[k as int].deep_view());
            copy_text(&index.nodes[k].path)
        },
        None => None,
    }
}

/// At most `limit` of the places.
pub fn take_places(order: Vec<usize>, limit: usize) -> (r: Vec<usize>)
    ensures
        places(r@) == limited(places(order@), limit),
        forall|k: int| 0 <= k < r@.len() ==> r@[k] == order@[k],
        r@.len() <= order@.len(),
{
    let ghost all = order@;
    let mut out = order;
    if out.len() > limit {
        out.truncate(limit);
    }
    assert(places(out@) =~= limited(places(all), limit));
    out
}

/// Find the notes that match a lowercase term, newest first and no more than the limit.
pub fn found_notes(index: &Index, lower: &str, limit: usize) -> (r: Result<Vec<usize>, QueryError>)
    ensures
        match r {
            Ok(order) => {
                &&& !(limit > 0 && index.notes@.len() > 0 && too_long(lower@))
                &&& places(order@) == found_order(index.deep_view(), lower@, limit)
                &&& forall|k: int| 0 <= k < order@.len() ==> #[trigger] order@[k] < index.notes@.len()
            },
            Err(e) => e is TermTooLong && limit > 0 && index.notes@.len() > 0 && too_long(lower@),
        },
{
    if limit > 0 && index.notes.len() > 0 && bytes_in(lower) > 49_998 {
        return Err(QueryError::TermTooLong);
    }
    let flags = found_flags_of(&index.notes, lower);
    Ok(take_places(by_date_of(&index.notes, &flags), limit))
}

/// The hit of note row `i`, given the lowercase forms of its text and of the term.
pub fn hit_for(index: &Index, i: usize, lower_body: &str, lower: &str) -> (r: Result<
    SearchHit,
    QueryError,
>)
    requires
        index_ok(index.deep_view()),
        i < index.notes@.len(),
    ensures
        match r {
            Ok(hit) => hit_of(index.deep_view(), i as int, lower_body@, lower@) == Ok::<
                HitModel,
                QueryError,
            >(hit.deep_view()),
            Err(e) => hit_of(index.deep_view(), i as int, lower_body@, lower@) == Err::<
                HitModel,
                QueryError,
            >(e),
        },
{
    let row = &index.notes[i];
    assert(index.deep_view().notes[i as int] == row.deep_view());
    match path_of_note(index, i) {
        None => Err(QueryError::NoPath),
        Some(path) => if !fits(&row.body, lower_body, lower) {
            Err(QueryError::NoSnippet)
        } else {
            let snippet = snippet_around(&row.body, lower_body, lower);
            Ok(SearchHit { path, note_date: copy_text(&row.note_date), snippet })
        },
    }
}

/// Full-text search across notes, newest first.
pub fn search(index: &Index, term: &str, limit: usize) -> (r: Result<Vec<SearchHit>, QueryError>)
    requires
        index_ok(index.deep_view()),
    ensures
        match r {
            Ok(hits) => hits_of(index.deep_view(), lowercase(term@), limit) == Ok::<
                Seq<HitModel>,
                QueryError,
            >(hits.deep_view()),
            Err(e) => hits_of(index.deep_view(), lowercase(term@), limit) == Err::<
                Seq<HitModel>,
                QueryError,
            >(e),
        },
{
    let ghost m = index.deep_view();
    let lower = term.to_lowercase();
    let order = match found_notes(index, &lower, limit) {
        Err(e) => {
            return Err(e);
        },
        Ok(order) => order,
    };
    let ghost listed = places(order@);
    let mut hits: Vec<SearchHit> = Vec::new();
    let mut k: usize = 0;
    assert(hits.deep_view() =~= Seq::<HitModel>::empty());
    while k < order.len()
        invariant
            m == index.deep_view(),
            index_ok(m),
            listed == places(order@),
            k <= order@.len(),
            forall|j: int| 0 <= j < order@.len() ==> #[trigger] order@[j] < m.notes.len(),
            hits_of(m, lower@, limit) == hits_from(m, lower@, listed, 0, Seq::empty()),
            lower@ == lowercase(term@),
            hits_from(m, lower@, listed, 0, Seq::empty()) == hits_from(
                m,
                lower@,
                listed,
                k as int,
                hits.deep_view(),
            ),
        decreases order@.len() - k,
    {
        let ghost before = hits.deep_view();
        let i = order[k];
        assert(listed[k as int] == i as int);
        assert(m.notes[i as int] == index.notes@[i as int].deep_view());
        let lower_body = index.notes[i].body.to_lowercase();
        match hit_for(index, i, &lower_body, &lower) {
            Err(e) => {
                return Err(e);
            },
            Ok(hit) => {
                hits.push(hit);
                assert(hits.deep_view() =~= before.push(hit.deep_view()));
            },
        }
        k += 1;
    }
    Ok(hits)
}

/// The place of the project, else of the entity, that a name stands for, compared without regard
/// to case and edge punctuation.
pub open spec fn subject_place(nodes: Seq<NodeModel>, name: Seq<char>) -> Option<int> {
    match first_named(nodes, "project"@, canonical(name), 0) {
        Some(i) => Some(i),
        None => first_named(nodes, "entity"@, canonical(name), 0),
    }
}

fn find_subject(nodes: &Vec<Node>, name: &str) -> (r: Option<usize>)
    ensures
        match r {
            Some(i) => subject_place(nodes.deep_view(), name@) == Some(i as int) && i < nodes@.len(),
            None => subject_place(nodes.deep_view(), name@) is None,
        },
{
    let wanted = canonicalize(name);
    match find_named(nodes, "project", &wanted) {
        Some(i) => Some(i),
        None => find_named(nodes, "entity", &wanted),
    }
}

/// Everything known about a project or entity.
#[derive(Debug)]
pub struct About {
    pub name: String,
    pub kind: String,
    /// Git metadata of a project, as a JSON text.
    pub git: Option<String>,
    /// Where a code symbol is defined, as a JSON text.
    pub definition: Option<String>,
    pub notes: Vec<NoteRef>,
    pub co_mentioned: Vec<CoMention>,
}

/// A note that mentions something.
#[derive(Debug)]
pub struct NoteRef {
    pub path: String,
    pub note_date: Option<String>,
}

/// Something that is mentioned by the same notes.
#[derive(Debug)]
pub struct CoMention {
    pub name: String,
    pub kind: String,
    pub shared_notes: i64,
}

/// The value of an `About`.
#[verifier::ext_equal]
pub struct AboutModel {
    pub name: Seq<char>,
    pub kind: Seq<char>,
    pub git: Option<Seq<char>>,
    pub definition: Option<Seq<char>>,
    pub notes: Seq<NoteRefModel>,
    pub co_mentioned: Seq<CoMentionModel>,
}

/// The value of a `NoteRef`.
pub struct NoteRefModel {
    pub path: Seq<char>,
    pub note_date: Option<Seq<char>>,
}

/// The value of a `CoMention`.
pub struct CoMentionModel {
    pub name: Seq<char>,
    pub kind: Seq<char>,
    pub shared_notes: int,
}

impl DeepView for NoteRef {
    type V = NoteRefModel;

    open spec fn deep_view(&self) -> NoteRefModel {
        NoteRefModel { path: self.path@, note_date: self.note_date.deep_view() }
    }
}

impl DeepView for CoMention {
    type V = CoMentionModel;

    open spec fn deep_view(&self) -> CoMentionModel {
        CoMentionModel {
            name: self.name@,
            kind: self.kind@,
            shared_notes: self.shared_notes as int,
        }
    }
}

impl DeepView for About {
    type V = AboutModel;

    open spec fn deep_view(&self) -> AboutModel {
        AboutModel {
            name: self.name@,
            kind: self.kind@,
            git: self.git.deep_view(),
            definition: self.definition.deep_view(),
            notes: self.notes.deep_view(),
            co_mentioned: self.co_mentioned.deep_view(),
        }
    }
}

/// Whether one of the first `n` edges leads from `src` to `dst`.
pub open spec fn arc_upto(m: IndexModel, src: int, dst: int, n: int) -> bool {
    exists|e: int|
        0 <= e < n && (#[trigger] m.edges[e]).src == src && m.edges[e].dst == dst
}

/// Whether an edge leads from `src` to `dst`.
pub open spec fn arc(m: IndexModel, src: int, dst: int) -> bool {
    arc_upto(m, src, dst, m.edges.len() as int)
}

/// Which nodes have an edge to `dst`.
pub open spec fn source_flags(m: IndexModel, dst: int) -> Seq<bool> {
    Seq::new(m.nodes.len(), |i: int| arc(m, m.nodes[i].id, dst))
}

/// Which notes have an edge to `dst`.
pub open spec fn mentioning_flags(m: IndexModel, dst: int) -> Seq<bool> {
    Seq::new(m.notes.len(), |i: int| arc(m, m.notes[i].node_id, dst))
}

/// Which nodes are notes with an edge to `dst`.
pub open spec fn note_source_flags(m: IndexModel, dst: int) -> Seq<bool> {
    Seq::new(
        m.nodes.len(),
        |i: int| m.nodes[i].kind == "note"@ && arc(m, m.nodes[i].id, dst),
    )
}

/// Which nodes are notes with an edge to each of two nodes.
pub open spec fn shared_flags(m: IndexModel, a: int, b: int) -> Seq<bool> {
    Seq::new(
        m.nodes.len(),
        |i: int|
            m.nodes[i].kind == "note"@ && arc(m, m.nodes[i].id, a) && arc(m, m.nodes[i].id, b),
    )
}

/// How many notes have an edge to each of two nodes.
pub open spec fn shared_count(m: IndexModel, a: int, b: int) -> nat {
    picked(shared_flags(m, a, b)).len()
}

/// Which other nodes share at least two notes with node `id`.
pub open spec fn co_flags(m: IndexModel, id: int) -> Seq<bool> {
    Seq::new(
        m.nodes.len(),
        |j: int| m.nodes[j].id != id && shared_count(m, id, m.nodes[j].id) >= 2,
    )
}

/// What shared notes are sorted by: the most shared first.
pub open spec fn co_keys(m: IndexModel, id: int, picks: Seq<int>) -> Seq<KeyModel> {
    Seq::new(
        picks.len(),
        |k: int| seq![PartModel::Num(-shared_count(m, id, m.nodes[picks[k]].id))],
    )
}

/// The other nodes that share notes with node `id`, the most shared first.
pub open spec fn co_order(m: IndexModel, id: int) -> Seq<int> {
    let picks = picked(co_flags(m, id));
    ordered(picks, co_keys(m, id, picks))
}

/// The entry of another node.
pub open spec fn co_item(m: IndexModel, id: int, j: int) -> CoMentionModel {
    CoMentionModel {
        name: m.nodes[j].name,
        kind: m.nodes[j].kind,
        shared_notes: shared_count(m, id, m.nodes[j].id) as int,
    }
}

/// What is mentioned by the same notes: at most twenty.
pub open spec fn co_mentions_of(m: IndexModel, id: int) -> Seq<CoMentionModel> {
    let order = limited(co_order(m, id), 20);
    Seq::new(order.len(), |k: int| co_item(m, id, order[k]))
}

/// The references to the listed notes, from place `from` on.
pub open spec fn refs_from(m: IndexModel, order: Seq<int>, from: int, before: Seq<NoteRefModel>) -> Result<
    Seq<NoteRefModel>,
    QueryError,
>
    decreases order.len() - from,
{
    if from < 0 || from >= order.len() {
        Ok(before)
    } else {
        match note_path_of(m, order[from]) {
            None => Err(QueryError::NoPath),
            Some(path) => refs_from(
                m,
                order,
                from + 1,
                before.push(
                    NoteRefModel { path, note_date: m.notes[order[from]].note_date },
                ),
            ),
        }
    }
}

/// The metadata of a node, where it is of the kind and has the member.
pub open spec fn meta_with(node: NodeModel, kind: Seq<char>, key: Seq<char>) -> Option<Seq<char>> {
    if node.kind == kind && field(node.meta, key) is Some {
        Some(node.meta)
    } else {
        None
    }
}

/// What is known about node `i`, asked for by `name`.
pub open spec fn about_node(m: IndexModel, name: Seq<char>, i: int) -> Result<AboutModel, QueryError> {
    let node = m.nodes[i];
    match refs_from(m, by_date(m.notes, mentioning_flags(m, node.id)), 0, Seq::empty()) {
        Err(e) => Err(e),
        Ok(notes) => Ok(
            AboutModel {
                name,
                kind: node.kind,
                git: meta_with(node, "project"@, "branch"@),
                definition: meta_with(node, "entity"@, "file"@),
                notes,
                co_mentioned: co_mentions_of(m, node.id),
            },
        ),
    }
}

/// What is known about a name.
pub open spec fn about_of(m: IndexModel, name: Seq<char>) -> Result<Option<AboutModel>, QueryError> {
    match subject_place(m.nodes, name) {
        None => Ok(None),
        Some(i) => match about_node(m, name, i) {
            Err(e) => Err(e),
            Ok(a) => Ok(Some(a)),
        },
    }
}

/// A list of flags that are not set.
pub fn no_flags(n: usize) -> (r: Vec<bool>)
    ensures
        r@.len() == n,
        forall|i: int| 0 <= i < n ==> !#[trigger] r@[i],
{
    let mut out: Vec<bool> = Vec::new();
    let mut i: usize = 0;
    while i < n
        invariant
            i <= n,
            out@.len() == i,
            forall|k: int| 0 <= k < i ==> !#[trigger] out@[k],
        decreases n - i,
    {
        out.push(false);
        i += 1;
    }
    out
}

/// Which nodes have an edge to the node at place `at`.
fn sources_of(index: &Index, ends: &Vec<(usize, usize)>, at: usize) -> (r: Vec<bool>)
    requires
        index_ok(index.deep_view()),
        ends_ok(index.deep_view(), ends@),
        at < index.nodes@.len(),
    ensures
        r@ == source_flags(index.deep_view(), index.deep_view().nodes[at as int].id),
{
    let ghost m = index.deep_view();
    let ghost id = m.nodes[at as int].id;
    let mut out = no_flags(index.nodes.len());
    let mut e: usize = 0;
    while e < index.edges.len()
        invariant
            m == index.deep_view(),
            index_ok(m),
            ends_ok(m, ends@),
            at < m.nodes.len(),
            id == m.nodes[at as int].id,
            e <= m.edges.len(),
            out@.len() == m.nodes.len(),
            forall|i: int|
                0 <= i < out@.len() ==> #[trigger] out@[i] == arc_upto(
                    m,
                    m.nodes[i].id,
                    id,
                    e as int,
                ),
        decreases m.edges.len() - e,
    {
        let (s, d) = ends[e];
        assert(end_ok(m, e as int, ends@[e as int]));
        let ghost was = out@;
        if d == at {
            out.set(s, true);
        }
        proof {
            lemma_node_place(m.nodes, d as int);
            lemma_node_place(m.nodes, at as int);
            lemma_node_place(m.nodes, s as int);
            assert forall|i: int| 0 <= i < out@.len() implies #[trigger] out@[i] == arc_upto(
                m,
                m.nodes[i].id,
                id,
                e + 1,
            ) by {
                lemma_node_place(m.nodes, i);
                let src = m.nodes[i].id;
                assert(was[i] == arc_upto(m, src, id, e as int));
                if arc_upto(m, src, id, e as int) {
                    let x = choose|x: int|
                        0 <= x < e && (#[trigger] m.edges[x]).src == src && m.edges[x].dst == id;
                    assert(m.edges[x].src == src);
                }
                if arc_upto(m, src, id, e + 1) && !arc_upto(m, src, id, e as int) {
                    let x = choose|x: int|
                        0 <= x < e + 1 && (#[trigger] m.edges[x]).src == src && m.edges[x].dst
                            == id;
                    assert(x == e);
                }
                if i == s && d == at {
                    assert(m.edges[e as int].src == src && m.edges[e as int].dst == id);
                }
            }
        }
        e += 1;
    }
    assert(out@ =~= source_flags(m, id));
    out
}

/// Which of the flagged nodes are notes.
fn note_sources_of(index: &Index, sources: &Vec<bool>, Ghost(id): Ghost<int>) -> (r: Vec<bool>)
    requires
        index_ok(index.deep_view()),
        sources@ == source_flags(index.deep_view(), id),
    ensures
        r@ == note_source_flags(index.deep_view(), id),
{
    let ghost m = index.deep_view();
    let mut out: Vec<bool> = Vec::new();
    let mut i: usize = 0;
    while i < index.nodes.len()
        invariant
            m == index.deep_view(),
            index_ok(m),
            sources@ == source_flags(m, id),
            i <= m.nodes.len(),
            out@ == note_source_flags(m, id).take(i as int),
        decreases m.nodes.len() - i,
    {
        assert(m.nodes[i as int] == index.nodes@[i as int].deep_view());
        let here = sources[i] && same_text(&index.nodes[i].kind, "note");
        out.push(here);
        assert(here == note_source_flags(m, id)[i as int]);
        assert(note_source_flags(m, id).take(i + 1) =~= note_source_flags(m, id).take(
            i as int,
        ).push(here));
        i += 1;
    }
    assert(note_source_flags(m, id).take(m.nodes.len() as int) =~= note_source_flags(m, id));
    out
}

/// How many nodes have an edge to the node at place `other`, among those that are flagged.
fn shared_with(index: &Index, ends: &Vec<(usize, usize)>, sources: &Vec<bool>, Ghost(id): Ghost<int>, other: usize) -> (r: usize)
    requires
        index_ok(index.deep_view()),
        ends_ok(index.deep_view(), ends@),
        sources@ == note_source_flags(index.deep_view(), id),
        other < index.nodes@.len(),
    ensures
        r == shared_count(index.deep_view(), id, index.deep_view().nodes[other as int].id),
        r <= index.nodes@.len(),
{
    let ghost m = index.deep_view();
    let mut both = sources_of(index, ends, other);
    let mut i: usize = 0;
    let ghost wanted = shared_flags(m, id, m.nodes[other as int].id);
    let ghost others = both@;
    while i < both.len()
        invariant
            i <= both@.len(),
            m == index.deep_view(),
            both@.len() == m.nodes.len(),
            sources@ == note_source_flags(m, id),
            others == source_flags(m, m.nodes[other as int].id),
            wanted == shared_flags(m, id, m.nodes[other as int].id),
            forall|k: int| 0 <= k < i ==> #[trigger] both@[k] == wanted[k],
            forall|k: int| i <= k < both@.len() ==> #[trigger] both@[k] == others[k],
        decreases both@.len() - i,
    {
        let here = both[i] && sources[i];
        both.set(i, here);
        i += 1;
    }
    assert(both@ =~= wanted);
    let picks = pick(&both);
    proof {
        lemma_picked(both@);
    }
    assert(places(picks@).len() == picks@.len());
    picks.len()
}

/// Whether any flagged node has an edge to each node.
fn reached_from(index: &Index, ends: &Vec<(usize, usize)>, sources: &Vec<bool>, Ghost(id): Ghost<int>) -> (r: Vec<bool>)
    requires
        index_ok(index.deep_view()),
        ends_ok(index.deep_view(), ends@),
        sources@ == note_source_flags(index.deep_view(), id),
    ensures
        r@.len() == index.nodes@.len(),
        forall|j: int|
            0 <= j < r@.len() && !#[trigger] r@[j] ==> shared_count(
                index.deep_view(),
                id,
                index.deep_view().nodes[j].id,
            ) == 0,
{
    let ghost m = index.deep_view();
    let mut out = no_flags(index.nodes.len());
    let mut e: usize = 0;
    while e < index.edges.len()
        invariant
            m == index.deep_view(),
            index_ok(m),
            ends_ok(m, ends@),
            sources@ == note_source_flags(m, id),
            e <= m.edges.len(),
            out@.len() == m.nodes.len(),
            forall|x: int|
                0 <= x < e && sources@[(#[trigger] ends@[x]).0 as int] ==> out@[ends@[x].1 as int],
        decreases m.edges.len() - e,
    {
        let (s, d) = ends[e];
        assert(end_ok(m, e as int, ends@[e as int]));
        if sources[s] {
            out.set(d, true);
        }
        assert forall|x: int|
            0 <= x < e + 1 && sources@[(#[trigger] ends@[x]).0 as int] implies out@[ends@[x].1 as int] by {
            assert(end_ok(m, x, ends@[x]));
        }
        e += 1;
    }
    proof {
        assert forall|j: int| 0 <= j < out@.len() && !#[trigger] out@[j] implies shared_count(
            m,
            id,
            m.nodes[j].id,
        ) == 0 by {
            let flags = shared_flags(m, id, m.nodes[j].id);
            lemma_picked(flags);
            if picked(flags).len() > 0 {
                let i = picked(flags)[0];
                assert(flags[i]);
                assert(arc(m, m.nodes[i].id, m.nodes[j].id));
                let x = choose|x: int|
                    0 <= x < m.edges.len() && (#[trigger] m.edges[x]).src == m.nodes[i].id
                        && m.edges[x].dst == m.nodes[j].id;
                assert(end_ok(m, x, ends@[x]));
                lemma_node_place(m.nodes, i);
                lemma_node_place(m.nodes, j);
                lemma_node_place(m.nodes, ends@[x].0 as int);
                lemma_node_place(m.nodes, ends@[x].1 as int);
                assert(ends@[x].0 == i && ends@[x].1 == j);
                assert(sources@[i]);
                assert(sources@[ends@[x].0 as int]);
            }
        }
    }
    out
}

fn count_key(count: usize) -> (r: SortKey)
    ensures
        r.deep_view() == seq![PartModel::Num(-(count as int))],
{
    let mut parts: Vec<KeyPart> = Vec::new();
    parts.push(KeyPart::Num(-(count as i128)));
    let key = SortKey { parts };
    assert(key.deep_view() =~= seq![PartModel::Num(-(count as int))]);
    key
}

fn co_mentioned_of(index: &Index, at: usize) -> (r: Vec<CoMention>)
    requires
        index_ok(index.deep_view()),
        at < index.nodes@.len(),
    ensures
        r.deep_view() == co_mentions_of(
            index.deep_view(),
            index.deep_view().nodes[at as int].id,
        ),
{
    let ghost m = index.deep_view();
    let ghost id = m.nodes[at as int].id;
    let ghost flags = co_flags(m, id);
    let ends = edge_ends(index);
    let sources = note_sources_of(index, &sources_of(index, &ends, at), Ghost(id));
    let reachable = reached_from(index, &ends, &sources, Ghost(id));
    let mut near: Vec<usize> = Vec::new();
    let mut counts: Vec<usize> = Vec::new();
    let mut keys: Vec<SortKey> = Vec::new();
    let mut j: usize = 0;
    assert(flags.take(0) =~= Seq::<bool>::empty());
    assert(places(near@) =~= Seq::<int>::empty());
    assert(keys.deep_view() =~= Seq::<KeyModel>::empty());
    while j < index.nodes.len()
        invariant
            m == index.deep_view(),
            index_ok(m),
            ends_ok(m, ends@),
            at < m.nodes.len(),
            id == m.nodes[at as int].id,
            flags == co_flags(m, id),
            sources@ == note_source_flags(m, id),
            reachable@.len() == m.nodes.len(),
            forall|x: int|
                0 <= x < reachable@.len() && !#[trigger] reachable@[x] ==> shared_count(
                    m,
                    id,
                    m.nodes[x].id,
                ) == 0,
            j <= m.nodes.len(),
            places(near@) == picked(flags.take(j as int)),
            counts@.len() == near@.len(),
            forall|k: int|
                0 <= k < near@.len() ==> #[trigger] near@[k] < j && counts@[k] == shared_count(
                    m,
                    id,
                    m.nodes[near@[k] as int].id,
                ) && counts@[k] <= m.nodes.len(),
            keys.deep_view() == co_keys(m, id, places(near@)),
        decreases m.nodes.len() - j,
    {
        let ghost near0 = places(near@);
        let ghost keys0 = keys.deep_view();
        assert(flags.take(j + 1).drop_last() =~= flags.take(j as int));
        proof {
            lemma_node_place(m.nodes, j as int);
            lemma_node_place(m.nodes, at as int);
        }
        if reachable[j] && j != at {
            let count = shared_with(index, &ends, &sources, Ghost(id), j);
            if count >= 2 {
                near.push(j);
                counts.push(count);
                let key = count_key(count);
                keys.push(key);
                assert(places(near@) =~= near0.push(j as int));
                assert(keys.deep_view() =~= keys0.push(key.deep_view()));
                assert(co_keys(m, id, places(near@)) =~= keys0.push(key.deep_view()));
            }
        }
        j += 1;
    }
    assert(flags.take(m.nodes.len() as int) =~= flags);
    assert(keys_ok(keys.deep_view()));
    let ghost picks = picked(flags);
    let ghost km = co_keys(m, id, picks);
    let order = take_places(stable_order(&keys), 20);
    let ghost listed = limited(co_order(m, id), 20);
    let ghost all_items = co_mentions_of(m, id);
    let mut out: Vec<CoMention> = Vec::new();
    let mut l: usize = 0;
    assert(out.deep_view() =~= Seq::<CoMentionModel>::empty());
    while l < order.len()
        invariant
            m == index.deep_view(),
            index_ok(m),
            flags == co_flags(m, id),
            picks == picked(flags),
            km == co_keys(m, id, picks),
            listed == limited(ordered(picks, km), 20),
            all_items == Seq::new(listed.len(), |k: int| co_item(m, id, listed[k])),
            places(near@) == picks,
            counts@.len() == near@.len(),
            forall|k: int|
                0 <= k < near@.len() ==> #[trigger] near@[k] < m.nodes.len() && counts@[k]
                    == shared_count(m, id, m.nodes[near@[k] as int].id) && counts@[k]
                    <= m.nodes.len(),
            places(order@) == limited(order_of(km), 20),
            is_order(km, order_of(km)),
            l <= order@.len(),
            out.deep_view() == all_items.take(l as int),
        decreases order@.len() - l,
    {
        let ghost before = out.deep_view();
        let slot = order[l];
        assert(places(order@).len() == order@.len());
        assert(places(order@)[l as int] == slot as int);
        assert(order_of(km)[l as int] == slot as int);
        assert(listed[l as int] == picks[slot as int]);
        assert(picks[slot as int] == near@[slot as int]);
        let node = &index.nodes[near[slot]];
        assert(m.nodes[near@[slot as int] as int] == node.deep_view());
        let item = CoMention {
            name: node.name.clone(),
            kind: node.kind.clone(),
            shared_notes: counts[slot] as i64,
        };
        out.push(item);
        assert(item.deep_view() == co_item(m, id, listed[l as int]));
        assert(out.deep_view() =~= before.push(item.deep_view()));
        assert(all_items.take(l + 1) =~= before.push(item.deep_view()));
        l += 1;
    }
    assert(places(order@).len() == order@.len());
    assert(all_items.take(order@.len() as int) =~= all_items);
    out
}

fn mentioning_of(index: &Index, sources: &Vec<bool>, Ghost(id): Ghost<int>) -> (r: Vec<bool>)
    requires
        index_ok(index.deep_view()),
        sources@ == source_flags(index.deep_view(), id),
    ensures
        r@ == mentioning_flags(index.deep_view(), id),
{
    let ghost m = index.deep_view();
    let mut out: Vec<bool> = Vec::new();
    let mut i: usize = 0;
    while i < index.notes.len()
        invariant
            m == index.deep_view(),
            index_ok(m),
            sources@ == source_flags(m, id),
            i <= m.notes.len(),
            out@ == mentioning_flags(m, id).take(i as int),
        decreases m.notes.len() - i,
    {
        assert(m.notes[i as int] == index.notes@[i as int].deep_view());
        assert(has_node(m.nodes, m.notes[i as int].node_id));
        let mut here = false;
        if let Some(k) = find_node(&index.nodes, index.notes[i].node_id) {
            assert(m.nodes[k as int] == index.nodes@[k as int].deep_view());
            here = sources[k];
        }
        out.push(here);
        assert(here == mentioning_flags(m, id)[i as int]);
        assert(mentioning_flags(m, id).take(i + 1) =~= mentioning_flags(m, id).take(
            i as int,
        ).push(here));
        i += 1;
    }
    assert(mentioning_flags(m, id).take(m.notes.len() as int) =~= mentioning_flags(m, id));
    out
}

fn note_refs(index: &Index, order: &Vec<usize>) -> (r: Result<Vec<NoteRef>, QueryError>)
    requires
        index_ok(index.deep_view()),
        forall|k: int| 0 <= k < order@.len() ==> #[trigger] order@[k] < index.notes@.len(),
    ensures
        match r {
            Ok(refs) => refs_from(index.deep_view(), places(order@), 0, Seq::empty()) == Ok::<
                Seq<NoteRefModel>,
                QueryError,
            >(refs.deep_view()),
            Err(e) => refs_from(index.deep_view(), places(order@), 0, Seq::empty()) == Err::<
                Seq<NoteRefModel>,
                QueryError,
            >(e),
        },
{
    let ghost m = index.deep_view();
    let ghost listed = places(order@);
    let mut refs: Vec<NoteRef> = Vec::new();
    let mut k: usize = 0;
    assert(refs.deep_view() =~= Seq::<NoteRefModel>::empty());
    while k < order.len()
        invariant
            m == index.deep_view(),
            index_ok(m),
            listed == places(order@),
            k <= order@.len(),
            forall|j: int| 0 <= j < order@.len() ==> #[trigger] order@[j] < m.notes.len(),
            refs_from(m, listed, 0, Seq::empty()) == refs_from(
                m,
                listed,
                k as int,
                refs.deep_view(),
            ),
        decreases order@.len() - k,
    {
        let ghost before = refs.deep_view();
        let i = order[k];
        assert(listed[k as int] == i as int);
        assert(m.notes[i as int] == index.notes@[i as int].deep_view());
        match path_of_note(index, i) {
            None => {
                return Err(QueryError::NoPath);
            },
            Some(path) => {
                let item = NoteRef { path, note_date: copy_text(&index.notes[i].note_date) };
                refs.push(item);
                assert(refs.deep_view() =~= before.push(item.deep_view()));
            },
        }
        k += 1;
    }
    Ok(refs)
}

fn meta_if(node: &Node, kind: &str, key: &str) -> (r: Option<String>)
    ensures
        r.deep_view() == meta_with(node.deep_view(), kind@, key@),
{
    if same_text(&node.kind, kind) && json_field(&node.meta, key).is_some() {
        Some(node.meta.clone())
    } else {
        None
    }
}

/// Everything the graph knows about the node at place `at`, asked for as `name`.
pub fn about_at(index: &Index, name: &str, at: usize) -> (r: Result<About, QueryError>)
    requires
        index_ok(index.deep_view()),
        at < index.nodes@.len(),
    ensures
        match r {
            Ok(found) => about_node(index.deep_view(), name@, at as int) == Ok::<
                AboutModel,
                QueryError,
            >(found.deep_view()),
            Err(e) => about_node(index.deep_view(), name@, at as int) == Err::<
                AboutModel,
                QueryError,
            >(e),
        },
{
    let ghost m = index.deep_view();
    let ghost id = m.nodes[at as int].id;
    let node = &index.nodes[at];
    assert(m.nodes[at as int] == node.deep_view());
    let ends = edge_ends(index);
    let sources = sources_of(index, &ends, at);
    let mentioning = mentioning_of(index, &sources, Ghost(id));
    let order = by_date_of(&index.notes, &mentioning);
    let notes = match note_refs(index, &order) {
        Err(e) => {
            return Err(e);
        },
        Ok(notes) => notes,
    };
    let found = About {
        name: name.to_owned(),
        kind: node.kind.clone(),
        git: meta_if(node, "project", "branch"),
        definition: meta_if(node, "entity", "file"),
        notes,
        co_mentioned: co_mentioned_of(index, at),
    };
    Ok(found)
}

/// Everything the graph knows about a project or entity: its git state, the notes that mention it,
/// its definition if it is a code symbol, and what is mentioned along with it.
pub fn about(index: &Index, name: &str) -> (r: Result<Option<About>, QueryError>)
    requires
        index_ok(index.deep_view()),
    ensures
        match r {
            Ok(found) => about_of(index.deep_view(), name@) == Ok::<Option<AboutModel>, QueryError>(
                found.deep_view(),
            ),
            Err(e) => about_of(index.deep_view(), name@) == Err::<Option<AboutModel>, QueryError>(e),
        },
{
    match find_subject(&index.nodes, name) {
        None => Ok(None),
        Some(at) => match about_at(index, name, at) {
            Err(e) => Err(e),
            Ok(found) => Ok(Some(found)),
        },
    }
}

/// Why something is in the graph: an edge that points at it. The weight is in thousandths.
#[derive(Debug)]
pub struct Fact {
    pub from: String,
    pub from_kind: String,
    pub relation: String,
    pub provenance: String,
    pub weight: i128,
    pub rationale: Option<String>,
}

/// The value of a `Fact`.
pub struct FactModel {
    pub from: Seq<char>,
    pub from_kind: Seq<char>,
    pub relation: Seq<char>,
    pub provenance: Seq<char>,
    pub weight: int,
    pub rationale: Option<Seq<char>>,
}

impl DeepView for Fact {
    type V = FactModel;

    open spec fn deep_view(&self) -> FactModel {
        FactModel {
            from: self.from@,
            from_kind: self.from_kind@,
            relation: self.relation@,
            provenance: self.provenance@,
            weight: self.weight as int,
            rationale: self.rationale.deep_view(),
        }
    }
}

/// The fact of an edge.
pub open spec fn fact_of(m: IndexModel, edge: EdgeModel) -> FactModel {
    let src = node_by_id(m.nodes, edge.src);
    FactModel {
        from: src.name,
        from_kind: src.kind,
        relation: edge.kind,
        provenance: edge.provenance,
        weight: edge.weight,
        rationale: edge.rationale,
    }
}

/// The facts among the first `n` edges: those that point at `id` and have enough weight.
pub open spec fn facts_upto(m: IndexModel, id: int, min: int, n: int) -> Seq<FactModel>
    decreases n,
{
    if n <= 0 {
        Seq::empty()
    } else if m.edges[n - 1].dst == id && m.edges[n - 1].weight >= min {
        facts_upto(m, id, min, n - 1).push(fact_of(m, m.edges[n - 1]))
    } else {
        facts_upto(m, id, min, n - 1)
    }
}

/// Why a name is in the graph.
pub open spec fn why_of(m: IndexModel, name: Seq<char>, min: int) -> Option<Seq<FactModel>> {
    match subject_place(m.nodes, name) {
        None => None,
        Some(i) => Some(facts_upto(m, m.nodes[i].id, min, m.edges.len() as int)),
    }
}

/// Why the node at place `at` is in the graph.
pub fn why_at(index: &Index, at: usize, min_weight: i128) -> (r: Vec<Fact>)
    requires
        index_ok(index.deep_view()),
        at < index.nodes@.len(),
    ensures
        r.deep_view() == facts_upto(
            index.deep_view(),
            index.nodes@[at as int].id as int,
            min_weight as int,
            index.edges@.len() as int,
        ),
{
    let ghost m = index.deep_view();
    let id = index.nodes[at].id;
    assert(m.nodes[at as int] == index.nodes@[at as int].deep_view());
    let mut facts: Vec<Fact> = Vec::new();
    let mut e: usize = 0;
    assert(facts.deep_view() =~= Seq::<FactModel>::empty());
    while e < index.edges.len()
        invariant
            m == index.deep_view(),
            index_ok(m),
            e <= m.edges.len(),
            facts.deep_view() == facts_upto(m, id as int, min_weight as int, e as int),
        decreases m.edges.len() - e,
    {
        let ghost before = facts.deep_view();
        let edge = &index.edges[e];
        assert(m.edges[e as int] == edge.deep_view());
        if edge.dst == id && edge.weight >= min_weight {
            let src = match find_node(&index.nodes, edge.src) {
                Some(s) => s,
                None => 0,
            };
            assert(m.nodes[src as int] == index.nodes@[src as int].deep_view());
            let fact = Fact {
                from: index.nodes[src].name.clone(),
                from_kind: index.nodes[src].kind.clone(),
                relation: edge.kind.clone(),
                provenance: edge.provenance.clone(),
                weight: edge.weight,
                rationale: copy_text(&edge.rationale),
            };
            facts.push(fact);
            assert(fact.deep_view() == fact_of(m, m.edges[e as int]));
            assert(facts.deep_view() =~= before.push(fact.deep_view()));
        }
        e += 1;
    }
    facts
}

/// Why a project or entity is in the graph: every edge pointing at it with at least `min_weight`
/// (in thousandths), with its provenance and the rationale that created it.
pub fn why(index: &Index, name: &str, min_weight: i128) -> (r: Option<Vec<Fact>>)
    requires
        index_ok(index.deep_view()),
    ensures
        r.deep_view() == why_of(index.deep_view(), name@, min_weight as int),
{
    match find_subject(&index.nodes, name) {
        None => None,
        Some(at) => {
            assert(index.deep_view().nodes[at as int] == index.nodes@[at as int].deep_view());
            Some(why_at(index, at, min_weight))
        },
    }
}

/// An open loop and where it was found.
#[derive(Debug)]
pub struct OpenLoop {
    pub text: String,
    /// The path of its note.
    pub note: String,
}

/// The value of an `OpenLoop`.
pub struct OpenLoopModel {
    pub text: Seq<char>,
    pub note: Seq<char>,
}

impl DeepView for OpenLoop {
    type V = OpenLoopModel;

    open spec fn deep_view(&self) -> OpenLoopModel {
        OpenLoopModel { text: self.text@, note: self.note@ }
    }
}

/// The text of a loop, or its identity where its metadata holds none.
pub open spec fn loop_text(node: NodeModel) -> Seq<char> {
    match text_field(node.meta, "text"@) {
        Some(text) => text,
        None => node.name,
    }
}

/// The text of a loop.
pub fn text_of_loop(node: &Node) -> (r: String)
    ensures
        r@ == loop_text(node.deep_view()),
{
    match json_text_field(&node.meta, "text") {
        Some(text) => text,
        None => node.name.clone(),
    }
}

/// The open loops among the first `n` nodes whose text holds `pattern` and whose note is known.
pub open spec fn matching_loops(nodes: Seq<NodeModel>, pattern: Seq<char>, n: int) -> Seq<
    OpenLoopModel,
>
    decreases n,
{
    if n <= 0 {
        Seq::empty()
    } else {
        let before = matching_loops(nodes, pattern, n - 1);
        let node = nodes[n - 1];
        match node.path {
            Some(note) => if node.kind == "loop"@ && has_text(loop_text(node), pattern) {
                before.push(OpenLoopModel { text: loop_text(node), note })
            } else {
                before
            },
            None => before,
        }
    }
}

/// The open loops whose text holds `pattern`.
pub fn find_open_loops(index: &Index, pattern: &str) -> (r: Vec<OpenLoop>)
    ensures
        r.deep_view() == matching_loops(
            index.deep_view().nodes,
            pattern@,
            index.nodes@.len() as int,
        ),
{
    let ghost all = index.deep_view().nodes;
    let mut out: Vec<OpenLoop> = Vec::new();
    let mut i: usize = 0;
    assert(out.deep_view() =~= Seq::<OpenLoopModel>::empty());
    while i < index.nodes.len()
        invariant
            all == index.deep_view().nodes,
            i <= all.len(),
            out.deep_view() == matching_loops(all, pattern@, i as int),
        decreases all.len() - i,
    {
        let ghost before = out.deep_view();
        let node = &index.nodes[i];
        assert(all[i as int] == node.deep_view());
        if let Some(note) = &node.path {
            if same_text(&node.kind, "loop") {
                let text = text_of_loop(node);
                if contains_text(&text, pattern) {
                    let item = OpenLoop { text, note: note.clone() };
                    out.push(item);
                    assert(out.deep_view() =~= before.push(item.deep_view()));
                }
            }
        }
        i += 1;
    }
    out
}

/// An open loop and how stale it is.
#[derive(Debug)]
pub struct Dangling {
    pub text: String,
    pub section: Option<String>,
    pub first_seen: Option<String>,
    pub age_days: Option<i64>,
    /// How many notes hold a loop with this text.
    pub sightings: i64,
    pub note_path: String,
}

/// The value of a `Dangling`.
pub struct DanglingModel {
    pub text: Seq<char>,
    pub section: Option<Seq<char>>,
    pub first_seen: Option<Seq<char>>,
    pub age_days: Option<i64>,
    pub sightings: int,
    pub note_path: Seq<char>,
}

impl DeepView for Dangling {
    type V = DanglingModel;

    open spec fn deep_view(&self) -> DanglingModel {
        DanglingModel {
            text: self.text@,
            section: self.section.deep_view(),
            first_seen: self.first_seen.deep_view(),
            age_days: self.age_days,
            sightings: self.sightings as int,
            note_path: self.note_path@,
        }
    }
}

/// Whether edge `e` says that note row `n` contains node `id`.
pub open spec fn holds_loop(m: IndexModel, e: int, n: int, id: int) -> bool {
    &&& m.edges[e].kind == "contains"@
    &&& m.edges[e].src == m.notes[n].node_id
    &&& m.edges[e].dst == id
}

/// Whether one of the first `k` edges says that note row `n` contains node `id`.
pub open spec fn contains_upto(m: IndexModel, n: int, id: int, k: int) -> bool {
    exists|e: int| 0 <= e < k && #[trigger] holds_loop(m, e, n, id)
}

/// Which notes contain node `id`.
pub open spec fn container_flags(m: IndexModel, id: int) -> Seq<bool> {
    Seq::new(m.notes.len(), |n: int| contains_upto(m, n, id, m.edges.len() as int))
}

/// The date of a note: its own, else its file's.
pub open spec fn seen_on(note: NoteModel) -> Option<Seq<char>> {
    match note.note_date {
        Some(d) => Some(d),
        None => note.mtime,
    }
}

/// The lesser of two optional texts; one that is not there counts for nothing.
pub open spec fn least(a: Option<Seq<char>>, b: Option<Seq<char>>) -> Option<Seq<char>> {
    match (a, b) {
        (Some(x), Some(y)) => if text_le(x, y) {
            Some(x)
        } else {
            Some(y)
        },
        (Some(x), None) => Some(x),
        (None, _) => b,
    }
}

/// The earliest date of the first `n` flagged notes.
pub open spec fn first_seen_upto(m: IndexModel, flags: Seq<bool>, n: int) -> Option<Seq<char>>
    decreases n,
{
    if n <= 0 {
        None
    } else if flags[n - 1] {
        least(first_seen_upto(m, flags, n - 1), seen_on(m.notes[n - 1]))
    } else {
        first_seen_upto(m, flags, n - 1)
    }
}

/// The least path of the first `n` flagged notes.
pub open spec fn least_path_upto(m: IndexModel, flags: Seq<bool>, n: int) -> Option<Seq<char>>
    decreases n,
{
    if n <= 0 {
        None
    } else if flags[n - 1] {
        least(least_path_upto(m, flags, n - 1), note_path_of(m, n - 1))
    } else {
        least_path_upto(m, flags, n - 1)
    }
}

/// Whether edge `e` says that note row `n` contains a loop with this text.
pub open spec fn holds_text(m: IndexModel, e: int, n: int, text: Seq<char>) -> bool {
    let node = node_by_id(m.nodes, m.edges[e].dst);
    &&& m.edges[e].kind == "contains"@
    &&& m.edges[e].src == m.notes[n].node_id
    &&& node.kind == "loop"@
    &&& loop_text(node) == text
}

/// Whether one of the first `k` edges says that note row `n` contains a loop with this text.
pub open spec fn sighted_upto(m: IndexModel, n: int, text: Seq<char>, k: int) -> bool {
    exists|e: int| 0 <= e < k && #[trigger] holds_text(m, e, n, text)
}

/// Which notes contain a loop with this text.
pub open spec fn sighting_flags(m: IndexModel, text: Seq<char>) -> Seq<bool> {
    Seq::new(m.notes.len(), |n: int| sighted_upto(m, n, text, m.edges.len() as int))
}

/// Whether one of the edges says that node `src` mentions node `dst`.
pub open spec fn mentions(m: IndexModel, src: int, dst: int) -> bool {
    exists|e: int|
        0 <= e < m.edges.len() && (#[trigger] m.edges[e]).kind == "mentions"@ && m.edges[e].src
            == src && m.edges[e].dst == dst
}

/// Whether node `i` is a loop that is listed: a note contains it, and it mentions what is asked
/// for.
pub open spec fn is_dangling(m: IndexModel, about: Option<int>, i: int) -> bool {
    &&& m.nodes[i].kind == "loop"@
    &&& picked(container_flags(m, m.nodes[i].id)).len() > 0
    &&& about matches Some(id) ==> mentions(m, m.nodes[i].id, id)
}

/// Which nodes are loops that are listed.
pub open spec fn dangling_flags(m: IndexModel, about: Option<int>) -> Seq<bool> {
    Seq::new(m.nodes.len(), |i: int| is_dangling(m, about, i))
}

/// When a loop was first seen.
pub open spec fn loop_seen(m: IndexModel, i: int) -> Option<Seq<char>> {
    first_seen_upto(m, container_flags(m, m.nodes[i].id), m.notes.len() as int)
}

/// What loops are sorted by: stalest first, undated ones last.
pub open spec fn stalest_first(date: Option<Seq<char>>) -> KeyModel {
    match date {
        Some(d) => seq![PartModel::Num(0), PartModel::Text(d)],
        None => seq![PartModel::Num(1)],
    }
}

/// The sort keys of the given loops.
pub open spec fn dangling_keys(m: IndexModel, picks: Seq<int>) -> Seq<KeyModel> {
    Seq::new(picks.len(), |k: int| stalest_first(loop_seen(m, picks[k])))
}

/// The listed loops, stalest first.
pub open spec fn dangling_order(m: IndexModel, about: Option<int>) -> Seq<int> {
    let picks = picked(dangling_flags(m, about));
    ordered(picks, dangling_keys(m, picks))
}

/// The age in days of a date, where it can be read.
pub open spec fn age_of(date: Option<Seq<char>>, today: i32) -> Option<i64> {
    match date {
        None => None,
        Some(d) => match parsed_day(d) {
            None => None,
            Some(day) => Some((today - day) as i64),
        },
    }
}

/// The entry of a loop.
pub open spec fn dangling_item(m: IndexModel, i: int, today: i32) -> Result<DanglingModel, QueryError> {
    let node = m.nodes[i];
    match least_path_upto(m, container_flags(m, node.id), m.notes.len() as int) {
        None => Err(QueryError::NoPath),
        Some(note_path) => Ok(
            DanglingModel {
                text: loop_text(node),
                section: text_field(node.meta, "section"@),
                first_seen: loop_seen(m, i),
                age_days: age_of(loop_seen(m, i), today),
                sightings: picked(sighting_flags(m, loop_text(node))).len() as int,
                note_path,
            },
        ),
    }
}

/// The entries of the listed loops, from place `from` on.
pub open spec fn dangling_from(
    m: IndexModel,
    order: Seq<int>,
    today: i32,
    from: int,
    before: Seq<DanglingModel>,
) -> Result<Seq<DanglingModel>, QueryError>
    decreases order.len() - from,
{
    if from < 0 || from >= order.len() {
        Ok(before)
    } else {
        match dangling_item(m, order[from], today) {
            Err(e) => Err(e),
            Ok(item) => dangling_from(m, order, today, from + 1, before.push(item)),
        }
    }
}

/// The open loops, stalest first, where `about` names a known project or entity or is not given.
pub open spec fn dangling_of(
    m: IndexModel,
    about: Option<Seq<char>>,
    limit: usize,
    today: i32,
) -> Result<Seq<DanglingModel>, QueryError> {
    match about {
        None => dangling_from(
            m,
            limited(dangling_order(m, None), limit),
            today,
            0,
            Seq::empty(),
        ),
        Some(name) => match subject_place(m.nodes, name) {
            None => Ok(Seq::empty()),
            Some(i) => dangling_from(
                m,
                limited(dangling_order(m, Some(m.nodes[i].id)), limit),
                today,
                0,
                Seq::empty(),
            ),
        },
    }
}

/// Whether `holder` is the note that edge `e` says contains its other end.
spec fn holder_ok(m: IndexModel, e: int, holder: Option<usize>) -> bool {
    match holder {
        Some(n) => n < m.notes.len() && m.edges[e].kind == "contains"@ && m.notes[n as int].node_id
            == m.edges[e].src,
        None => m.edges[e].kind != "contains"@ || !has_note(m.notes, m.edges[e].src),
    }
}

spec fn holders_ok(m: IndexModel, holders: Seq<Option<usize>>) -> bool {
    &&& holders.len() == m.edges.len()
    &&& forall|e: int| 0 <= e < holders.len() ==> holder_ok(m, e, #[trigger] holders[e])
}

/// For each edge, the note that it says contains its other end.
fn holders_of(index: &Index) -> (r: Vec<Option<usize>>)
    requires
        index_ok(index.deep_view()),
    ensures
        holders_ok(index.deep_view(), r@),
{
    let ghost m = index.deep_view();
    let mut out: Vec<Option<usize>> = Vec::new();
    let mut e: usize = 0;
    while e < index.edges.len()
        invariant
            m == index.deep_view(),
            index_ok(m),
            e <= m.edges.len(),
            out@.len() == e,
            forall|x: int| 0 <= x < e ==> holder_ok(m, x, #[trigger] out@[x]),
        decreases m.edges.len() - e,
    {
        assert(m.edges[e as int] == index.edges@[e as int].deep_view());
        let mut holder: Option<usize> = None;
        if same_text(&index.edges[e].kind, "contains") {
            holder = find_note(&index.notes, index.edges[e].src);
            if let Some(n) = holder {
                assert(m.notes[n as int] == index.notes@[n as int].deep_view());
            }
        }
        out.push(holder);
        e += 1;
    }
    out
}

/// For each node, its text where it is a loop.
fn loop_texts(nodes: &Vec<Node>) -> (r: Vec<Option<String>>)
    ensures
        r@.len() == nodes@.len(),
        forall|i: int|
            0 <= i < r@.len() ==> (#[trigger] r@[i]).deep_view() == (if nodes.deep_view()[i].kind
                == "loop"@ {
                Some(loop_text(nodes.deep_view()[i]))
            } else {
                None
            }),
{
    let ghost all = nodes.deep_view();
    let mut out: Vec<Option<String>> = Vec::new();
    let mut i: usize = 0;
    while i < nodes.len()
        invariant
            all == nodes.deep_view(),
            i <= all.len(),
            out@.len() == i,
            forall|k: int|
                0 <= k < i ==> (#[trigger] out@[k]).deep_view() == (if all[k].kind == "loop"@ {
                    Some(loop_text(all[k]))
                } else {
                    None
                }),
        decreases all.len() - i,
    {
        assert(all[i as int] == nodes@[i as int].deep_view());
        if same_text(&nodes[i].kind, "loop") {
            out.push(Some(text_of_loop(&nodes[i])));
        } else {
            out.push(None);
        }
        i += 1;
    }
    out
}

proof fn lemma_one_note(m: IndexModel, a: int, b: int)
    requires
        index_ok(m),
        0 <= a < m.notes.len(),
        0 <= b < m.notes.len(),
        m.notes[a].node_id == m.notes[b].node_id,
    ensures
        a == b,
{
    lemma_note_place(m.notes, a);
    lemma_note_place(m.notes, b);
}

/// Which notes contain a node.
fn containers_of(index: &Index, holders: &Vec<Option<usize>>, id: i64) -> (r: Vec<bool>)
    requires
        index_ok(index.deep_view()),
        holders_ok(index.deep_view(), holders@),
    ensures
        r@ == container_flags(index.deep_view(), id as int),
{
    let ghost m = index.deep_view();
    let mut out = no_flags(index.notes.len());
    let mut e: usize = 0;
    while e < index.edges.len()
        invariant
            m == index.deep_view(),
            index_ok(m),
            holders_ok(m, holders@),
            e <= m.edges.len(),
            out@.len() == m.notes.len(),
            forall|n: int|
                0 <= n < out@.len() ==> #[trigger] out@[n] == contains_upto(
                    m,
                    n,
                    id as int,
                    e as int,
                ),
        decreases m.edges.len() - e,
    {
        assert(m.edges[e as int] == index.edges@[e as int].deep_view());
        let ghost was = out@;
        let holder = holders[e];
        assert(holder_ok(m, e as int, holders@[e as int]));
        if index.edges[e].dst == id {
            if let Some(n) = holder {
                out.set(n, true);
            }
        }
        proof {
            assert forall|n: int| 0 <= n < out@.len() implies #[trigger] out@[n] == contains_upto(
                m,
                n,
                id as int,
                e + 1,
            ) by {
                assert(was[n] == contains_upto(m, n, id as int, e as int));
                if contains_upto(m, n, id as int, e as int) {
                    let x = choose|x: int| 0 <= x < e && #[trigger] holds_loop(m, x, n, id as int);
                    assert(holds_loop(m, x, n, id as int));
                }
                if holds_loop(m, e as int, n, id as int) {
                    assert(m.notes[n].node_id == m.edges[e as int].src);
                    assert(has_note(m.notes, m.edges[e as int].src));
                    lemma_one_note(m, n, holder->0 as int);
                    assert(contains_upto(m, n, id as int, e + 1));
                }
                if contains_upto(m, n, id as int, e + 1) && !contains_upto(
                    m,
                    n,
                    id as int,
                    e as int,
                ) {
                    let x = choose|x: int|
                        0 <= x < e + 1 && #[trigger] holds_loop(m, x, n, id as int);
                    assert(x == e);
                }
                if holder is Some && holder->0 as int == n && m.edges[e as int].dst == id {
                    assert(holds_loop(m, e as int, n, id as int));
                }
            }
        }
        e += 1;
    }
    assert(out@ =~= container_flags(m, id as int));
    out
}

/// Which notes contain a loop with a text.
fn sightings_of(
    index: &Index,
    holders: &Vec<Option<usize>>,
    ends: &Vec<(usize, usize)>,
    texts: &Vec<Option<String>>,
    text: &String,
) -> (r: Vec<bool>)
    requires
        index_ok(index.deep_view()),
        holders_ok(index.deep_view(), holders@),
        ends_ok(index.deep_view(), ends@),
        texts@.len() == index.nodes@.len(),
        forall|i: int|
            0 <= i < texts@.len() ==> (#[trigger] texts@[i]).deep_view() == (
            if index.deep_view().nodes[i].kind == "loop"@ {
                Some(loop_text(index.deep_view().nodes[i]))
            } else {
                None
            }),
    ensures
        r@ == sighting_flags(index.deep_view(), text@),
{
    let ghost m = index.deep_view();
    let mut out = no_flags(index.notes.len());
    let mut e: usize = 0;
    while e < index.edges.len()
        invariant
            m == index.deep_view(),
            index_ok(m),
            holders_ok(m, holders@),
            ends_ok(m, ends@),
            texts@.len() == m.nodes.len(),
            forall|i: int|
                0 <= i < texts@.len() ==> (#[trigger] texts@[i]).deep_view() == (if m.nodes[i].kind
                    == "loop"@ {
                    Some(loop_text(m.nodes[i]))
                } else {
                    None
                }),
            e <= m.edges.len(),
            out@.len() == m.notes.len(),
            forall|n: int|
                0 <= n < out@.len() ==> #[trigger] out@[n] == sighted_upto(m, n, text@, e as int),
        decreases m.edges.len() - e,
    {
        let ghost was = out@;
        let holder = holders[e];
        let (_, d) = ends[e];
        assert(holder_ok(m, e as int, holders@[e as int]));
        assert(end_ok(m, e as int, ends@[e as int]));
        proof {
            lemma_node_place(m.nodes, d as int);
        }
        let mut same = false;
        if let Some(n) = holder {
            if let Some(other) = &texts[d] {
                same = *other == *text;
            }
            assert(texts@[d as int].deep_view() is Some <==> m.nodes[d as int].kind == "loop"@);
            if same {
                out.set(n, true);
            }
        }
        proof {
            assert(node_by_id(m.nodes, m.edges[e as int].dst) == m.nodes[d as int]);
            assert forall|n: int| 0 <= n < out@.len() implies #[trigger] out@[n] == sighted_upto(
                m,
                n,
                text@,
                e + 1,
            ) by {
                assert(was[n] == sighted_upto(m, n, text@, e as int));
                if sighted_upto(m, n, text@, e as int) {
                    let x = choose|x: int| 0 <= x < e && #[trigger] holds_text(m, x, n, text@);
                    assert(holds_text(m, x, n, text@));
                }
                if holds_text(m, e as int, n, text@) {
                    assert(m.notes[n].node_id == m.edges[e as int].src);
                    assert(has_note(m.notes, m.edges[e as int].src));
                    lemma_one_note(m, n, holder->0 as int);
                    assert(sighted_upto(m, n, text@, e + 1));
                }
                if sighted_upto(m, n, text@, e + 1) && !sighted_upto(m, n, text@, e as int) {
                    let x = choose|x: int| 0 <= x < e + 1 && #[trigger] holds_text(m, x, n, text@);
                    assert(x == e);
                }
                if holder is Some && holder->0 as int == n && same {
                    assert(holds_text(m, e as int, n, text@));
                }
            }
        }
        e += 1;
    }
    assert(out@ =~= sighting_flags(m, text@));
    out
}

/// The lesser of two optional texts; one that is not there counts for nothing.
pub fn least_of(a: Option<String>, b: Option<String>) -> (r: Option<String>)
    ensures
        r.deep_view() == least(a.deep_view(), b.deep_view()),
{
    match (a, b) {
        (Some(x), Some(y)) => if text_not_after(&x, &y) {
            Some(x)
        } else {
            Some(y)
        },
        (Some(x), None) => Some(x),
        (None, y) => y,
    }
}

/// The date of a note: its own, else its file's.
pub fn seen_of(note: &NoteRow) -> (r: Option<String>)
    ensures
        r.deep_view() == seen_on(note.deep_view()),
{
    match &note.note_date {
        Some(d) => Some(d.clone()),
        None => copy_text(&note.mtime),
    }
}

/// The earliest date and the least path of the flagged notes.
fn earliest(index: &Index, flags: &Vec<bool>) -> (r: (Option<String>, Option<String>))
    requires
        index_ok(index.deep_view()),
        flags@.len() == index.notes@.len(),
    ensures
        r.0.deep_view() == first_seen_upto(
            index.deep_view(),
            flags@,
            index.notes@.len() as int,
        ),
        r.1.deep_view() == least_path_upto(
            index.deep_view(),
            flags@,
            index.notes@.len() as int,
        ),
{
    let ghost m = index.deep_view();
    let mut date: Option<String> = None;
    let mut path: Option<String> = None;
    let mut n: usize = 0;
    while n < index.notes.len()
        invariant
            m == index.deep_view(),
            index_ok(m),
            flags@.len() == m.notes.len(),
            n <= m.notes.len(),
            date.deep_view() == first_seen_upto(m, flags@, n as int),
            path.deep_view() == least_path_upto(m, flags@, n as int),
        decreases m.notes.len() - n,
    {
        assert(m.notes[n as int] == index.notes@[n as int].deep_view());
        if flags[n] {
            date = least_of(date, seen_of(&index.notes[n]));
            path = least_of(path, path_of_note(index, n));
        }
        n += 1;
    }
    (date, path)
}

fn stalest_key(date: &Option<String>) -> (r: SortKey)
    ensures
        r.deep_view() == stalest_first(date.deep_view()),
{
    let mut parts: Vec<KeyPart> = Vec::new();
    match date {
        Some(d) => {
            parts.push(KeyPart::Num(0));
            parts.push(KeyPart::Text(d.clone()));
        },
        None => {
            parts.push(KeyPart::Num(1));
        },
    }
    let key = SortKey { parts };
    assert(key.deep_view() =~= stalest_first(date.deep_view()));
    key
}

/// Whether one of the edges says that a node mentions another.
fn mentions_to(index: &Index, src: i64, dst: i64) -> (r: bool)
    ensures
        r == mentions(index.deep_view(), src as int, dst as int),
{
    let ghost m = index.deep_view();
    let mut e: usize = 0;
    while e < index.edges.len()
        invariant
            m == index.deep_view(),
            e <= m.edges.len(),
            forall|x: int|
                0 <= x < e ==> !((#[trigger] m.edges[x]).kind == "mentions"@ && m.edges[x].src
                    == src && m.edges[x].dst == dst),
        decreases m.edges.len() - e,
    {
        let edge = &index.edges[e];
        assert(m.edges[e as int] == edge.deep_view());
        if edge.src == src && edge.dst == dst && same_text(&edge.kind, "mentions") {
            return true;
        }
        e += 1;
    }
    false
}

/// Whether any flag is set.
fn any_flag(flags: &Vec<bool>) -> (r: bool)
    ensures
        r == (picked(flags@).len() > 0),
{
    let picks = pick(flags);
    assert(places(picks@).len() == picks@.len());
    picks.len() > 0
}

/// The order in which loops are listed.
fn dangling_places(index: &Index, holders: &Vec<Option<usize>>, about: Option<i64>) -> (r: Vec<usize>)
    requires
        index_ok(index.deep_view()),
        holders_ok(index.deep_view(), holders@),
    ensures
        places(r@) == dangling_order(index.deep_view(), match about {
            Some(id) => Some(id as int),
            None => None,
        }),
        forall|k: int| 0 <= k < r@.len() ==> #[trigger] r@[k] < index.nodes@.len(),
{
    let ghost m = index.deep_view();
    let ghost wanted: Option<int> = match about {
        Some(id) => Some(id as int),
        None => None,
    };
    let ghost flags = dangling_flags(m, wanted);
    let mut near: Vec<usize> = Vec::new();
    let mut keys: Vec<SortKey> = Vec::new();
    let mut i: usize = 0;
    assert(flags.take(0) =~= Seq::<bool>::empty());
    assert(places(near@) =~= Seq::<int>::empty());
    assert(keys.deep_view() =~= Seq::<KeyModel>::empty());
    while i < index.nodes.len()
        invariant
            m == index.deep_view(),
            index_ok(m),
            holders_ok(m, holders@),
            flags == dangling_flags(m, wanted),
            wanted == (match about {
                Some(id) => Some(id as int),
                None => None::<int>,
            }),
            i <= m.nodes.len(),
            places(near@) == picked(flags.take(i as int)),
            forall|k: int| 0 <= k < near@.len() ==> #[trigger] near@[k] < i,
            keys.deep_view() == dangling_keys(m, places(near@)),
        decreases m.nodes.len() - i,
    {
        let ghost near0 = places(near@);
        let ghost keys0 = keys.deep_view();
        let node = &index.nodes[i];
        assert(m.nodes[i as int] == node.deep_view());
        assert(flags.take(i + 1).drop_last() =~= flags.take(i as int));
        if same_text(&node.kind, "loop") {
            let containers = containers_of(index, holders, node.id);
            let asked = match about {
                Some(id) => mentions_to(index, node.id, id),
                None => true,
            };
            if asked && any_flag(&containers) {
                let (date, _) = earliest(index, &containers);
                near.push(i);
                let key = stalest_key(&date);
                keys.push(key);
                assert(places(near@) =~= near0.push(i as int));
                assert(keys.deep_view() =~= keys0.push(key.deep_view()));
                assert(dangling_keys(m, places(near@)) =~= keys0.push(key.deep_view()));
            }
        }
        i += 1;
    }
    assert(flags.take(m.nodes.len() as int) =~= flags);
    assert(keys_ok(keys.deep_view()));
    let ghost picks = picked(flags);
    let r = arrange(&near, &keys);
    proof {
        lemma_ordered(picks, dangling_keys(m, picks));
        lemma_picked(flags);
        assert forall|k: int| 0 <= k < r@.len() implies #[trigger] r@[k] < index.nodes@.len() by {
            assert(places(r@)[k] == r@[k]);
            assert(ordered(picks, dangling_keys(m, picks))[k] == r@[k]);
        }
    }
    r
}

fn age_in_days(date: &Option<String>, today: i32) -> (r: Option<i64>)
    ensures
        r == age_of(date.deep_view(), today),
{
    match date {
        None => None,
        Some(d) => match parse_day(d) {
            None => None,
            Some(day) => Some(today as i64 - day as i64),
        },
    }
}

/// Open loops, stalest first. `about` keeps the loops whose text mentions the given project or
/// entity. `today` is the number of days from the first day of the year 1, that day counted as 1.
pub fn dangling(index: &Index, about: Option<&str>, limit: usize, today: i32) -> (r: Result<
    Vec<Dangling>,
    QueryError,
>)
    requires
        index_ok(index.deep_view()),
        index.notes@.len() <= i64::MAX,
    ensures
        match r {
            Ok(loops) => dangling_of(
                index.deep_view(),
                match about {
                    Some(name) => Some(name@),
                    None => None,
                },
                limit,
                today,
            ) == Ok::<Seq<DanglingModel>, QueryError>(loops.deep_view()),
            Err(e) => dangling_of(
                index.deep_view(),
                match about {
                    Some(name) => Some(name@),
                    None => None,
                },
                limit,
                today,
            ) == Err::<Seq<DanglingModel>, QueryError>(e),
        },
{
    let ghost m = index.deep_view();
    let mut out: Vec<Dangling> = Vec::new();
    assert(out.deep_view() =~= Seq::<DanglingModel>::empty());
    let wanted: Option<i64> = match about {
        None => None,
        Some(name) => match find_subject(&index.nodes, name) {
            None => {
                return Ok(out);
            },
            Some(at) => {
                assert(m.nodes[at as int] == index.nodes@[at as int].deep_view());
                Some(index.nodes[at].id)
            },
        },
    };
    let holders = holders_of(index);
    let ends = edge_ends(index);
    let texts = loop_texts(&index.nodes);
    let order = take_places(dangling_places(index, &holders, wanted), limit);
    let ghost listed = places(order@);
    let ghost asked: Option<Seq<char>> = match about {
        Some(name) => Some(name@),
        None => None,
    };
    assert(dangling_of(m, asked, limit, today) == dangling_from(m, listed, today, 0, Seq::empty()));
    let mut k: usize = 0;
    while k < order.len()
        invariant
            m == index.deep_view(),
            index_ok(m),
            index.notes@.len() <= i64::MAX,
            holders_ok(m, holders@),
            ends_ok(m, ends@),
            texts@.len() == m.nodes.len(),
            forall|i: int|
                0 <= i < texts@.len() ==> (#[trigger] texts@[i]).deep_view() == (if m.nodes[i].kind
                    == "loop"@ {
                    Some(loop_text(m.nodes[i]))
                } else {
                    None
                }),
            listed == places(order@),
            asked == (match about {
                Some(name) => Some(name@),
                None => None::<Seq<char>>,
            }),
            dangling_of(m, asked, limit, today) == dangling_from(m, listed, today, 0, Seq::empty()),
            k <= order@.len(),
            forall|j: int| 0 <= j < order@.len() ==> #[trigger] order@[j] < m.nodes.len(),
            dangling_from(m, listed, today, 0, Seq::empty()) == dangling_from(
                m,
                listed,
                today,
                k as int,
                out.deep_view(),
            ),
        decreases order@.len() - k,
    {
        let ghost before = out.deep_view();
        let i = order[k];
        assert(listed[k as int] == i as int);
        let node = &index.nodes[i];
        assert(m.nodes[i as int] == node.deep_view());
        let containers = containers_of(index, &holders, node.id);
        let (first_seen, path) = earliest(index, &containers);
        match path {
            None => {
                return Err(QueryError::NoPath);
            },
            Some(note_path) => {
                let text = text_of_loop(node);
                let flags = sightings_of(index, &holders, &ends, &texts, &text);
                let picks = pick(&flags);
                proof {
                    lemma_picked(flags@);
                    assert(places(picks@).len() == picks@.len());
                }
                let item = Dangling {
                    text,
                    section: json_text_field(&node.meta, "section"),
                    age_days: age_in_days(&first_seen, today),
                    first_seen,
                    sightings: picks.len() as i64,
                    note_path,
                };
                out.push(item);
                assert(Ok::<DanglingModel, QueryError>(item.deep_view()) == dangling_item(
                    m,
                    i as int,
                    today,
                ));
                assert(out.deep_view() =~= before.push(item.deep_view()));
            },
        }
        k += 1;
    }
    Ok(out)
}

} // verus!
