//! What a search promises, row by row of the index: which notes it gives, and what it shows of them.

use vstd::prelude::*;

use crate::answers::{lemma_by_date_order, lemma_hits};
use crate::query::{
    by_date, finds, found_flags, hit_of, hits_from, hits_of, like, limited, note_path_of, snippet,
    HitModel, QueryError,
};
use crate::recall::{is_path_of, lemma_path_of};
use crate::select::lemma_picked_count;
use crate::store::{index_ok, IndexModel};
use crate::text::{
    ascii_lower, ascii_lowercase, boundary_from, byte_len, find_from, lemma_byte_len_push,
    lemma_find_from, lemma_place_of_unique, lowercase, replaced, trim,
};
use crate::words::{lemma_stands, stands};

verus! {

/// Whether a term first stands in a text at `i`.
pub open spec fn stands_first(text: Seq<char>, term: Seq<char>, i: int) -> bool {
    stands(text, term, i) && forall|j: int| 0 <= j < i ==> !#[trigger] stands(text, term, j)
}

proof fn lemma_stands_first(text: Seq<char>, term: Seq<char>)
    ensures
        match find_from(text, term, 0) {
            Some(i) => stands_first(text, term, i),
            None => forall|i: int| !#[trigger] stands(text, term, i),
        },
{
    lemma_find_from(text, term, 0);
    assert forall|i: int| #[trigger] stands(text, term, i) == crate::text::occurs_at(
        text,
        term,
        i,
    ) by {
        lemma_stands(text, term, i);
    }
}

proof fn lemma_bytes_grow(s: Seq<char>, a: int, b: int)
    requires
        0 <= a < b <= s.len(),
    ensures
        byte_len(s.take(a)) < byte_len(s.take(b)),
    decreases b,
{
    lemma_byte_len_push(s.take(b - 1), s[b - 1]);
    assert(s.take(b) =~= s.take(b - 1).push(s[b - 1]));
    if a < b - 1 {
        lemma_bytes_grow(s, a, b - 1);
    }
}

proof fn lemma_boundary_at(s: Seq<char>, pos: nat, from: int, at: int)
    requires
        0 <= from <= at <= s.len(),
        byte_len(s.take(at)) == pos,
    ensures
        boundary_from(s, pos, from) == Some(at),
    decreases at - from,
{
    if from < at {
        lemma_bytes_grow(s, from, at);
        lemma_boundary_at(s, pos, from + 1, at);
    }
}

/// The place in a text that is as many bytes in as place `i` of its lowercase form.
pub open spec fn is_same_place(body: Seq<char>, at: int, lower: Seq<char>, i: int) -> bool {
    0 <= at <= body.len() && byte_len(body.take(at)) == byte_len(lower.take(i))
}

/// A snippet shows the text round the place where the term first stands in its lowercase form: up to
/// sixty-one characters before it, and behind it as many as the term has bytes and sixty more, on
/// one line and trimmed. It is empty where the term does not stand there.
pub proof fn law_snippets_show_what_was_found(
    body: Seq<char>,
    lower: Seq<char>,
    term: Seq<char>,
    i: int,
    at: int,
)
    ensures
        stands_first(lower, term, i) && is_same_place(body, at, lower, i) ==> snippet(
            body,
            lower,
            term,
        ) == trim(
            replaced(
                body.subrange(
                    if at >= 61 {
                        at - 61
                    } else {
                        0
                    },
                    if at + byte_len(term) + 60 < body.len() {
                        at + byte_len(term) + 60
                    } else {
                        body.len() as int
                    },
                ),
                '\n',
                " "@,
            ),
        ),
        (forall|j: int| !#[trigger] stands(lower, term, j)) ==> snippet(body, lower, term) == ""@,
{
    lemma_stands_first(lower, term);
    if stands_first(lower, term, i) && is_same_place(body, at, lower, i) {
        let found = find_from(lower, term, 0)->0;
        if found < i {
            assert(!stands(lower, term, found));
        }
        if i < found {
            assert(!stands(lower, term, i));
        }
        lemma_boundary_at(body, byte_len(lower.take(i)), 0, at);
    }
}

/// Whether a hit is that of note row `n`, which the term finds.
pub open spec fn is_hit_of(m: IndexModel, lower: Seq<char>, item: HitModel, n: int) -> bool {
    &&& 0 <= n < m.notes.len()
    &&& finds(lower, m.notes[n].body)
    &&& is_path_of(m, n, item.path)
    &&& item.note_date == m.notes[n].note_date
    &&& item.snippet == snippet(m.notes[n].body, lowercase(m.notes[n].body), lower)
}

/// Whether a hit is that of some note.
pub open spec fn from_found(m: IndexModel, lower: Seq<char>, item: HitModel) -> bool {
    exists|n: int| is_hit_of(m, lower, item, n)
}

proof fn lemma_snippets(
    m: IndexModel,
    term: Seq<char>,
    order: Seq<int>,
    from: int,
    start: Seq<HitModel>,
)
    requires
        0 <= from <= order.len(),
    ensures
        hits_from(m, term, order, from, start) matches Ok(hits) ==> {
            &&& hits.len() == start.len() + order.len() - from
            &&& forall|k: int| 0 <= k < start.len() ==> #[trigger] hits[k] == start[k]
            &&& forall|k: int|
                start.len() <= k < hits.len() ==> {
                    let n = order[from + k - start.len()];
                    (#[trigger] hits[k]).snippet == snippet(
                        m.notes[n].body,
                        lowercase(m.notes[n].body),
                        term,
                    )
                }
        },
    decreases order.len() - from,
{
    if from < order.len() {
        let lower_body = lowercase(m.notes[order[from]].body);
        if let Ok(hits) = hits_from(m, term, order, from, start) {
            let hit = hit_of(m, order[from], lower_body, term)->Ok_0;
            let next = start.push(hit);
            lemma_snippets(m, term, order, from + 1, next);
            assert forall|k: int| 0 <= k < start.len() implies #[trigger] hits[k] == start[k] by {
                assert(hits[k] == next[k]);
            }
            assert forall|k: int| start.len() <= k < hits.len() implies {
                let n = order[from + k - start.len()];
                (#[trigger] hits[k]).snippet == snippet(
                    m.notes[n].body,
                    lowercase(m.notes[n].body),
                    term,
                )
            } by {
                if k == start.len() {
                    assert(hits[k] == next[k]);
                } else {
                    assert(from + 1 + k - next.len() == from + k - start.len());
                }
            }
        }
    }
}

/// A search gives one hit for each note that the term finds, up to the limit, with the path, the
/// date and a snippet of the note. Where the limit leaves room for all of them, none is left out.
pub proof fn law_search_tells_what_it_found(m: IndexModel, lower: Seq<char>, limit: usize)
    requires
        index_ok(m),
    ensures
        hits_of(m, lower, limit) matches Ok(hits) ==> {
            let all = Set::new(|n: int| 0 <= n < m.notes.len() && finds(lower, m.notes[n].body));
            &&& hits.len() == if all.len() <= limit {
                all.len()
            } else {
                limit as nat
            }
            &&& forall|k: int| 0 <= k < hits.len() ==> from_found(m, lower, #[trigger] hits[k])
            &&& all.len() <= limit ==> forall|n: int|
                0 <= n < m.notes.len() && finds(lower, (#[trigger] m.notes[n]).body) ==> exists|
                    k: int,
                | 0 <= k < hits.len() && is_hit_of(m, lower, #[trigger] hits[k], n)
        },
{
    if let Ok(hits) = hits_of(m, lower, limit) {
        let flags = found_flags(m.notes, lower);
        let order = by_date(m.notes, flags);
        let short = limited(order, limit);
        lemma_by_date_order(m.notes, flags);
        lemma_hits(m, lower, short, 0, Seq::empty());
        lemma_snippets(m, lower, short, 0, Seq::empty());
        assert forall|k: int| 0 <= k < hits.len() implies is_hit_of(
            m,
            lower,
            #[trigger] hits[k],
            order[k],
        ) by {
            assert(short[k] == order[k]);
            assert(flags[order[k]]);
            assert(note_path_of(m, short[0 + k - 0]) == Some(hits[k].path));
            lemma_path_of(m, order[k], hits[k].path);
        }
        assert forall|k: int| 0 <= k < hits.len() implies from_found(
            m,
            lower,
            #[trigger] hits[k],
        ) by {
            assert(is_hit_of(m, lower, hits[k], order[k]));
        }
        let all = Set::new(|n: int| 0 <= n < m.notes.len() && finds(lower, m.notes[n].body));
        assert forall|n: int| #[trigger] all.contains(n) <==> 0 <= n < flags.len() && flags[n] by {}
        lemma_picked_count(flags, all);
        if order.len() <= limit {
            assert forall|n: int|
                0 <= n < m.notes.len() && finds(lower, (#[trigger] m.notes[n]).body) implies exists|
                k: int,
            | 0 <= k < hits.len() && is_hit_of(m, lower, #[trigger] hits[k], n) by {
                assert(flags[n]);
                assert(order.contains(n));
                let k = choose|k: int| 0 <= k < order.len() && order[k] == n;
                assert(is_hit_of(m, lower, hits[k], order[k]));
            }
        }
    }
}

/// In a pattern `%` stands for any characters, `_` for any one, and a letter for itself in either
/// case; a pattern without anything matches only the empty text.
pub proof fn law_wildcards_stand_for_characters(pattern: Seq<char>, text: Seq<char>, c: char, d: char)
    ensures
        like(Seq::empty(), text) <==> text.len() == 0,
        like(seq!['%'] + pattern, text) <==> exists|i: int|
            0 <= i <= text.len() && like(pattern, #[trigger] text.skip(i)),
        c != '%' ==> !like(seq![c] + pattern, Seq::empty()),
        like(seq!['_'] + pattern, seq![d] + text) <==> like(pattern, text),
        c != '%' && c != '_' ==> (like(seq![c] + pattern, seq![d] + text) <==> ascii_lower(c)
            == ascii_lower(d) && like(pattern, text)),
{
    assert((seq!['%'] + pattern).skip(1) =~= pattern);
    assert((seq!['_'] + pattern).skip(1) =~= pattern);
    assert((seq![c] + pattern).skip(1) =~= pattern);
    assert((seq![d] + text).skip(1) =~= text);
    lemma_percent(pattern, text);
}

proof fn lemma_percent(pattern: Seq<char>, text: Seq<char>)
    ensures
        like(seq!['%'] + pattern, text) <==> exists|i: int|
            0 <= i <= text.len() && like(pattern, #[trigger] text.skip(i)),
    decreases text.len(),
{
    let all = seq!['%'] + pattern;
    assert(all.skip(1) =~= pattern);
    assert(text.skip(0) =~= text);
    if text.len() > 0 {
        let rest = text.skip(1);
        lemma_percent(pattern, rest);
        assert forall|i: int| 0 <= i <= rest.len() implies #[trigger] rest.skip(i) == text.skip(
            i + 1,
        ) by {
            assert(rest.skip(i) =~= text.skip(i + 1));
        }
        if exists|i: int| 0 <= i <= text.len() && like(pattern, #[trigger] text.skip(i)) {
            let i = choose|i: int| 0 <= i <= text.len() && like(pattern, #[trigger] text.skip(i));
            if i > 0 {
                assert(rest.skip(i - 1) == text.skip(i));
            }
        }
    } else if exists|i: int| 0 <= i <= text.len() && like(pattern, #[trigger] text.skip(i)) {
        let i = choose|i: int| 0 <= i <= text.len() && like(pattern, #[trigger] text.skip(i));
        assert(text.skip(i) =~= text);
    }
}

/// What stands behind a NUL character in a note is not searched.
pub proof fn law_search_ends_at_nul(lower: Seq<char>, body: Seq<char>, rest: Seq<char>)
    requires
        !body.contains('\0'),
    ensures
        finds(lower, body.push('\0') + rest) == finds(lower, body),
{
    let long = ascii_lowercase(body.push('\0') + rest);
    let short = ascii_lowercase(body);
    assert forall|i: int| 0 <= i < body.len() implies #[trigger] short[i] != '\0' && long[i]
        == short[i] by {
        assert(body.contains(body[i]));
    }
    assert(ascii_lower('\0') == '\0');
    lemma_place_of_unique(long, '\0', body.len());
    lemma_place_of_unique(short, '\0', body.len());
    assert(long.take(body.len() as int) =~= short.take(body.len() as int));
}

/// A search refuses a term only where it is longer than 49,998 bytes and there is something to
/// search.
pub proof fn law_only_long_terms_are_refused(m: IndexModel, lower: Seq<char>, limit: usize)
    ensures
        byte_len(lower) > 49_998 && limit > 0 && m.notes.len() > 0 ==> hits_of(m, lower, limit)
            == Err::<Seq<HitModel>, QueryError>(QueryError::TermTooLong),
        hits_of(m, lower, limit) == Err::<Seq<HitModel>, QueryError>(QueryError::TermTooLong)
            ==> byte_len(lower) > 49_998 && limit > 0 && m.notes.len() > 0,
{
    lemma_no_long_term(m, lower, crate::query::found_order(m, lower, limit), 0, Seq::empty());
}

proof fn lemma_no_long_term(
    m: IndexModel,
    term: Seq<char>,
    order: Seq<int>,
    from: int,
    before: Seq<HitModel>,
)
    requires
        0 <= from,
    ensures
        hits_from(m, term, order, from, before) != Err::<Seq<HitModel>, QueryError>(
            QueryError::TermTooLong,
        ),
    decreases order.len() - from,
{
    if from < order.len() {
        if let Ok(hit) = hit_of(m, order[from], lowercase(m.notes[order[from]].body), term) {
            lemma_no_long_term(m, term, order, from + 1, before.push(hit));
        }
    }
}

} // verus!
