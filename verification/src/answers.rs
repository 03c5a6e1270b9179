//! What the answers to questions promise as a whole: what is found, and in which order.

use vstd::prelude::*;

use crate::order::{before, key_le, keys_ok, order_of, text_le, PartModel};
use crate::query::{
    about_node, anywhere, arc, by_date, dangling_flags, dangling_from, dangling_item, dangling_keys,
    dangling_of, dangling_order, fact_of, facts_upto, finds, found_flags, hit_of, hits_from, hits_of,
    is_dangling, like, limited, loop_seen, mentioning_flags, newest_first, note_keys, note_path_of,
    refs_from, stalest_first, subject_place, until_nul, DanglingModel, HitModel,
    NoteRefModel, QueryError,
};
use crate::select::{lemma_ordered, lemma_picked, picked};
use crate::store::{IndexModel, NoteModel};
use crate::text::{
    ascii_lower, ascii_lowercase, has_text, lemma_place_of_unique, lowercase, occurs_at,
};

verus! {

/// Whether a date comes before or with another when the newest come first and undated ones last.
pub open spec fn newer(a: Option<Seq<char>>, b: Option<Seq<char>>) -> bool {
    match (a, b) {
        (Some(x), Some(y)) => text_le(y, x),
        (Some(_), None) => true,
        (None, Some(_)) => false,
        (None, None) => true,
    }
}

/// Whether a date comes before or with another when the stalest come first and undated ones last.
pub open spec fn staler(a: Option<Seq<char>>, b: Option<Seq<char>>) -> bool {
    match (a, b) {
        (Some(x), Some(y)) => text_le(x, y),
        (Some(_), None) => true,
        (None, Some(_)) => false,
        (None, None) => true,
    }
}

proof fn lemma_newer(a: Option<Seq<char>>, b: Option<Seq<char>>)
    requires
        key_le(newest_first(a), newest_first(b)),
    ensures
        newer(a, b),
{
    reveal_with_fuel(key_le, 3);
    if let (Some(x), Some(y)) = (a, b) {
        assert(newest_first(a).skip(1)[0] == PartModel::TextDown(x));
        assert(newest_first(b).skip(1)[0] == PartModel::TextDown(y));
    }
}

proof fn lemma_staler(a: Option<Seq<char>>, b: Option<Seq<char>>)
    requires
        key_le(stalest_first(a), stalest_first(b)),
    ensures
        staler(a, b),
{
    reveal_with_fuel(key_le, 3);
    if let (Some(x), Some(y)) = (a, b) {
        assert(stalest_first(a).skip(1)[0] == PartModel::Text(x));
        assert(stalest_first(b).skip(1)[0] == PartModel::Text(y));
    }
}

/// The flagged notes come newest first, each once.
pub proof fn lemma_by_date_order(notes: Seq<NoteModel>, flags: Seq<bool>)
    requires
        flags.len() == notes.len(),
    ensures
        by_date(notes, flags).len() == picked(flags).len() <= notes.len(),
        forall|k: int|
            0 <= k < by_date(notes, flags).len() ==> 0 <= #[trigger] by_date(notes, flags)[k]
                < notes.len() && flags[by_date(notes, flags)[k]],
        forall|i: int|
            0 <= i < notes.len() && flags[i] ==> #[trigger] by_date(notes, flags).contains(i),
        forall|k: int, l: int|
            0 <= k < l < by_date(notes, flags).len() ==> newer(
                notes[#[trigger] by_date(notes, flags)[k]].note_date,
                notes[#[trigger] by_date(notes, flags)[l]].note_date,
            ),
{
    let picks = picked(flags);
    let keys = note_keys(notes, picks);
    let list = by_date(notes, flags);
    lemma_picked(flags);
    assert(keys_ok(keys));
    lemma_ordered(picks, keys);
    let order = order_of(keys);
    assert forall|k: int| 0 <= k < list.len() implies 0 <= #[trigger] list[k] < notes.len()
        && flags[list[k]] by {
        assert(list[k] == picks[order[k]]);
    }
    assert forall|i: int| 0 <= i < notes.len() && flags[i] implies #[trigger] list.contains(i) by {
        assert(picks.contains(i));
    }
    assert forall|k: int, l: int| 0 <= k < l < list.len() implies newer(
        notes[#[trigger] list[k]].note_date,
        notes[#[trigger] list[l]].note_date,
    ) by {
        assert(list[k] == picks[order[k]] && list[l] == picks[order[l]]);
        assert(before(keys, order[k], order[l]));
        lemma_newer(notes[list[k]].note_date, notes[list[l]].note_date);
    }
}

/// The hits are those of the listed notes, one for each.
pub proof fn lemma_hits(
    m: IndexModel,
    term: Seq<char>,
    order: Seq<int>,
    from: int,
    start: Seq<HitModel>,
)
    requires
        0 <= from <= order.len(),
    ensures
        hits_from(m, term, order, from, start) matches Ok(hits) ==> {
            &&& hits.len() == start.len() + order.len() - from
            &&& forall|k: int| 0 <= k < start.len() ==> #[trigger] hits[k] == start[k]
            &&& forall|k: int|
                start.len() <= k < hits.len() ==> (#[trigger] hits[k]).note_date
                    == m.notes[order[from + k - start.len()]].note_date && note_path_of(
                    m,
                    order[from + k - start.len()],
                ) == Some(hits[k].path)
        },
    decreases order.len() - from,
{
    if from < order.len() {
        let lower_body = lowercase(m.notes[order[from]].body);
        if let Ok(hits) = hits_from(m, term, order, from, start) {
            let hit = hit_of(m, order[from], lower_body, term)->Ok_0;
            let next = start.push(hit);
            lemma_hits(m, term, order, from + 1, next);
            assert(hits_from(m, term, order, from + 1, next) == Ok::<Seq<HitModel>, QueryError>(
                hits,
            ));
            assert forall|k: int| 0 <= k < start.len() implies #[trigger] hits[k] == start[k] by {
                assert(hits[k] == next[k]);
            }
            assert forall|k: int| start.len() <= k < hits.len() implies (
            #[trigger] hits[k]).note_date == m.notes[order[from + k - start.len()]].note_date
                && note_path_of(m, order[from + k - start.len()]) == Some(hits[k].path) by {
                if k == start.len() {
                    assert(hits[k] == next[k]);
                } else {
                    assert(from + 1 + k - next.len() == from + k - start.len());
                }
            }
        }
    }
}

/// A search gives the notes that the term finds, newest first and undated ones last, and no more
/// than the limit.
pub proof fn law_search_is_newest_first(m: IndexModel, lower: Seq<char>, limit: usize)
    ensures
        hits_of(m, lower, limit) matches Ok(hits) ==> {
            &&& hits.len() <= limit
            &&& forall|k: int, l: int|
                0 <= k < l < hits.len() ==> newer(
                    (#[trigger] hits[k]).note_date,
                    (#[trigger] hits[l]).note_date,
                )
            &&& forall|k: int|
                0 <= k < hits.len() ==> exists|i: int|
                    #![trigger m.notes[i]]
                    0 <= i < m.notes.len() && finds(lower, m.notes[i].body) && note_path_of(m, i)
                        == Some((#[trigger] hits[k]).path) && m.notes[i].note_date
                        == hits[k].note_date
        },
{
    if let Ok(hits) = hits_of(m, lower, limit) {
        let flags = found_flags(m.notes, lower);
        let all = by_date(m.notes, flags);
        let order = limited(all, limit);
        lemma_by_date_order(m.notes, flags);
        lemma_hits(m, lower, order, 0, Seq::empty());
        assert forall|k: int, l: int| 0 <= k < l < hits.len() implies newer(
            (#[trigger] hits[k]).note_date,
            (#[trigger] hits[l]).note_date,
        ) by {
            assert(order[k] == all[k] && order[l] == all[l]);
        }
        assert forall|k: int| 0 <= k < hits.len() implies exists|i: int|
            #![trigger m.notes[i]]
            0 <= i < m.notes.len() && finds(lower, m.notes[i].body) && note_path_of(m, i) == Some(
                (#[trigger] hits[k]).path,
            ) && m.notes[i].note_date == hits[k].note_date by {
            assert(order[k] == all[k]);
            assert(flags[all[k]]);
            assert(finds(lower, m.notes[order[k]].body));
        }
    }
}

/// Where the limit leaves room for all notes, a search gives every note that the term finds.
pub proof fn law_search_misses_nothing(m: IndexModel, lower: Seq<char>, limit: usize, i: int)
    requires
        m.notes.len() <= limit,
        0 <= i < m.notes.len(),
        finds(lower, m.notes[i].body),
    ensures
        hits_of(m, lower, limit) matches Ok(hits) ==> exists|k: int|
            0 <= k < hits.len() && note_path_of(m, i) == Some((#[trigger] hits[k]).path)
                && hits[k].note_date == m.notes[i].note_date,
{
    if let Ok(hits) = hits_of(m, lower, limit) {
        let flags = found_flags(m.notes, lower);
        let all = by_date(m.notes, flags);
        lemma_by_date_order(m.notes, flags);
        assert(limited(all, limit) == all);
        lemma_hits(m, lower, all, 0, Seq::empty());
        assert(flags[i]);
        assert(all.contains(i));
        let k = choose|k: int| 0 <= k < all.len() && all[k] == i;
        assert(note_path_of(m, all[k]) == Some(hits[k].path));
    }
}

/// Whether a term holds neither a wildcard nor a NUL character.
pub open spec fn is_plain(term: Seq<char>) -> bool {
    forall|i: int|
        0 <= i < term.len() ==> #[trigger] term[i] != '%' && term[i] != '_' && term[i] != '\0'
}

/// A plain pattern with a trailing wildcard matches the texts that start with it.
proof fn lemma_like_start(p: Seq<char>, s: Seq<char>)
    requires
        is_plain(p),
    ensures
        like(p.push('%'), s) <==> occurs_at(ascii_lowercase(s), ascii_lowercase(p), 0),
    decreases p.len(),
{
    let q = p.push('%');
    let low_s = ascii_lowercase(s);
    let low_p = ascii_lowercase(p);
    if p.len() == 0 {
        assert(q =~= seq!['%']);
        lemma_like_rest(s);
        assert(low_s.subrange(0, 0) =~= low_p);
    } else {
        assert(q[0] == p[0]);
        assert(p[0] != '%' && p[0] != '_');
        if s.len() == 0 {
            assert(!like(q, s));
        } else {
            let p1 = p.skip(1);
            assert(q.skip(1) =~= p1.push('%'));
            assert forall|i: int| 0 <= i < p1.len() implies #[trigger] p1[i] != '%' && p1[i] != '_'
                && p1[i] != '\0' by {
                assert(p1[i] == p[i + 1]);
            }
            lemma_like_start(p1, s.skip(1));
            let low_s1 = ascii_lowercase(s.skip(1));
            let low_p1 = ascii_lowercase(p1);
            assert(low_s1 =~= low_s.skip(1));
            assert(low_p1 =~= low_p.skip(1));
            let n = p.len() as int;
            if n <= s.len() {
                assert(low_s.subrange(0, n).skip(1) =~= low_s1.subrange(0, n - 1));
                if occurs_at(low_s, low_p, 0) {
                    assert(low_s.subrange(0, n)[0] == low_p[0]);
                    assert(low_s1.subrange(0, n - 1) =~= low_p1);
                }
                if occurs_at(low_s1, low_p1, 0) && ascii_lower(p[0]) == ascii_lower(s[0]) {
                    assert forall|i: int| 0 <= i < n implies low_s.subrange(0, n)[i]
                        == low_p[i] by {
                        if i > 0 {
                            assert(low_s1.subrange(0, n - 1)[i - 1] == low_p1[i - 1]);
                        }
                    }
                    assert(low_s.subrange(0, n) =~= low_p);
                }
            }
        }
    }
}

/// The wildcard alone matches everything.
proof fn lemma_like_rest(s: Seq<char>)
    ensures
        like(seq!['%'], s),
    decreases s.len(),
{
    let p = seq!['%'];
    assert(p.skip(1) =~= Seq::<char>::empty());
    if s.len() > 0 {
        lemma_like_rest(s.skip(1));
    } else {
        assert(like(Seq::empty(), s));
    }
}

/// A pattern behind a wildcard matches the texts some end of which matches it.
proof fn lemma_like_anywhere(q: Seq<char>, s: Seq<char>)
    ensures
        like(seq!['%'] + q, s) <==> exists|i: int| 0 <= i <= s.len() && like(q, #[trigger] s.skip(i)),
    decreases s.len(),
{
    let p = seq!['%'] + q;
    assert(p.skip(1) =~= q);
    assert(s.skip(0) =~= s);
    if s.len() > 0 {
        let rest = s.skip(1);
        lemma_like_anywhere(q, rest);
        if exists|i: int| 0 <= i <= rest.len() && like(q, #[trigger] rest.skip(i)) {
            let i = choose|i: int| 0 <= i <= rest.len() && like(q, #[trigger] rest.skip(i));
            assert(s.skip(i + 1) =~= rest.skip(i));
        }
        if exists|i: int| 0 <= i <= s.len() && like(q, #[trigger] s.skip(i)) {
            let i = choose|i: int| 0 <= i <= s.len() && like(q, #[trigger] s.skip(i));
            if i > 0 {
                assert(rest.skip(i - 1) =~= s.skip(i));
            }
        }
    } else if exists|i: int| 0 <= i <= s.len() && like(q, #[trigger] s.skip(i)) {
        let i = choose|i: int| 0 <= i <= s.len() && like(q, #[trigger] s.skip(i));
        assert(s.skip(i) =~= s);
    }
}

/// A plain term finds exactly the notes that hold it, whatever the case of ASCII letters.
pub proof fn law_plain_term_finds_its_text(lower: Seq<char>, body: Seq<char>)
    requires
        is_plain(lower),
        forall|i: int| 0 <= i < body.len() ==> #[trigger] body[i] != '\0',
    ensures
        finds(lower, body) <==> has_text(ascii_lowercase(body), ascii_lowercase(lower)),
{
    reveal_strlit("%");
    let pattern = anywhere(lower);
    let text = ascii_lowercase(body);
    assert forall|i: int| 0 <= i < pattern.len() implies #[trigger] pattern[i] != '\0' by {
        if 1 <= i < lower.len() + 1 {
            assert(pattern[i] == lower[i - 1]);
        }
    }
    assert forall|i: int| 0 <= i < text.len() implies #[trigger] text[i] != '\0' by {
        assert(body[i] != '\0');
    }
    lemma_place_of_unique(pattern, '\0', pattern.len());
    lemma_place_of_unique(text, '\0', text.len());
    assert(until_nul(pattern) =~= pattern);
    assert(until_nul(text) =~= text);
    let q = lower.push('%');
    assert(pattern =~= seq!['%'] + q);
    lemma_like_anywhere(q, text);
    let low = ascii_lowercase(lower);
    let n = low.len() as int;
    assert(ascii_lowercase(text) =~= text);
    if finds(lower, body) {
        let i = choose|i: int| 0 <= i <= text.len() && like(q, #[trigger] text.skip(i));
        lemma_like_start(lower, text.skip(i));
        assert(ascii_lowercase(text.skip(i)) =~= text.skip(i));
        assert(text.skip(i).subrange(0, n) =~= text.subrange(i, i + n));
        assert(occurs_at(text, low, i));
    }
    if has_text(text, low) {
        let i = choose|i: int| occurs_at(text, low, i);
        lemma_like_start(lower, text.skip(i));
        assert(ascii_lowercase(text.skip(i)) =~= text.skip(i));
        assert(text.skip(i).subrange(0, n) =~= text.subrange(i, i + n));
        assert(like(q, text.skip(i)));
    }
}

/// The listed loops come stalest first.
pub proof fn lemma_dangling_order(m: IndexModel, about: Option<int>)
    ensures
        forall|k: int|
            0 <= k < dangling_order(m, about).len() ==> 0 <= #[trigger] dangling_order(m, about)[k]
                < m.nodes.len() && is_dangling(m, about, dangling_order(m, about)[k]),
        forall|i: int|
            0 <= i < m.nodes.len() && is_dangling(m, about, i) ==> #[trigger] dangling_order(
                m,
                about,
            ).contains(i),
        forall|k: int, l: int|
            0 <= k < l < dangling_order(m, about).len() ==> staler(
                loop_seen(m, #[trigger] dangling_order(m, about)[k]),
                loop_seen(m, #[trigger] dangling_order(m, about)[l]),
            ),
        dangling_order(m, about).len() <= m.nodes.len(),
{
    let flags = dangling_flags(m, about);
    let picks = picked(flags);
    let keys = dangling_keys(m, picks);
    let list = dangling_order(m, about);
    lemma_picked(flags);
    assert(keys_ok(keys));
    lemma_ordered(picks, keys);
    let order = order_of(keys);
    assert forall|k: int| 0 <= k < list.len() implies 0 <= #[trigger] list[k] < m.nodes.len()
        && is_dangling(m, about, list[k]) by {
        assert(list[k] == picks[order[k]]);
        assert(flags[picks[order[k]]]);
    }
    assert forall|i: int|
        0 <= i < m.nodes.len() && is_dangling(m, about, i) implies #[trigger] list.contains(i) by {
        assert(flags[i]);
        assert(picks.contains(i));
    }
    assert forall|k: int, l: int| 0 <= k < l < list.len() implies staler(
        loop_seen(m, #[trigger] list[k]),
        loop_seen(m, #[trigger] list[l]),
    ) by {
        assert(list[k] == picks[order[k]] && list[l] == picks[order[l]]);
        assert(before(keys, order[k], order[l]));
        lemma_staler(loop_seen(m, list[k]), loop_seen(m, list[l]));
    }
}

/// The entries are those of the listed loops, one for each.
pub proof fn lemma_entries(
    m: IndexModel,
    order: Seq<int>,
    today: i32,
    from: int,
    start: Seq<DanglingModel>,
)
    requires
        0 <= from <= order.len(),
    ensures
        dangling_from(m, order, today, from, start) matches Ok(items) ==> {
            &&& items.len() == start.len() + order.len() - from
            &&& forall|k: int| 0 <= k < start.len() ==> #[trigger] items[k] == start[k]
            &&& forall|k: int|
                start.len() <= k < items.len() ==> dangling_item(
                    m,
                    order[from + k - start.len()],
                    today,
                ) == Ok::<DanglingModel, QueryError>(#[trigger] items[k])
        },
    decreases order.len() - from,
{
    if from < order.len() {
        if let Ok(items) = dangling_from(m, order, today, from, start) {
            let item = dangling_item(m, order[from], today)->Ok_0;
            let next = start.push(item);
            lemma_entries(m, order, today, from + 1, next);
            assert forall|k: int| 0 <= k < start.len() implies #[trigger] items[k] == start[k] by {
                assert(items[k] == next[k]);
            }
            assert forall|k: int| start.len() <= k < items.len() implies dangling_item(
                m,
                order[from + k - start.len()],
                today,
            ) == Ok::<DanglingModel, QueryError>(#[trigger] items[k]) by {
                if k == start.len() {
                    assert(items[k] == next[k]);
                } else {
                    assert(from + 1 + k - next.len() == from + k - start.len());
                }
            }
        }
    }
}

/// Which node loops have to mention: none where nothing is asked for. Nothing is listed where the
/// name that is asked for is not known.
pub open spec fn asked_for(m: IndexModel, about: Option<Seq<char>>) -> Option<Option<int>> {
    match about {
        None => Some(None),
        Some(name) => match subject_place(m.nodes, name) {
            None => None,
            Some(i) => Some(Some(m.nodes[i].id)),
        },
    }
}

/// Open loops come stalest first, undated ones last, and no more of them than the limit.
pub proof fn law_dangling_is_stalest_first(
    m: IndexModel,
    about: Option<Seq<char>>,
    limit: usize,
    today: i32,
)
    ensures
        dangling_of(m, about, limit, today) matches Ok(items) ==> {
            &&& items.len() <= limit
            &&& forall|k: int, l: int|
                0 <= k < l < items.len() ==> staler(
                    (#[trigger] items[k]).first_seen,
                    (#[trigger] items[l]).first_seen,
                )
        },
{
    if let (Some(id), Ok(items)) = (asked_for(m, about), dangling_of(m, about, limit, today)) {
        let all = dangling_order(m, id);
        let order = limited(all, limit);
        lemma_dangling_order(m, id);
        lemma_entries(m, order, today, 0, Seq::empty());
        assert forall|k: int, l: int| 0 <= k < l < items.len() implies staler(
            (#[trigger] items[k]).first_seen,
            (#[trigger] items[l]).first_seen,
        ) by {
            assert(order[k] == all[k] && order[l] == all[l]);
            assert(items[k].first_seen == loop_seen(m, order[k]));
            assert(items[l].first_seen == loop_seen(m, order[l]));
        }
    }
}

/// No open loop is forgotten: where the limit leaves room for all nodes, every loop that a note
/// contains and that mentions what is asked for is listed, and nothing else is.
pub proof fn law_no_loop_is_forgotten(
    m: IndexModel,
    about: Option<Seq<char>>,
    limit: usize,
    today: i32,
)
    requires
        m.nodes.len() <= limit,
    ensures
        match (asked_for(m, about), dangling_of(m, about, limit, today)) {
            (None, r) => r == Ok::<Seq<DanglingModel>, QueryError>(Seq::empty()),
            (Some(id), Ok(items)) => {
                &&& forall|i: int|
                    0 <= i < m.nodes.len() && #[trigger] is_dangling(m, id, i) ==> exists|k: int|
                        0 <= k < items.len() && dangling_item(m, i, today) == Ok::<
                            DanglingModel,
                            QueryError,
                        >(#[trigger] items[k])
                &&& forall|k: int|
                    0 <= k < items.len() ==> exists|i: int|
                        0 <= i < m.nodes.len() && #[trigger] is_dangling(m, id, i)
                            && dangling_item(m, i, today) == Ok::<DanglingModel, QueryError>(
                            #[trigger] items[k],
                        )
            },
            _ => true,
        },
{
    if let (Some(id), Ok(items)) = (asked_for(m, about), dangling_of(m, about, limit, today)) {
        let all = dangling_order(m, id);
        lemma_dangling_order(m, id);
        assert(limited(all, limit) == all);
        lemma_entries(m, all, today, 0, Seq::empty());
        assert forall|i: int|
            0 <= i < m.nodes.len() && #[trigger] is_dangling(m, id, i) implies exists|k: int|
            0 <= k < items.len() && dangling_item(m, i, today) == Ok::<DanglingModel, QueryError>(
                #[trigger] items[k],
            ) by {
            assert(all.contains(i));
            let k = choose|k: int| 0 <= k < all.len() && all[k] == i;
            assert(dangling_item(m, all[k], today) == Ok::<DanglingModel, QueryError>(items[k]));
        }
        assert forall|k: int| 0 <= k < items.len() implies exists|i: int|
            0 <= i < m.nodes.len() && #[trigger] is_dangling(m, id, i) && dangling_item(m, i, today)
                == Ok::<DanglingModel, QueryError>(#[trigger] items[k]) by {
            assert(dangling_item(m, all[k], today) == Ok::<DanglingModel, QueryError>(items[k]));
            assert(is_dangling(m, id, all[k]));
        }
    }
}

/// The references are those of the listed notes, one for each.
pub proof fn lemma_refs(m: IndexModel, order: Seq<int>, from: int, start: Seq<NoteRefModel>)
    requires
        0 <= from <= order.len(),
    ensures
        refs_from(m, order, from, start) matches Ok(refs) ==> {
            &&& refs.len() == start.len() + order.len() - from
            &&& forall|k: int| 0 <= k < start.len() ==> #[trigger] refs[k] == start[k]
            &&& forall|k: int|
                start.len() <= k < refs.len() ==> (#[trigger] refs[k]).note_date
                    == m.notes[order[from + k - start.len()]].note_date && note_path_of(
                    m,
                    order[from + k - start.len()],
                ) == Some(refs[k].path)
        },
    decreases order.len() - from,
{
    if from < order.len() {
        if let Ok(refs) = refs_from(m, order, from, start) {
            let item = NoteRefModel {
                path: note_path_of(m, order[from])->0,
                note_date: m.notes[order[from]].note_date,
            };
            let next = start.push(item);
            lemma_refs(m, order, from + 1, next);
            assert forall|k: int| 0 <= k < start.len() implies #[trigger] refs[k] == start[k] by {
                assert(refs[k] == next[k]);
            }
            assert forall|k: int| start.len() <= k < refs.len() implies (
            #[trigger] refs[k]).note_date == m.notes[order[from + k - start.len()]].note_date
                && note_path_of(m, order[from + k - start.len()]) == Some(refs[k].path) by {
                if k == start.len() {
                    assert(refs[k] == next[k]);
                } else {
                    assert(from + 1 + k - next.len() == from + k - start.len());
                }
            }
        }
    }
}

/// What is known about something lists every note with an edge to it and no other, each once and
/// newest first.
pub proof fn law_about_lists_every_note(m: IndexModel, name: Seq<char>, at: int)
    requires
        0 <= at < m.nodes.len(),
    ensures
        about_node(m, name, at) matches Ok(about) ==> {
            &&& about.notes.len() == picked(mentioning_flags(m, m.nodes[at].id)).len()
            &&& forall|i: int|
                #![trigger m.notes[i]]
                0 <= i < m.notes.len() && arc(m, m.notes[i].node_id, m.nodes[at].id) ==> exists|
                    k: int,
                |
                    0 <= k < about.notes.len() && note_path_of(m, i) == Some(
                        (#[trigger] about.notes[k]).path,
                    ) && about.notes[k].note_date == m.notes[i].note_date
            &&& forall|k: int|
                0 <= k < about.notes.len() ==> exists|i: int|
                    #![trigger m.notes[i]]
                    0 <= i < m.notes.len() && arc(m, m.notes[i].node_id, m.nodes[at].id)
                        && note_path_of(m, i) == Some((#[trigger] about.notes[k]).path)
            &&& forall|k: int, l: int|
                0 <= k < l < about.notes.len() ==> newer(
                    (#[trigger] about.notes[k]).note_date,
                    (#[trigger] about.notes[l]).note_date,
                )
        },
{
    if let Ok(about) = about_node(m, name, at) {
        let flags = mentioning_flags(m, m.nodes[at].id);
        let order = by_date(m.notes, flags);
        lemma_by_date_order(m.notes, flags);
        lemma_refs(m, order, 0, Seq::empty());
        assert forall|i: int|
            #![trigger m.notes[i]]
            0 <= i < m.notes.len() && arc(m, m.notes[i].node_id, m.nodes[at].id) implies exists|
            k: int,
        |
            0 <= k < about.notes.len() && note_path_of(m, i) == Some(
                (#[trigger] about.notes[k]).path,
            ) && about.notes[k].note_date == m.notes[i].note_date by {
            assert(flags[i]);
            assert(order.contains(i));
            let k = choose|k: int| 0 <= k < order.len() && order[k] == i;
            assert(note_path_of(m, order[k]) == Some(about.notes[k].path));
        }
        assert forall|k: int| 0 <= k < about.notes.len() implies exists|i: int|
            #![trigger m.notes[i]]
            0 <= i < m.notes.len() && arc(m, m.notes[i].node_id, m.nodes[at].id) && note_path_of(
                m,
                i,
            ) == Some((#[trigger] about.notes[k]).path) by {
            assert(flags[order[k]]);
            assert(note_path_of(m, order[k]) == Some(about.notes[k].path));
            assert(m.notes[order[k]] == m.notes[order[k]]);
        }
        assert forall|k: int, l: int| 0 <= k < l < about.notes.len() implies newer(
            (#[trigger] about.notes[k]).note_date,
            (#[trigger] about.notes[l]).note_date,
        ) by {
            assert(newer(m.notes[order[k]].note_date, m.notes[order[l]].note_date));
        }
    }
}

/// Why something is in the graph: every edge that points at it and is heavy enough gives a fact,
/// and every fact comes from such an edge.
pub proof fn law_why_gives_every_edge(m: IndexModel, id: int, min: int, n: int)
    requires
        0 <= n <= m.edges.len(),
    ensures
        forall|e: int|
            0 <= e < n && (#[trigger] m.edges[e]).dst == id && m.edges[e].weight >= min
                ==> facts_upto(m, id, min, n).contains(fact_of(m, m.edges[e])),
        forall|k: int|
            0 <= k < facts_upto(m, id, min, n).len() ==> exists|e: int|
                0 <= e < n && (#[trigger] m.edges[e]).dst == id && m.edges[e].weight >= min
                    && fact_of(m, m.edges[e]) == #[trigger] facts_upto(m, id, min, n)[k],
    decreases n,
{
    if n > 0 {
        law_why_gives_every_edge(m, id, min, n - 1);
        let rest = facts_upto(m, id, min, n - 1);
        let all = facts_upto(m, id, min, n);
        assert forall|e: int|
            0 <= e < n && (#[trigger] m.edges[e]).dst == id && m.edges[e].weight
                >= min implies all.contains(fact_of(m, m.edges[e])) by {
            if e < n - 1 {
                assert(rest.contains(fact_of(m, m.edges[e])));
                let k = choose|k: int| 0 <= k < rest.len() && rest[k] == fact_of(m, m.edges[e]);
                assert(all[k] == rest[k]);
            } else {
                assert(all[rest.len() as int] == fact_of(m, m.edges[e]));
            }
        }
        assert forall|k: int| 0 <= k < all.len() implies exists|e: int|
            0 <= e < n && (#[trigger] m.edges[e]).dst == id && m.edges[e].weight >= min && fact_of(
                m,
                m.edges[e],
            ) == #[trigger] all[k] by {
            if k < rest.len() {
                assert(all[k] == rest[k]);
                let e = choose|e: int|
                    0 <= e < n - 1 && (#[trigger] m.edges[e]).dst == id && m.edges[e].weight >= min
                        && fact_of(m, m.edges[e]) == rest[k];
                assert(m.edges[e].dst == id);
            } else {
                assert(m.edges[n - 1].dst == id);
            }
        }
    }
}

} // verus!
