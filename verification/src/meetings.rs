//! What connections promise, row by row of the index: which pairs keep meeting in notes, and which
//! projects have commits on the same days.

use vstd::prelude::*;

use crate::calendar::{is_calendar_date, law_dates_sort_by_day};
use crate::connect::{
    commit_days, common_count, common_flags, connections_of, dates_upto, frequency, is_target,
    keeps_reuniting, latest_upto, lemma_pair_keys, lemma_pairs_reunite, mention_from, mention_row,
    mentioned_upto, pair_item, pair_key, pair_keys, pair_row, pairs_upto, pairs_with, project_days,
    shared_notes, span_of, temporal_keys, temporal_upto, temporal_with, PairModel, ProjectDays,
    TemporalModel,
};
use crate::dates::day_number;
use crate::extract::{distinct_of, lemma_with_name};
use crate::json::{list_field, text_field};
use crate::order::{
    before, key_le, keys_ok, lemma_text_le_total, lemma_text_le_trans, order_of, ordered, text_le,
    PartModel,
};
use crate::query::{first_seen_upto, limited};
use crate::recall::is_date_of;
use crate::select::{lemma_ordered, lemma_picked, lemma_picked_count, picked};
use crate::store::{IndexModel, NodeModel};

verus! {

/// Whether note row `n` has an edge to node `t` that is a mention or a wiki link and is heavy
/// enough.
pub open spec fn speaks_of(m: IndexModel, min: int, n: int, t: int) -> bool {
    &&& 0 <= n < m.notes.len()
    &&& exists|e: int|
        0 <= e < m.edges.len() && ((#[trigger] m.edges[e]).kind == "mentions"@ || m.edges[e].kind
            == "wikilink"@) && m.edges[e].weight >= min && m.edges[e].src == m.notes[n].node_id
            && m.edges[e].dst == m.nodes[t].id
}

/// The note rows that speak of node `t`.
pub open spec fn speakers(m: IndexModel, min: int, t: int) -> Set<int> {
    Set::new(|n: int| speaks_of(m, min, n, t))
}

/// The note rows that speak of two nodes.
pub open spec fn meetings(m: IndexModel, min: int, a: int, b: int) -> Set<int> {
    Set::new(|n: int| speaks_of(m, min, n, a) && speaks_of(m, min, n, b))
}

/// Whether `d` is the earliest date of the given note rows.
pub open spec fn is_first_date(m: IndexModel, rows: Set<int>, d: Seq<char>) -> bool {
    &&& exists|n: int| #[trigger] rows.contains(n) && is_date_of(m.notes[n], d)
    &&& forall|n: int, other: Seq<char>| #[trigger]
        rows.contains(n) && #[trigger] is_date_of(m.notes[n], other) ==> text_le(d, other)
}

/// Whether `d` is the latest date of the given note rows.
pub open spec fn is_last_date(m: IndexModel, rows: Set<int>, d: Seq<char>) -> bool {
    &&& exists|n: int| #[trigger] rows.contains(n) && is_date_of(m.notes[n], d)
    &&& forall|n: int, other: Seq<char>| #[trigger]
        rows.contains(n) && #[trigger] is_date_of(m.notes[n], other) ==> text_le(other, d)
}

/// Whether the given note rows span `days` days from the earliest to the latest date.
pub open spec fn spans(m: IndexModel, rows: Set<int>, days: int) -> bool {
    exists|first: Seq<char>, last: Seq<char>| #[trigger]
        is_first_date(m, rows, first) && #[trigger] is_last_date(m, rows, last) && day_number(first)
            is Some && day_number(last) is Some && day_number(last)->0 - day_number(first)->0
            == days
}

/// Whether nodes `a` and `b` keep meeting: they are projects or entities, enough notes speak of
/// both, and those notes span two weeks or more.
pub open spec fn keep_meeting(m: IndexModel, min: int, min_shared: int, a: int, b: int) -> bool {
    &&& 0 <= a < b < m.nodes.len()
    &&& m.nodes[a].kind == "project"@ || m.nodes[a].kind == "entity"@
    &&& m.nodes[b].kind == "project"@ || m.nodes[b].kind == "entity"@
    &&& meetings(m, min, a, b).len() >= min_shared
    &&& exists|days: int| #[trigger] spans(m, meetings(m, min, a, b), days) && days >= 14
}

/// Whether an entry is that of nodes `a` and `b`.
pub open spec fn is_pair_of(
    m: IndexModel,
    min: int,
    min_shared: int,
    item: PairModel,
    a: int,
    b: int,
) -> bool {
    &&& keep_meeting(m, min, min_shared, a, b)
    &&& item.a == m.nodes[a].name
    &&& item.a_kind == m.nodes[a].kind
    &&& item.b == m.nodes[b].name
    &&& item.b_kind == m.nodes[b].kind
    &&& item.shared_notes == meetings(m, min, a, b).len()
    &&& spans(m, meetings(m, min, a, b), item.span_days)
    &&& item.notes_a == speakers(m, min, a).len()
    &&& item.notes_b == speakers(m, min, b).len()
}

/// Whether an entry is that of some pair.
pub open spec fn from_pair(m: IndexModel, min: int, min_shared: int, item: PairModel) -> bool {
    exists|a: int, b: int| #[trigger] is_pair_of(m, min, min_shared, item, a, b)
}

proof fn lemma_speaks(m: IndexModel, min: int, n: int, t: int)
    requires
        0 <= n < m.notes.len(),
    ensures
        mentioned_upto(m, min, n, t, m.edges.len() as int) == speaks_of(m, min, n, t),
{
    if speaks_of(m, min, n, t) {
        let e = choose|e: int|
            0 <= e < m.edges.len() && ((#[trigger] m.edges[e]).kind == "mentions"@
                || m.edges[e].kind == "wikilink"@) && m.edges[e].weight >= min && m.edges[e].src
                == m.notes[n].node_id && m.edges[e].dst == m.nodes[t].id;
        assert(mention_from(m, min, e, n));
    }
    if mentioned_upto(m, min, n, t, m.edges.len() as int) {
        let e = choose|e: int|
            0 <= e < m.edges.len() && #[trigger] mention_from(m, min, e, n) && m.edges[e].dst
                == m.nodes[t].id;
        assert(m.edges[e].weight >= min);
    }
}

proof fn lemma_counts(m: IndexModel, min: int, a: int, b: int)
    requires
        is_target(m.nodes[a]),
        is_target(m.nodes[b]),
    ensures
        meetings(m, min, a, b).finite(),
        shared_notes(m, min, a, b) == meetings(m, min, a, b).len(),
        frequency(m, min, a) == speakers(m, min, a).len(),
        frequency(m, min, b) == speakers(m, min, b).len(),
        forall|n: int| #[trigger]
            meetings(m, min, a, b).contains(n) <==> 0 <= n < m.notes.len() && pair_row(
                m,
                min,
                a,
                b,
            )[n],
{
    assert forall|n: int| #[trigger] meetings(m, min, a, b).contains(n) <==> 0 <= n
        < m.notes.len() && pair_row(m, min, a, b)[n] by {
        if 0 <= n < m.notes.len() {
            lemma_speaks(m, min, n, a);
            lemma_speaks(m, min, n, b);
        }
    }
    assert forall|n: int| #[trigger] speakers(m, min, a).contains(n) <==> 0 <= n < m.notes.len()
        && mention_row(m, min, a)[n] by {
        if 0 <= n < m.notes.len() {
            lemma_speaks(m, min, n, a);
        }
    }
    assert forall|n: int| #[trigger] speakers(m, min, b).contains(n) <==> 0 <= n < m.notes.len()
        && mention_row(m, min, b)[n] by {
        if 0 <= n < m.notes.len() {
            lemma_speaks(m, min, n, b);
        }
    }
    lemma_picked_count(pair_row(m, min, a, b), meetings(m, min, a, b));
    lemma_picked_count(mention_row(m, min, a), speakers(m, min, a));
    lemma_picked_count(mention_row(m, min, b), speakers(m, min, b));
}

proof fn lemma_trans(a: Seq<char>, b: Seq<char>, c: Seq<char>)
    ensures
        text_le(a, b) && text_le(b, c) ==> text_le(a, c),
{
    if text_le(a, b) && text_le(b, c) {
        lemma_text_le_trans(a, b, c);
    }
}

proof fn lemma_first(m: IndexModel, flags: Seq<bool>, n: int)
    requires
        0 <= n <= flags.len(),
    ensures
        match first_seen_upto(m, flags, n) {
            Some(d) => {
                &&& exists|k: int| 0 <= k < n && #[trigger] flags[k] && is_date_of(m.notes[k], d)
                &&& forall|k: int, other: Seq<char>|
                    0 <= k < n && #[trigger] flags[k] && #[trigger] is_date_of(m.notes[k], other)
                        ==> text_le(d, other)
            },
            None => forall|k: int, other: Seq<char>|
                0 <= k < n && #[trigger] flags[k] ==> !#[trigger] is_date_of(m.notes[k], other),
        },
    decreases n,
{
    if n > 0 {
        lemma_first(m, flags, n - 1);
        let rest = first_seen_upto(m, flags, n - 1);
        if flags[n - 1] {
            if let Some(d) = first_seen_upto(m, flags, n) {
                if rest == Some(d) {
                    let k = choose|k: int|
                        0 <= k < n - 1 && #[trigger] flags[k] && is_date_of(m.notes[k], d);
                    assert(flags[k]);
                } else {
                    assert(is_date_of(m.notes[n - 1], d));
                }
                assert forall|k: int, other: Seq<char>|
                    0 <= k < n && #[trigger] flags[k] && #[trigger] is_date_of(
                        m.notes[k],
                        other,
                    ) implies text_le(d, other) by {
                    lemma_text_le_total(d, d);
                    if k < n - 1 {
                        assert(text_le(rest->0, other));
                        lemma_text_le_total(rest->0, d);
                        lemma_trans(d, rest->0, other);
                    } else if let Some(r) = rest {
                        lemma_text_le_total(r, other);
                    }
                }
            }
        }
    }
}

proof fn lemma_last(m: IndexModel, flags: Seq<bool>, n: int)
    requires
        0 <= n <= flags.len(),
    ensures
        match latest_upto(m, flags, n) {
            Some(d) => {
                &&& exists|k: int| 0 <= k < n && #[trigger] flags[k] && is_date_of(m.notes[k], d)
                &&& forall|k: int, other: Seq<char>|
                    0 <= k < n && #[trigger] flags[k] && #[trigger] is_date_of(m.notes[k], other)
                        ==> text_le(other, d)
            },
            None => forall|k: int, other: Seq<char>|
                0 <= k < n && #[trigger] flags[k] ==> !#[trigger] is_date_of(m.notes[k], other),
        },
    decreases n,
{
    if n > 0 {
        lemma_last(m, flags, n - 1);
        let rest = latest_upto(m, flags, n - 1);
        if flags[n - 1] {
            if let Some(d) = latest_upto(m, flags, n) {
                if rest == Some(d) {
                    let k = choose|k: int|
                        0 <= k < n - 1 && #[trigger] flags[k] && is_date_of(m.notes[k], d);
                    assert(flags[k]);
                } else {
                    assert(is_date_of(m.notes[n - 1], d));
                }
                assert forall|k: int, other: Seq<char>|
                    0 <= k < n && #[trigger] flags[k] && #[trigger] is_date_of(
                        m.notes[k],
                        other,
                    ) implies text_le(other, d) by {
                    lemma_text_le_total(d, d);
                    if k < n - 1 {
                        assert(text_le(other, rest->0));
                        lemma_text_le_total(rest->0, d);
                        lemma_trans(other, rest->0, d);
                    } else if let Some(r) = rest {
                        lemma_text_le_total(r, other);
                    }
                }
            }
        }
    }
}

/// Two texts that come before each other are the same.
proof fn lemma_one_first(m: IndexModel, rows: Set<int>, a: Seq<char>, b: Seq<char>)
    ensures
        is_first_date(m, rows, a) && is_first_date(m, rows, b) ==> a == b,
        is_last_date(m, rows, a) && is_last_date(m, rows, b) ==> a == b,
{
    if text_le(a, b) && text_le(b, a) {
        crate::order::lemma_text_le_antisymmetric(a, b);
    }
}

proof fn lemma_span(m: IndexModel, min: int, a: int, b: int)
    requires
        is_target(m.nodes[a]),
        is_target(m.nodes[b]),
    ensures
        forall|days: int| #[trigger]
            spans(m, meetings(m, min, a, b), days) <==> span_of(m, pair_row(m, min, a, b)) == Some(
                days,
            ),
{
    let flags = pair_row(m, min, a, b);
    let rows = meetings(m, min, a, b);
    let n = m.notes.len() as int;
    lemma_counts(m, min, a, b);
    lemma_first(m, flags, n);
    lemma_last(m, flags, n);
    let first = first_seen_upto(m, flags, n);
    let last = latest_upto(m, flags, n);
    if let Some(d) = first {
        let k = choose|k: int| 0 <= k < n && #[trigger] flags[k] && is_date_of(m.notes[k], d);
        assert(rows.contains(k));
        assert(is_first_date(m, rows, d));
    }
    if let Some(d) = last {
        let k = choose|k: int| 0 <= k < n && #[trigger] flags[k] && is_date_of(m.notes[k], d);
        assert(rows.contains(k));
        assert(is_last_date(m, rows, d));
    }
    assert forall|days: int| #[trigger] spans(m, rows, days) <==> span_of(m, flags) == Some(days) by {
        if spans(m, rows, days) {
            let (f, l) = choose|f: Seq<char>, l: Seq<char>| #[trigger]
                is_first_date(m, rows, f) && #[trigger] is_last_date(m, rows, l) && day_number(f)
                    is Some && day_number(l) is Some && day_number(l)->0 - day_number(f)->0 == days;
            let k = choose|k: int| #[trigger] rows.contains(k) && is_date_of(m.notes[k], f);
            assert(flags[k] && is_date_of(m.notes[k], f));
            assert(first is Some && last is Some);
            lemma_one_first(m, rows, f, first->0);
            lemma_one_first(m, rows, l, last->0);
        }
        if span_of(m, flags) == Some(days) {
            assert(is_first_date(m, rows, first->0) && is_last_date(m, rows, last->0));
        }
    }
}

proof fn lemma_keep_meeting(m: IndexModel, min: int, min_shared: int, a: int, b: int)
    requires
        0 <= a < b < m.nodes.len(),
    ensures
        keeps_reuniting(m, min, min_shared, a, b) <==> keep_meeting(m, min, min_shared, a, b),
{
    let flags = pair_row(m, min, a, b);
    if is_target(m.nodes[a]) && is_target(m.nodes[b]) {
        lemma_counts(m, min, a, b);
        lemma_span(m, min, a, b);
        if let Some(days) = span_of(m, flags) {
            assert(spans(m, meetings(m, min, a, b), days));
        }
    } else if keeps_reuniting(m, min, min_shared, a, b) {
        lemma_first(m, flags, m.notes.len() as int);
        let d = first_seen_upto(m, flags, m.notes.len() as int)->0;
        let k = choose|k: int|
            0 <= k < m.notes.len() && #[trigger] flags[k] && is_date_of(m.notes[k], d);
        assert(flags[k]);
    }
}

proof fn lemma_row_complete(m: IndexModel, min: int, min_shared: int, a: int, n: int, b: int)
    requires
        a < b < n,
        keeps_reuniting(m, min, min_shared, a, b),
    ensures
        pairs_with(m, min, min_shared, a, n).contains((a, b)),
    decreases n - a,
{
    let all = pairs_with(m, min, min_shared, a, n);
    let rest = pairs_with(m, min, min_shared, a, n - 1);
    if b < n - 1 {
        lemma_row_complete(m, min, min_shared, a, n - 1, b);
        let k = choose|k: int| 0 <= k < rest.len() && rest[k] == (a, b);
        assert(all[k] == (a, b));
    } else {
        assert(all[rest.len() as int] == (a, b));
    }
}

proof fn lemma_pairs_complete(m: IndexModel, min: int, min_shared: int, n: int, a: int, b: int)
    requires
        0 <= a < n,
        a < b < m.nodes.len(),
        keeps_reuniting(m, min, min_shared, a, b),
    ensures
        pairs_upto(m, min, min_shared, n).contains((a, b)),
    decreases n,
{
    let all = pairs_upto(m, min, min_shared, n);
    let rest = pairs_upto(m, min, min_shared, n - 1);
    let row = pairs_with(m, min, min_shared, n - 1, m.nodes.len() as int);
    if a < n - 1 {
        lemma_pairs_complete(m, min, min_shared, n - 1, a, b);
        let k = choose|k: int| 0 <= k < rest.len() && rest[k] == (a, b);
        assert(all[k] == (a, b));
    } else {
        lemma_row_complete(m, min, min_shared, a, m.nodes.len() as int, b);
        let k = choose|k: int| 0 <= k < row.len() && row[k] == (a, b);
        assert(all[rest.len() + k] == (a, b));
    }
}

proof fn lemma_pair_item(m: IndexModel, min: int, min_shared: int, a: int, b: int)
    requires
        0 <= a < b < m.nodes.len(),
        keeps_reuniting(m, min, min_shared, a, b),
    ensures
        is_pair_of(m, min, min_shared, pair_item(m, min, (a, b)), a, b),
{
    lemma_keep_meeting(m, min, min_shared, a, b);
    lemma_counts(m, min, a, b);
    lemma_span(m, min, a, b);
    let days = span_of(m, pair_row(m, min, a, b))->0;
    assert(spans(m, meetings(m, min, a, b), days));
}

/// Every listed pair keeps meeting: the entry has the names and kinds of two projects or entities,
/// how many notes speak of both, how many days those notes span, and how many notes speak of each.
/// The closest pairs come first, and no more than the limit.
pub proof fn law_listed_pairs_keep_meeting(
    m: IndexModel,
    min_shared: int,
    min_weight: int,
    limit: usize,
)
    ensures
        connections_of(m, min_shared, min_weight, limit).co_mentions.len() <= limit,
        forall|k: int|
            0 <= k < connections_of(m, min_shared, min_weight, limit).co_mentions.len()
                ==> from_pair(
                m,
                min_weight,
                min_shared,
                #[trigger] connections_of(m, min_shared, min_weight, limit).co_mentions[k],
            ),
        forall|k: int, l: int|
            0 <= k < l < connections_of(m, min_shared, min_weight, limit).co_mentions.len() ==> {
                let x = #[trigger] connections_of(m, min_shared, min_weight, limit).co_mentions[k];
                let y = #[trigger] connections_of(m, min_shared, min_weight, limit).co_mentions[l];
                (y.shared_notes * y.shared_notes) * (x.notes_a * x.notes_b) <= (x.shared_notes
                    * x.shared_notes) * (y.notes_a * y.notes_b)
            },
{
    let pairs = pairs_upto(m, min_weight, min_shared, m.nodes.len() as int);
    let keys = pair_keys(m, min_weight, pairs);
    lemma_pairs_reunite(m, min_weight, min_shared, m.nodes.len() as int);
    lemma_pair_keys(m, min_weight, min_shared, pairs);
    lemma_ordered(pairs, keys);
    let all = ordered(pairs, keys);
    let list = limited(all, limit);
    let order = order_of(keys);
    let found = connections_of(m, min_shared, min_weight, limit).co_mentions;
    assert forall|k: int| 0 <= k < found.len() implies from_pair(
        m,
        min_weight,
        min_shared,
        #[trigger] found[k],
    ) by {
        assert(list[k] == all[k]);
        assert(all[k] == pairs[order[k]]);
        let (a, b) = pairs[order[k]];
        assert(keeps_reuniting(m, min_weight, min_shared, pairs[order[k]].0, pairs[order[k]].1));
        lemma_pair_item(m, min_weight, min_shared, a, b);
        assert(is_pair_of(m, min_weight, min_shared, found[k], a, b));
    }
    assert forall|k: int, l: int| 0 <= k < l < found.len() implies {
        let x = #[trigger] found[k];
        let y = #[trigger] found[l];
        (y.shared_notes * y.shared_notes) * (x.notes_a * x.notes_b) <= (x.shared_notes
            * x.shared_notes) * (y.notes_a * y.notes_b)
    } by {
        assert(list[k] == all[k] && list[l] == all[l]);
        assert(before(keys, order[k], order[l]));
        let a = keys[order[k]];
        let b = keys[order[l]];
        assert(key_le(a, b));
        assert(a == pair_key(m, min_weight, list[k]));
        assert(b == pair_key(m, min_weight, list[l]));
    }
}

/// No pair that keeps meeting is left out where the limit leaves room: it is listed with exactly
/// the number of notes that speak of both.
pub proof fn law_pairs_that_keep_meeting_are_listed(
    m: IndexModel,
    min_shared: int,
    min_weight: int,
    limit: usize,
    a: int,
    b: int,
)
    requires
        keep_meeting(m, min_weight, min_shared, a, b),
        connections_of(m, min_shared, min_weight, limit).co_mentions.len() < limit,
    ensures
        exists|k: int|
            0 <= k < connections_of(m, min_shared, min_weight, limit).co_mentions.len()
                && is_pair_of(
                m,
                min_weight,
                min_shared,
                #[trigger] connections_of(m, min_shared, min_weight, limit).co_mentions[k],
                a,
                b,
            ),
{
    let pairs = pairs_upto(m, min_weight, min_shared, m.nodes.len() as int);
    let keys = pair_keys(m, min_weight, pairs);
    lemma_pairs_reunite(m, min_weight, min_shared, m.nodes.len() as int);
    lemma_pair_keys(m, min_weight, min_shared, pairs);
    lemma_ordered(pairs, keys);
    let all = ordered(pairs, keys);
    let list = limited(all, limit);
    let found = connections_of(m, min_shared, min_weight, limit).co_mentions;
    lemma_keep_meeting(m, min_weight, min_shared, a, b);
    lemma_pairs_complete(m, min_weight, min_shared, m.nodes.len() as int, a, b);
    assert(list == all);
    assert(all.contains((a, b)));
    let k = choose|k: int| 0 <= k < all.len() && all[k] == (a, b);
    lemma_pair_item(m, min_weight, min_shared, a, b);
    assert(found[k] == pair_item(m, min_weight, (a, b)));
}

/// Two projects or entities keep meeting where enough notes speak of both, all their dates are days
/// of the calendar, and two of them are two weeks or more apart. The span is then the greatest
/// distance of two of them.
pub proof fn law_two_weeks_make_a_pair(
    m: IndexModel,
    min: int,
    min_shared: int,
    a: int,
    b: int,
    early: int,
    late: int,
    from: Seq<char>,
    to: Seq<char>,
)
    requires
        0 <= a < b < m.nodes.len(),
        m.nodes[a].kind == "project"@ || m.nodes[a].kind == "entity"@,
        m.nodes[b].kind == "project"@ || m.nodes[b].kind == "entity"@,
        meetings(m, min, a, b).len() >= min_shared,
        forall|n: int, d: Seq<char>| #[trigger]
            meetings(m, min, a, b).contains(n) && #[trigger] is_date_of(m.notes[n], d)
                ==> is_calendar_date(d),
        meetings(m, min, a, b).contains(early) && is_date_of(m.notes[early], from),
        meetings(m, min, a, b).contains(late) && is_date_of(m.notes[late], to),
        day_number(to)->0 - day_number(from)->0 >= 14,
    ensures
        keep_meeting(m, min, min_shared, a, b),
        forall|days: int| #[trigger]
            spans(m, meetings(m, min, a, b), days) ==> days >= day_number(to)->0 - day_number(
                from,
            )->0,
{
    let rows = meetings(m, min, a, b);
    let flags = pair_row(m, min, a, b);
    let n = m.notes.len() as int;
    lemma_counts(m, min, a, b);
    lemma_first(m, flags, n);
    lemma_last(m, flags, n);
    assert(flags[early] && flags[late]);
    let first = first_seen_upto(m, flags, n)->0;
    let last = latest_upto(m, flags, n)->0;
    let f = choose|k: int| 0 <= k < n && #[trigger] flags[k] && is_date_of(m.notes[k], first);
    let l = choose|k: int| 0 <= k < n && #[trigger] flags[k] && is_date_of(m.notes[k], last);
    assert(rows.contains(f) && rows.contains(l));
    assert(is_first_date(m, rows, first));
    assert(is_last_date(m, rows, last));
    law_dates_sort_by_day(first, from);
    law_dates_sort_by_day(to, last);
    let days = day_number(last)->0 - day_number(first)->0;
    assert(spans(m, rows, days));
    assert forall|d: int| #[trigger] spans(m, rows, d) implies d >= day_number(to)->0 - day_number(
        from,
    )->0 by {
        lemma_span(m, min, a, b);
        assert(span_of(m, flags) == Some(d) && span_of(m, flags) == Some(days));
    }
}

/// Whether metadata lists a commit on the day `day`.
pub open spec fn committed_on(meta: Seq<char>, day: Seq<char>) -> bool {
    match list_field(meta, "commits"@) {
        Some(commits) => exists|c: int|
            0 <= c < commits.len() && text_field(#[trigger] commits[c], "date"@) == Some(day),
        None => false,
    }
}

/// The days on which two projects have commits.
pub open spec fn common_days(a: Seq<char>, b: Seq<char>) -> Set<Seq<char>> {
    Set::new(|day: Seq<char>| committed_on(a, day) && committed_on(b, day))
}

/// Whether an entry is that of the projects `a` and `b`.
pub open spec fn is_rhythm_of(
    nodes: Seq<NodeModel>,
    min_shared: int,
    item: TemporalModel,
    a: int,
    b: int,
) -> bool {
    &&& 0 <= a < b < nodes.len()
    &&& nodes[a].kind == "project"@
    &&& nodes[b].kind == "project"@
    &&& common_days(nodes[a].meta, nodes[b].meta).len() >= min_shared
    &&& item.a == nodes[a].name
    &&& item.b == nodes[b].name
    &&& item.shared_days == common_days(nodes[a].meta, nodes[b].meta).len()
}

/// Whether an entry is that of some two projects.
pub open spec fn from_rhythm(nodes: Seq<NodeModel>, min_shared: int, item: TemporalModel) -> bool {
    exists|a: int, b: int| #[trigger] is_rhythm_of(nodes, min_shared, item, a, b)
}

pub proof fn lemma_distinct(names: Seq<Seq<char>>)
    ensures
        distinct_of(names).no_duplicates(),
        forall|t: Seq<char>| #[trigger] distinct_of(names).contains(t) <==> names.contains(t),
    decreases names.len(),
{
    if names.len() > 0 {
        let rest = names.drop_last();
        lemma_distinct(rest);
        lemma_with_name(distinct_of(rest), names.last());
        assert forall|t: Seq<char>| #[trigger] distinct_of(names).contains(t) <==> names.contains(
            t,
        ) by {
            if rest.contains(t) {
                let k = choose|k: int| 0 <= k < rest.len() && rest[k] == t;
                assert(names[k] == t);
            }
            if names.contains(t) {
                let k = choose|k: int| 0 <= k < names.len() && names[k] == t;
                if k < rest.len() {
                    assert(rest[k] == t);
                }
            }
            assert(names[names.len() - 1] == names.last());
        }
    }
}

proof fn lemma_dates(commits: Seq<Seq<char>>, n: int, day: Seq<char>)
    requires
        0 <= n <= commits.len(),
    ensures
        dates_upto(commits, n).contains(day) <==> exists|c: int|
            0 <= c < n && text_field(#[trigger] commits[c], "date"@) == Some(day),
    decreases n,
{
    if n > 0 {
        lemma_dates(commits, n - 1, day);
        let rest = dates_upto(commits, n - 1);
        let all = dates_upto(commits, n);
        if rest.contains(day) {
            let k = choose|k: int| 0 <= k < rest.len() && rest[k] == day;
            assert(all[k] == day);
        }
        if all.contains(day) {
            let k = choose|k: int| 0 <= k < all.len() && all[k] == day;
            if k < rest.len() {
                assert(rest[k] == day);
            } else {
                assert(text_field(commits[n - 1], "date"@) == Some(day));
            }
        }
        if text_field(commits[n - 1], "date"@) == Some(day) {
            assert(all[rest.len() as int] == day);
        }
    }
}

proof fn lemma_committed(meta: Seq<char>, day: Seq<char>)
    ensures
        commit_days(meta).contains(day) <==> committed_on(meta, day),
{
    if let Some(commits) = list_field(meta, "commits"@) {
        lemma_distinct(dates_upto(commits, commits.len() as int));
        lemma_dates(commits, commits.len() as int, day);
    }
}

proof fn lemma_days_distinct(meta: Seq<char>)
    ensures
        commit_days(meta).no_duplicates(),
{
    if let Some(commits) = list_field(meta, "commits"@) {
        lemma_distinct(dates_upto(commits, commits.len() as int));
    }
}

proof fn lemma_common(a: Seq<char>, b: Seq<char>)
    ensures
        common_days(a, b).finite(),
        common_count(commit_days(a), commit_days(b)) == common_days(a, b).len(),
{
    let x = commit_days(a);
    let y = commit_days(b);
    let flags = common_flags(x, y);
    let picks = picked(flags);
    lemma_picked(flags);
    lemma_days_distinct(a);
    let days = Seq::new(picks.len(), |k: int| x[picks[k]]);
    assert(days.no_duplicates()) by {
        assert forall|k: int, l: int|
            0 <= k < days.len() && 0 <= l < days.len() && k != l implies days[k] != days[l] by {
            if k < l {
                assert(picks[k] < picks[l]);
            } else {
                assert(picks[l] < picks[k]);
            }
        }
    }
    days.unique_seq_to_set();
    vstd::seq_lib::seq_to_set_is_finite(days);
    assert forall|day: Seq<char>| #[trigger] common_days(a, b).contains(day)
        <==> days.to_set().contains(day) by {
        lemma_committed(a, day);
        lemma_committed(b, day);
        if common_days(a, b).contains(day) {
            let i = choose|i: int| 0 <= i < x.len() && x[i] == day;
            assert(flags[i]);
            assert(picks.contains(i));
            let k = choose|k: int| 0 <= k < picks.len() && picks[k] == i;
            assert(days[k] == day);
        }
        if days.contains(day) {
            let k = choose|k: int| 0 <= k < days.len() && days[k] == day;
            assert(flags[picks[k]]);
            assert(x[picks[k]] == day);
        }
    }
    assert(common_days(a, b) =~= days.to_set());
}

/// The places of the projects among the first `n` nodes.
proof fn lemma_project_days(nodes: Seq<NodeModel>, n: int) -> (places: Seq<int>)
    requires
        0 <= n <= nodes.len(),
    ensures
        places.len() == project_days(nodes, n).len(),
        forall|k: int|
            0 <= k < places.len() ==> 0 <= #[trigger] places[k] < n && nodes[places[k]].kind
                == "project"@ && project_days(nodes, n)[k].name == nodes[places[k]].name
                && project_days(nodes, n)[k].days == commit_days(nodes[places[k]].meta),
        forall|k: int, l: int|
            0 <= k < l < places.len() ==> #[trigger] places[k] < #[trigger] places[l],
        forall|i: int|
            0 <= i < n && (#[trigger] nodes[i]).kind == "project"@ ==> places.contains(i),
    decreases n,
{
    if n <= 0 {
        Seq::empty()
    } else {
        let rest = lemma_project_days(nodes, n - 1);
        if nodes[n - 1].kind == "project"@ {
            let places = rest.push(n - 1);
            assert forall|k: int| 0 <= k < places.len() implies 0 <= #[trigger] places[k] < n
                && nodes[places[k]].kind == "project"@ && project_days(nodes, n)[k].name
                == nodes[places[k]].name && project_days(nodes, n)[k].days == commit_days(
                nodes[places[k]].meta,
            ) by {
                if k < rest.len() {
                    assert(places[k] == rest[k]);
                }
            }
            assert forall|i: int|
                0 <= i < n && (#[trigger] nodes[i]).kind == "project"@ implies places.contains(
                i,
            ) by {
                if i < n - 1 {
                    let k = choose|k: int| 0 <= k < rest.len() && rest[k] == i;
                    assert(places[k] == i);
                } else {
                    assert(places[rest.len() as int] == i);
                }
            }
            places
        } else {
            rest
        }
    }
}

/// Whether an entry is that of the projects at two places of a list.
spec fn is_pair_in(
    projects: Seq<ProjectDays>,
    min_shared: int,
    item: TemporalModel,
    i: int,
    j: int,
) -> bool {
    &&& 0 <= i < j < projects.len()
    &&& common_count(projects[i].days, projects[j].days) >= min_shared
    &&& item.a == projects[i].name
    &&& item.b == projects[j].name
    &&& item.shared_days == common_count(projects[i].days, projects[j].days)
}

spec fn is_some_pair_in(
    projects: Seq<ProjectDays>,
    min_shared: int,
    item: TemporalModel,
) -> bool {
    exists|i: int, j: int| is_pair_in(projects, min_shared, item, i, j)
}

proof fn lemma_temporal_with(projects: Seq<ProjectDays>, min_shared: int, i: int, n: int)
    requires
        0 <= i,
        n <= projects.len(),
    ensures
        forall|k: int|
            0 <= k < temporal_with(projects, min_shared, i, n).len() ==> is_some_pair_in(
                projects,
                min_shared,
                #[trigger] temporal_with(projects, min_shared, i, n)[k],
            ),
        forall|j: int|
            i < j < n && common_count(projects[i].days, (#[trigger] projects[j]).days) >= min_shared
                ==> exists|k: int|
                0 <= k < temporal_with(projects, min_shared, i, n).len() && is_pair_in(
                    projects,
                    min_shared,
                    #[trigger] temporal_with(projects, min_shared, i, n)[k],
                    i,
                    j,
                ),
    decreases n - i,
{
    if n > i + 1 {
        lemma_temporal_with(projects, min_shared, i, n - 1);
        let rest = temporal_with(projects, min_shared, i, n - 1);
        let all = temporal_with(projects, min_shared, i, n);
        assert forall|k: int| 0 <= k < all.len() implies is_some_pair_in(
            projects,
            min_shared,
            #[trigger] all[k],
        ) by {
            if k < rest.len() {
                assert(all[k] == rest[k]);
            } else {
                assert(is_pair_in(projects, min_shared, all[k], i, n - 1));
            }
        }
        assert forall|j: int|
            i < j < n && common_count(projects[i].days, (#[trigger] projects[j]).days)
                >= min_shared implies exists|k: int|
            0 <= k < all.len() && is_pair_in(projects, min_shared, #[trigger] all[k], i, j) by {
            if j < n - 1 {
                let k = choose|k: int|
                    0 <= k < rest.len() && is_pair_in(
                        projects,
                        min_shared,
                        #[trigger] rest[k],
                        i,
                        j,
                    );
                assert(all[k] == rest[k]);
            } else {
                assert(is_pair_in(projects, min_shared, all[rest.len() as int], i, j));
            }
        }
    }
}

proof fn lemma_temporal_upto(projects: Seq<ProjectDays>, min_shared: int, n: int)
    requires
        0 <= n <= projects.len(),
    ensures
        forall|k: int|
            0 <= k < temporal_upto(projects, min_shared, n).len() ==> is_some_pair_in(
                projects,
                min_shared,
                #[trigger] temporal_upto(projects, min_shared, n)[k],
            ),
    decreases n,
{
    if n > 0 {
        lemma_temporal_upto(projects, min_shared, n - 1);
        lemma_temporal_with(projects, min_shared, n - 1, projects.len() as int);
        let rest = temporal_upto(projects, min_shared, n - 1);
        let row = temporal_with(projects, min_shared, n - 1, projects.len() as int);
        let all = temporal_upto(projects, min_shared, n);
        assert forall|k: int| 0 <= k < all.len() implies is_some_pair_in(
            projects,
            min_shared,
            #[trigger] all[k],
        ) by {
            if k < rest.len() {
                assert(all[k] == rest[k]);
            } else {
                assert(all[k] == row[k - rest.len()]);
            }
        }
    }
}

proof fn lemma_temporal_complete(
    projects: Seq<ProjectDays>,
    min_shared: int,
    n: int,
    i: int,
    j: int,
)
    requires
        0 <= i < n <= projects.len(),
        i < j < projects.len(),
        projects[i].days.len() > 0,
        common_count(projects[i].days, projects[j].days) >= min_shared,
    ensures
        exists|k: int|
            0 <= k < temporal_upto(projects, min_shared, n).len() && is_pair_in(
                projects,
                min_shared,
                #[trigger] temporal_upto(projects, min_shared, n)[k],
                i,
                j,
            ),
    decreases n,
{
    let rest = temporal_upto(projects, min_shared, n - 1);
    let all = temporal_upto(projects, min_shared, n);
    if i < n - 1 {
        lemma_temporal_complete(projects, min_shared, n - 1, i, j);
        let k = choose|k: int|
            0 <= k < rest.len() && is_pair_in(projects, min_shared, #[trigger] rest[k], i, j);
        assert(all[k] == rest[k]);
    } else {
        let row = temporal_with(projects, min_shared, i, projects.len() as int);
        lemma_temporal_with(projects, min_shared, i, projects.len() as int);
        assert(common_count(projects[i].days, projects[j].days) >= min_shared);
        let k = choose|k: int|
            0 <= k < row.len() && is_pair_in(projects, min_shared, #[trigger] row[k], i, j);
        assert(all[rest.len() + k] == row[k]);
    }
}

/// Every listed pair of projects has commits on enough of the same days: the entry has their names
/// and how many days these are. The most days come first, and no more pairs than the limit.
pub proof fn law_listed_projects_share_days(
    m: IndexModel,
    min_shared: int,
    min_weight: int,
    limit: usize,
)
    ensures
        connections_of(m, min_shared, min_weight, limit).temporal.len() <= limit,
        forall|k: int|
            0 <= k < connections_of(m, min_shared, min_weight, limit).temporal.len()
                ==> from_rhythm(
                m.nodes,
                min_shared,
                #[trigger] connections_of(m, min_shared, min_weight, limit).temporal[k],
            ),
        forall|k: int, l: int|
            0 <= k < l < connections_of(m, min_shared, min_weight, limit).temporal.len() ==> (
            #[trigger] connections_of(m, min_shared, min_weight, limit).temporal[k]).shared_days
                >= (#[trigger] connections_of(
                m,
                min_shared,
                min_weight,
                limit,
            ).temporal[l]).shared_days,
{
    let nodes = m.nodes;
    let places = lemma_project_days(nodes, nodes.len() as int);
    let projects = project_days(nodes, nodes.len() as int);
    let pairs = temporal_upto(projects, min_shared, projects.len() as int);
    let keys = temporal_keys(pairs);
    lemma_temporal_upto(projects, min_shared, projects.len() as int);
    assert(keys_ok(keys));
    lemma_ordered(pairs, keys);
    let all = ordered(pairs, keys);
    let order = order_of(keys);
    let found = connections_of(m, min_shared, min_weight, limit).temporal;
    assert forall|k: int| 0 <= k < found.len() implies from_rhythm(
        nodes,
        min_shared,
        #[trigger] found[k],
    ) by {
        assert(found[k] == all[k]);
        assert(all[k] == pairs[order[k]]);
        assert(is_some_pair_in(projects, min_shared, pairs[order[k]]));
        let (i, j) = choose|i: int, j: int| is_pair_in(projects, min_shared, found[k], i, j);
        assert(places[i] < places[j]);
        lemma_common(nodes[places[i]].meta, nodes[places[j]].meta);
        assert(is_rhythm_of(nodes, min_shared, found[k], places[i], places[j]));
    }
    assert forall|k: int, l: int| 0 <= k < l < found.len() implies (
    #[trigger] found[k]).shared_days >= (#[trigger] found[l]).shared_days by {
        assert(found[k] == all[k] && found[l] == all[l]);
        assert(before(keys, order[k], order[l]));
        let a = keys[order[k]];
        let b = keys[order[l]];
        assert(key_le(a, b));
        assert(a[0] == PartModel::Num(-found[k].shared_days));
        assert(b[0] == PartModel::Num(-found[l].shared_days));
    }
}

/// No two projects with commits on enough of the same days are left out where the limit leaves
/// room.
pub proof fn law_projects_that_share_days_are_listed(
    m: IndexModel,
    min_shared: int,
    min_weight: int,
    limit: usize,
    a: int,
    b: int,
)
    requires
        0 <= a < b < m.nodes.len(),
        m.nodes[a].kind == "project"@,
        m.nodes[b].kind == "project"@,
        min_shared >= 1,
        common_days(m.nodes[a].meta, m.nodes[b].meta).len() >= min_shared,
        connections_of(m, min_shared, min_weight, limit).temporal.len() < limit,
    ensures
        exists|k: int|
            0 <= k < connections_of(m, min_shared, min_weight, limit).temporal.len()
                && is_rhythm_of(
                m.nodes,
                min_shared,
                #[trigger] connections_of(m, min_shared, min_weight, limit).temporal[k],
                a,
                b,
            ),
{
    let nodes = m.nodes;
    let places = lemma_project_days(nodes, nodes.len() as int);
    let projects = project_days(nodes, nodes.len() as int);
    let pairs = temporal_upto(projects, min_shared, projects.len() as int);
    let keys = temporal_keys(pairs);
    assert(keys_ok(keys));
    lemma_ordered(pairs, keys);
    let all = ordered(pairs, keys);
    let found = connections_of(m, min_shared, min_weight, limit).temporal;
    assert(found == all);
    let i = choose|i: int| 0 <= i < places.len() && places[i] == a;
    let j = choose|j: int| 0 <= j < places.len() && places[j] == b;
    if j <= i {
        if j < i {
            assert(places[j] < places[i]);
        }
        assert(false);
    }
    lemma_common(nodes[a].meta, nodes[b].meta);
    lemma_picked(common_flags(projects[i].days, projects[j].days));
    lemma_temporal_complete(projects, min_shared, projects.len() as int, i, j);
    let k = choose|k: int|
        0 <= k < pairs.len() && is_pair_in(projects, min_shared, #[trigger] pairs[k], i, j);
    assert(pairs.contains(pairs[k]));
    assert(all.contains(pairs[k]));
    let l = choose|l: int| 0 <= l < all.len() && all[l] == pairs[k];
    assert(is_rhythm_of(nodes, min_shared, found[l], a, b));
}

} // verus!
