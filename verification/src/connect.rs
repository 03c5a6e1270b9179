//! Connections nobody wrote down: pairs that keep appearing in the same notes, and projects whose
//! commits land on the same days.

use vstd::prelude::*;

use crate::dates::{day_number, day_of};
use crate::extract::{distinct_of, NameSet};
use crate::graph::{edge_ends, end_ok, ends_ok};
use crate::json::{json_list_field, json_text_field, list_field, text_field};
use crate::order::{
    is_order, keys_ok, order_of, ordered, places, stable_order, text_le, text_not_after, KeyModel,
    KeyPart, PartModel, SortKey,
};
use crate::patterns::is_date;
use crate::query::{first_seen_upto, least_of, limited, no_flags, seen_of, seen_on, take_places};
use crate::scan::parse_date_stem;
use crate::select::{lemma_ordered, lemma_picked, pick, picked};
use crate::store::{
    find_note, has_note, index_ok, lemma_node_place, lemma_note_place, lemma_notes_fit, Index,
    IndexModel, Node, NodeModel,
};
use crate::text::same_text;

verus! {

/// Two things that keep appearing in the same notes. Their affinity is `shared_notes` divided by
/// the square root of `notes_a` times `notes_b`.
#[derive(Debug)]
pub struct CoMentionPair {
    pub a: String,
    pub a_kind: String,
    pub b: String,
    pub b_kind: String,
    pub shared_notes: i64,
    pub span_days: i64,
    /// How many notes mention the first one.
    pub notes_a: u64,
    /// How many notes mention the second one.
    pub notes_b: u64,
}

/// Two projects with commits on the same days.
#[derive(Debug)]
pub struct TemporalPair {
    pub a: String,
    pub b: String,
    pub shared_days: usize,
}

/// The connections that were found.
#[derive(Debug)]
pub struct Connections {
    pub co_mentions: Vec<CoMentionPair>,
    pub temporal: Vec<TemporalPair>,
}

/// The value of a `CoMentionPair`.
pub struct PairModel {
    pub a: Seq<char>,
    pub a_kind: Seq<char>,
    pub b: Seq<char>,
    pub b_kind: Seq<char>,
    pub shared_notes: int,
    pub span_days: int,
    pub notes_a: int,
    pub notes_b: int,
}

/// The value of a `TemporalPair`.
pub struct TemporalModel {
    pub a: Seq<char>,
    pub b: Seq<char>,
    pub shared_days: int,
}

/// The value of `Connections`.
#[verifier::ext_equal]
pub struct ConnectionsModel {
    pub co_mentions: Seq<PairModel>,
    pub temporal: Seq<TemporalModel>,
}

impl DeepView for CoMentionPair {
    type V = PairModel;

    open spec fn deep_view(&self) -> PairModel {
        PairModel {
            a: self.a@,
            a_kind: self.a_kind@,
            b: self.b@,
            b_kind: self.b_kind@,
            shared_notes: self.shared_notes as int,
            span_days: self.span_days as int,
            notes_a: self.notes_a as int,
            notes_b: self.notes_b as int,
        }
    }
}

impl DeepView for TemporalPair {
    type V = TemporalModel;

    open spec fn deep_view(&self) -> TemporalModel {
        TemporalModel { a: self.a@, b: self.b@, shared_days: self.shared_days as int }
    }
}

impl DeepView for Connections {
    type V = ConnectionsModel;

    open spec fn deep_view(&self) -> ConnectionsModel {
        ConnectionsModel {
            co_mentions: self.co_mentions.deep_view(),
            temporal: self.temporal.deep_view(),
        }
    }
}

/// Whether the dates of the notes are written as dates.
pub open spec fn dates_ok(m: IndexModel) -> bool {
    forall|n: int|
        0 <= n < m.notes.len() ==> (seen_on(#[trigger] m.notes[n]) matches Some(d) ==> is_date(d))
}

/// Whether edge `e` is a mention of something by note row `n`.
pub open spec fn mention_from(m: IndexModel, min: int, e: int, n: int) -> bool {
    let edge = m.edges[e];
    &&& edge.kind == "mentions"@ || edge.kind == "wikilink"@
    &&& edge.weight >= min
    &&& edge.src == m.notes[n].node_id
}

/// Whether one of the first `k` edges is a mention of node `t` by note row `n`.
pub open spec fn mentioned_upto(m: IndexModel, min: int, n: int, t: int, k: int) -> bool {
    exists|e: int|
        0 <= e < k && #[trigger] mention_from(m, min, e, n) && m.edges[e].dst == m.nodes[t].id
}

/// Whether a node can be mentioned: a project or an entity.
pub open spec fn is_target(node: NodeModel) -> bool {
    node.kind == "project"@ || node.kind == "entity"@
}

/// Which notes mention node `t`.
pub open spec fn mention_row(m: IndexModel, min: int, t: int) -> Seq<bool> {
    Seq::new(
        m.notes.len(),
        |n: int| is_target(m.nodes[t]) && mentioned_upto(m, min, n, t, m.edges.len() as int),
    )
}

/// How many notes mention node `t`.
pub open spec fn frequency(m: IndexModel, min: int, t: int) -> nat {
    picked(mention_row(m, min, t)).len()
}

/// Which flags are set in both lists.
pub open spec fn both(a: Seq<bool>, b: Seq<bool>) -> Seq<bool> {
    Seq::new(a.len(), |i: int| a[i] && b[i])
}

/// Which notes mention both nodes.
pub open spec fn pair_row(m: IndexModel, min: int, a: int, b: int) -> Seq<bool> {
    both(mention_row(m, min, a), mention_row(m, min, b))
}

/// The greater of two optional texts; one that is not there counts for nothing.
pub open spec fn greatest_of(a: Option<Seq<char>>, b: Option<Seq<char>>) -> Option<Seq<char>> {
    match (a, b) {
        (Some(x), Some(y)) => if text_le(y, x) {
            Some(x)
        } else {
            Some(y)
        },
        (Some(x), None) => Some(x),
        (None, _) => b,
    }
}

/// The latest date of the first `n` flagged notes.
pub open spec fn latest_upto(m: IndexModel, flags: Seq<bool>, n: int) -> Option<Seq<char>>
    decreases n,
{
    if n <= 0 {
        None
    } else if flags[n - 1] {
        greatest_of(latest_upto(m, flags, n - 1), seen_on(m.notes[n - 1]))
    } else {
        latest_upto(m, flags, n - 1)
    }
}

/// How many days lie between two written dates, where both are dates of the calendar.
pub open spec fn days_between(first: Option<Seq<char>>, last: Option<Seq<char>>) -> Option<int> {
    match (first, last) {
        (Some(f), Some(l)) => match (day_number(f), day_number(l)) {
            (Some(x), Some(y)) => Some(y - x),
            _ => None,
        },
        _ => None,
    }
}

/// How many days the flagged notes span.
pub open spec fn span_of(m: IndexModel, flags: Seq<bool>) -> Option<int> {
    let n = m.notes.len() as int;
    days_between(first_seen_upto(m, flags, n), latest_upto(m, flags, n))
}

/// How many notes mention both nodes.
pub open spec fn shared_notes(m: IndexModel, min: int, a: int, b: int) -> nat {
    picked(pair_row(m, min, a, b)).len()
}

/// Whether two nodes keep reuniting: enough notes mention both, over at least two weeks.
pub open spec fn keeps_reuniting(m: IndexModel, min: int, min_shared: int, a: int, b: int) -> bool {
    &&& shared_notes(m, min, a, b) >= min_shared
    &&& span_of(m, pair_row(m, min, a, b)) matches Some(span) && span >= 14
}

/// The pairs of node `a` with the nodes behind it, up to node `n`.
pub open spec fn pairs_with(m: IndexModel, min: int, min_shared: int, a: int, n: int) -> Seq<
    (int, int),
>
    decreases n - a,
{
    if n <= a + 1 {
        Seq::empty()
    } else if keeps_reuniting(m, min, min_shared, a, n - 1) {
        pairs_with(m, min, min_shared, a, n - 1).push((a, n - 1))
    } else {
        pairs_with(m, min, min_shared, a, n - 1)
    }
}

/// The pairs of the first `n` nodes with the nodes behind them.
pub open spec fn pairs_upto(m: IndexModel, min: int, min_shared: int, n: int) -> Seq<(int, int)>
    decreases n,
{
    if n <= 0 {
        Seq::empty()
    } else {
        pairs_upto(m, min, min_shared, n - 1) + pairs_with(
            m,
            min,
            min_shared,
            n - 1,
            m.nodes.len() as int,
        )
    }
}

/// What pairs are sorted by: the square of their affinity, descending. Hubs do not drown the rest.
pub open spec fn pair_key(m: IndexModel, min: int, pair: (int, int)) -> KeyModel {
    let shared = shared_notes(m, min, pair.0, pair.1);
    seq![
        PartModel::FractionDown {
            over: (shared * shared) as int,
            under: (frequency(m, min, pair.0) * frequency(m, min, pair.1)) as int,
        },
    ]
}

/// The sort keys of pairs.
pub open spec fn pair_keys(m: IndexModel, min: int, pairs: Seq<(int, int)>) -> Seq<KeyModel> {
    Seq::new(pairs.len(), |k: int| pair_key(m, min, pairs[k]))
}

/// The entry of a pair.
pub open spec fn pair_item(m: IndexModel, min: int, pair: (int, int)) -> PairModel {
    PairModel {
        a: m.nodes[pair.0].name,
        a_kind: m.nodes[pair.0].kind,
        b: m.nodes[pair.1].name,
        b_kind: m.nodes[pair.1].kind,
        shared_notes: shared_notes(m, min, pair.0, pair.1) as int,
        span_days: span_of(m, pair_row(m, min, pair.0, pair.1))->0,
        notes_a: frequency(m, min, pair.0) as int,
        notes_b: frequency(m, min, pair.1) as int,
    }
}

/// The pairs that keep appearing in the same notes, the closest first.
pub open spec fn co_mention_pairs(m: IndexModel, min: int, min_shared: int, limit: usize) -> Seq<
    PairModel,
> {
    let pairs = pairs_upto(m, min, min_shared, m.nodes.len() as int);
    let order = limited(ordered(pairs, pair_keys(m, min, pairs)), limit);
    Seq::new(order.len(), |k: int| pair_item(m, min, order[k]))
}

/// A list of flags is no longer where fewer are set.
proof fn lemma_picked_subset(a: Seq<bool>, b: Seq<bool>)
    requires
        a.len() == b.len(),
        forall|i: int| 0 <= i < a.len() && #[trigger] a[i] ==> b[i],
    ensures
        picked(a).len() <= picked(b).len(),
    decreases a.len(),
{
    if a.len() > 0 {
        let x = a.drop_last();
        let y = b.drop_last();
        assert forall|i: int| 0 <= i < x.len() && #[trigger] x[i] implies y[i] by {
            assert(a[i]);
        }
        lemma_picked_subset(x, y);
        if a.last() {
            assert(a[a.len() - 1]);
        }
    }
}

/// No more notes mention both than mention either.
pub proof fn lemma_shared_at_most(m: IndexModel, min: int, a: int, b: int)
    ensures
        shared_notes(m, min, a, b) <= frequency(m, min, a),
        shared_notes(m, min, a, b) <= frequency(m, min, b),
        frequency(m, min, a) <= m.notes.len(),
        frequency(m, min, b) <= m.notes.len(),
{
    lemma_picked_subset(pair_row(m, min, a, b), mention_row(m, min, a));
    lemma_picked_subset(pair_row(m, min, a, b), mention_row(m, min, b));
    lemma_picked(mention_row(m, min, a));
    lemma_picked(mention_row(m, min, b));
}

spec fn speaker_ok(m: IndexModel, min: int, e: int, speaker: Option<usize>) -> bool {
    match speaker {
        Some(n) => n < m.notes.len() && mention_from(m, min, e, n as int),
        None => forall|n: int| 0 <= n < m.notes.len() ==> !#[trigger] mention_from(m, min, e, n),
    }
}

spec fn speakers_ok(m: IndexModel, min: int, speakers: Seq<Option<usize>>) -> bool {
    &&& speakers.len() == m.edges.len()
    &&& forall|e: int| 0 <= e < speakers.len() ==> speaker_ok(m, min, e, #[trigger] speakers[e])
}

/// For each edge, the note whose mention it is.
fn speakers_of(index: &Index, min_weight: i128) -> (r: Vec<Option<usize>>)
    requires
        index_ok(index.deep_view()),
    ensures
        speakers_ok(index.deep_view(), min_weight as int, r@),
{
    let ghost m = index.deep_view();
    let ghost min = min_weight as int;
    let mut out: Vec<Option<usize>> = Vec::new();
    let mut e: usize = 0;
    while e < index.edges.len()
        invariant
            m == index.deep_view(),
            min == min_weight as int,
            index_ok(m),
            e <= m.edges.len(),
            out@.len() == e,
            forall|x: int| 0 <= x < e ==> speaker_ok(m, min, x, #[trigger] out@[x]),
        decreases m.edges.len() - e,
    {
        let edge = &index.edges[e];
        assert(m.edges[e as int] == edge.deep_view());
        let mut speaker: Option<usize> = None;
        if edge.weight >= min_weight && (same_text(&edge.kind, "mentions") || same_text(
            &edge.kind,
            "wikilink",
        )) {
            speaker = find_note(&index.notes, edge.src);
            if let Some(n) = speaker {
                assert(m.notes[n as int] == index.notes@[n as int].deep_view());
                assert(mention_from(m, min, e as int, n as int));
            } else {
                assert forall|n: int| 0 <= n < m.notes.len() implies !#[trigger] mention_from(
                    m,
                    min,
                    e as int,
                    n,
                ) by {
                    if m.notes[n].node_id == edge.src {
                        assert(has_note(m.notes, edge.src as int));
                    }
                }
            }
        }
        out.push(speaker);
        e += 1;
    }
    out
}

/// Which notes mention the node at place `t`.
fn row_of(index: &Index, ends: &Vec<(usize, usize)>, speakers: &Vec<Option<usize>>, Ghost(min): Ghost<int>, t: usize) -> (r: Vec<bool>)
    requires
        index_ok(index.deep_view()),
        ends_ok(index.deep_view(), ends@),
        speakers_ok(index.deep_view(), min, speakers@),
        t < index.nodes@.len(),
    ensures
        r@ == mention_row(index.deep_view(), min, t as int),
{
    let ghost m = index.deep_view();
    let mut out = no_flags(index.notes.len());
    let node = &index.nodes[t];
    assert(m.nodes[t as int] == node.deep_view());
    if !(same_text(&node.kind, "project") || same_text(&node.kind, "entity")) {
        assert(out@ =~= mention_row(m, min, t as int));
        return out;
    }
    let mut e: usize = 0;
    while e < index.edges.len()
        invariant
            m == index.deep_view(),
            index_ok(m),
            ends_ok(m, ends@),
            speakers_ok(m, min, speakers@),
            t < m.nodes.len(),
            e <= m.edges.len(),
            out@.len() == m.notes.len(),
            forall|n: int|
                0 <= n < out@.len() ==> #[trigger] out@[n] == mentioned_upto(
                    m,
                    min,
                    n,
                    t as int,
                    e as int,
                ),
        decreases m.edges.len() - e,
    {
        let ghost was = out@;
        let (_, d) = ends[e];
        let speaker = speakers[e];
        assert(end_ok(m, e as int, ends@[e as int]));
        assert(speaker_ok(m, min, e as int, speakers@[e as int]));
        if d == t {
            if let Some(n) = speaker {
                out.set(n, true);
            }
        }
        proof {
            lemma_node_place(m.nodes, d as int);
            lemma_node_place(m.nodes, t as int);
            assert forall|n: int| 0 <= n < out@.len() implies #[trigger] out@[n] == mentioned_upto(
                m,
                min,
                n,
                t as int,
                e + 1,
            ) by {
                let id = m.nodes[t as int].id;
                assert(was[n] == mentioned_upto(m, min, n, t as int, e as int));
                if mentioned_upto(m, min, n, t as int, e as int) {
                    let x = choose|x: int|
                        0 <= x < e && #[trigger] mention_from(m, min, x, n) && m.edges[x].dst == id;
                    assert(mention_from(m, min, x, n));
                }
                let here = mention_from(m, min, e as int, n) && m.edges[e as int].dst == id;
                if here {
                    let s = speaker->0 as int;
                    lemma_note_place(m.notes, n);
                    lemma_note_place(m.notes, s);
                    assert(s == n);
                    assert(mentioned_upto(m, min, n, t as int, e + 1));
                }
                if mentioned_upto(m, min, n, t as int, e + 1) && !mentioned_upto(
                    m,
                    min,
                    n,
                    t as int,
                    e as int,
                ) {
                    let x = choose|x: int|
                        0 <= x < e + 1 && #[trigger] mention_from(m, min, x, n) && m.edges[x].dst
                            == id;
                    assert(x == e);
                }
                if speaker is Some && speaker->0 as int == n && d == t {
                    assert(mention_from(m, min, e as int, n));
                }
            }
        }
        e += 1;
    }
    assert(out@ =~= mention_row(m, min, t as int));
    out
}

fn both_flags(a: &Vec<bool>, b: &Vec<bool>) -> (r: Vec<bool>)
    requires
        a@.len() == b@.len(),
    ensures
        r@ == both(a@, b@),
{
    let mut out: Vec<bool> = Vec::new();
    let mut i: usize = 0;
    while i < a.len()
        invariant
            i <= a@.len(),
            a@.len() == b@.len(),
            out@.len() == i,
            forall|k: int| 0 <= k < i ==> #[trigger] out@[k] == (a@[k] && b@[k]),
        decreases a@.len() - i,
    {
        out.push(a[i] && b[i]);
        i += 1;
    }
    assert(out@ =~= both(a@, b@));
    out
}

fn count_flags(flags: &Vec<bool>) -> (r: usize)
    ensures
        r == picked(flags@).len(),
        r <= flags@.len(),
{
    let picks = pick(flags);
    proof {
        lemma_picked(flags@);
        assert(places(picks@).len() == picks@.len());
    }
    picks.len()
}

fn greater_text(a: Option<String>, b: Option<String>) -> (r: Option<String>)
    ensures
        r.deep_view() == greatest_of(a.deep_view(), b.deep_view()),
{
    match (a, b) {
        (Some(x), Some(y)) => if text_not_after(&y, &x) {
            Some(x)
        } else {
            Some(y)
        },
        (Some(x), None) => Some(x),
        (None, y) => y,
    }
}

/// How many days the flagged notes span.
fn span_days(index: &Index, flags: &Vec<bool>) -> (r: Option<i64>)
    requires
        dates_ok(index.deep_view()),
        flags@.len() == index.notes@.len(),
    ensures
        match r {
            Some(d) => span_of(index.deep_view(), flags@) == Some(d as int),
            None => span_of(index.deep_view(), flags@) is None,
        },
{
    let ghost m = index.deep_view();
    let mut first: Option<String> = None;
    let mut last: Option<String> = None;
    let mut n: usize = 0;
    while n < index.notes.len()
        invariant
            m == index.deep_view(),
            dates_ok(m),
            flags@.len() == m.notes.len(),
            n <= m.notes.len(),
            first.deep_view() == first_seen_upto(m, flags@, n as int),
            last.deep_view() == latest_upto(m, flags@, n as int),
            first.deep_view() matches Some(d) ==> is_date(d),
            last.deep_view() matches Some(d) ==> is_date(d),
        decreases m.notes.len() - n,
    {
        assert(m.notes[n as int] == index.notes@[n as int].deep_view());
        if flags[n] {
            first = least_of(first, seen_of(&index.notes[n]));
            last = greater_text(last, seen_of(&index.notes[n]));
        }
        n += 1;
    }
    match (first, last) {
        (Some(f), Some(l)) => match (day_of(&f), day_of(&l)) {
            (Some(x), Some(y)) => Some(y - x),
            _ => None,
        },
        _ => None,
    }
}

proof fn lemma_no_span(m: IndexModel, flags: Seq<bool>, n: int)
    requires
        0 <= n <= flags.len(),
        forall|i: int| 0 <= i < flags.len() ==> !#[trigger] flags[i],
    ensures
        first_seen_upto(m, flags, n) is None,
    decreases n,
{
    if n > 0 {
        lemma_no_span(m, flags, n - 1);
    }
}

/// A pair that is mentioned too rarely does not keep reuniting.
proof fn lemma_too_rare(m: IndexModel, min: int, min_shared: int, a: int, b: int)
    requires
        frequency(m, min, a) < min_shared || frequency(m, min, b) < min_shared || frequency(
            m,
            min,
            a,
        ) == 0 || frequency(m, min, b) == 0,
    ensures
        !keeps_reuniting(m, min, min_shared, a, b),
{
    lemma_shared_at_most(m, min, a, b);
    let flags = pair_row(m, min, a, b);
    if frequency(m, min, a) == 0 || frequency(m, min, b) == 0 {
        lemma_picked(flags);
        assert forall|i: int| 0 <= i < flags.len() implies !#[trigger] flags[i] by {
            if flags[i] {
                assert(picked(flags).contains(i));
            }
        }
        lemma_no_span(m, flags, m.notes.len() as int);
    }
}

proof fn lemma_rare_row(m: IndexModel, min: int, min_shared: int, a: int, n: int)
    requires
        frequency(m, min, a) < min_shared || frequency(m, min, a) == 0,
    ensures
        pairs_with(m, min, min_shared, a, n) == Seq::<(int, int)>::empty(),
    decreases n - a,
{
    if n > a + 1 {
        lemma_too_rare(m, min, min_shared, a, n - 1);
        lemma_rare_row(m, min, min_shared, a, n - 1);
    }
}

/// A pair of places.
pub open spec fn pair_places(pairs: Seq<(usize, usize)>) -> Seq<(int, int)> {
    Seq::new(pairs.len(), |k: int| (pairs[k].0 as int, pairs[k].1 as int))
}

fn pair_key_of(shared: usize, notes_a: usize, notes_b: usize) -> (r: SortKey)
    ensures
        r.deep_view() == seq![
            PartModel::FractionDown {
                over: shared as int * shared as int,
                under: notes_a as int * notes_b as int,
            },
        ],
{
    proof {
        lemma_counts_product(shared, shared);
        lemma_counts_product(notes_a, notes_b);
    }
    let mut parts: Vec<KeyPart> = Vec::new();
    parts.push(
        KeyPart::FractionDown {
            over: (shared as u128) * (shared as u128),
            under: (notes_a as u128) * (notes_b as u128),
        },
    );
    let key = SortKey { parts };
    assert(key.deep_view() =~= seq![
        PartModel::FractionDown {
            over: shared as int * shared as int,
            under: notes_a as int * notes_b as int,
        },
    ]);
    key
}

proof fn lemma_counts_product(a: usize, b: usize)
    ensures
        0 <= (a as int) * (b as int) <= u128::MAX,
{
    assert(0 <= (a as int) * (b as int) <= 0xffff_ffff_ffff_ffff * 0xffff_ffff_ffff_ffff)
        by (nonlinear_arith)
        requires
            0 <= a <= 0xffff_ffff_ffff_ffff,
            0 <= b <= 0xffff_ffff_ffff_ffff,
    ;
}

/// The notes that mention each node, and how many they are.
fn rows_of(index: &Index, min_weight: i128) -> (r: (Vec<Vec<bool>>, Vec<usize>))
    requires
        index_ok(index.deep_view()),
    ensures
        rows_ok(index.deep_view(), min_weight as int, r.0@, r.1@),
{
    let ghost m = index.deep_view();
    let ghost min = min_weight as int;
    let ends = edge_ends(index);
    let speakers = speakers_of(index, min_weight);
    let mut rows: Vec<Vec<bool>> = Vec::new();
    let mut counts: Vec<usize> = Vec::new();
    let mut t: usize = 0;
    while t < index.nodes.len()
        invariant
            m == index.deep_view(),
            min == min_weight as int,
            index_ok(m),
            ends_ok(m, ends@),
            speakers_ok(m, min, speakers@),
            t <= m.nodes.len(),
            rows@.len() == t,
            counts@.len() == t,
            forall|k: int| 0 <= k < t ==> (#[trigger] rows@[k])@ == mention_row(m, min, k),
            forall|k: int| 0 <= k < t ==> #[trigger] counts@[k] == frequency(m, min, k),
        decreases m.nodes.len() - t,
    {
        let row = row_of(index, &ends, &speakers, Ghost(min), t);
        counts.push(count_flags(&row));
        rows.push(row);
        t += 1;
    }
    (rows, counts)
}

spec fn rows_ok(m: IndexModel, min: int, rows: Seq<Vec<bool>>, counts: Seq<usize>) -> bool {
    &&& rows.len() == m.nodes.len()
    &&& counts.len() == m.nodes.len()
    &&& forall|k: int| 0 <= k < rows.len() ==> (#[trigger] rows[k])@ == mention_row(m, min, k)
    &&& forall|k: int| 0 <= k < counts.len() ==> #[trigger] counts[k] == frequency(m, min, k)
}

/// What was found out about pairs: their places, their entries, and their sort keys.
struct Pairs {
    at: Vec<(usize, usize)>,
    items: Vec<CoMentionPair>,
    keys: Vec<SortKey>,
}

spec fn pairs_ok(m: IndexModel, min: int, found: Pairs, pairs: Seq<(int, int)>) -> bool {
    &&& pair_places(found.at@) == pairs
    &&& found.items@.len() == pairs.len()
    &&& found.keys.deep_view() == pair_keys(m, min, pairs)
    &&& forall|k: int|
        0 <= k < pairs.len() ==> (#[trigger] found.items@[k]).deep_view() == pair_item(
            m,
            min,
            pairs[k],
        )
}

fn pair_entry(
    index: &Index,
    a: usize,
    b: usize,
    shared: usize,
    span: i64,
    notes_a: usize,
    notes_b: usize,
) -> (r: CoMentionPair)
    requires
        a < index.nodes@.len(),
        b < index.nodes@.len(),
        shared <= i64::MAX,
    ensures
        r.deep_view() == (PairModel {
            a: index.deep_view().nodes[a as int].name,
            a_kind: index.deep_view().nodes[a as int].kind,
            b: index.deep_view().nodes[b as int].name,
            b_kind: index.deep_view().nodes[b as int].kind,
            shared_notes: shared as int,
            span_days: span as int,
            notes_a: notes_a as int,
            notes_b: notes_b as int,
        }),
{
    let ghost m = index.deep_view();
    assert(m.nodes[a as int] == index.nodes@[a as int].deep_view());
    assert(m.nodes[b as int] == index.nodes@[b as int].deep_view());
    CoMentionPair {
        a: index.nodes[a].name.clone(),
        a_kind: index.nodes[a].kind.clone(),
        b: index.nodes[b].name.clone(),
        b_kind: index.nodes[b].kind.clone(),
        shared_notes: shared as i64,
        span_days: span,
        notes_a: notes_a as u64,
        notes_b: notes_b as u64,
    }
}

/// The pairs of one node with the nodes behind it, added to those found before.
fn pairs_of_node(
    index: &Index,
    rows: &Vec<Vec<bool>>,
    counts: &Vec<usize>,
    Ghost(min): Ghost<int>,
    min_shared: i64,
    a: usize,
    found: Pairs,
    Ghost(before): Ghost<Seq<(int, int)>>,
) -> (r: Pairs)
    requires
        index_ok(index.deep_view()),
        dates_ok(index.deep_view()),
        rows_ok(index.deep_view(), min, rows@, counts@),
        a < index.nodes@.len(),
        pairs_ok(index.deep_view(), min, found, before),
    ensures
        pairs_ok(
            index.deep_view(),
            min,
            r,
            before + pairs_with(
                index.deep_view(),
                min,
                min_shared as int,
                a as int,
                index.nodes@.len() as int,
            ),
        ),
{
    let ghost m = index.deep_view();
    proof {
        lemma_notes_fit(m);
    }
    let ghost least_shared = min_shared as int;
    let mut at = found.at;
    let mut items = found.items;
    let mut keys = found.keys;
    let n = index.nodes.len();
    let mut b: usize = a + 1;
    let ghost mut pairs = before + pairs_with(m, min, least_shared, a as int, b as int);
    assert(pairs =~= before);
    while b < n
        invariant
            m == index.deep_view(),
            n == m.nodes.len(),
            index_ok(m),
            dates_ok(m),
            m.notes.len() <= i64::MAX,
            rows_ok(m, min, rows@, counts@),
            least_shared == min_shared as int,
            a < b <= n,
            pairs == before + pairs_with(m, min, least_shared, a as int, b as int),
            pair_places(at@) == pairs,
            items@.len() == pairs.len(),
            keys.deep_view() == pair_keys(m, min, pairs),
            forall|k: int|
                0 <= k < pairs.len() ==> (#[trigger] items@[k]).deep_view() == pair_item(
                    m,
                    min,
                    pairs[k],
                ),
        decreases n - b,
    {
        assert(rows@[a as int]@ == mention_row(m, min, a as int));
        assert(rows@[b as int]@ == mention_row(m, min, b as int));
        assert(counts@[a as int] == frequency(m, min, a as int));
        assert(counts@[b as int] == frequency(m, min, b as int));
        proof {
            lemma_shared_at_most(m, min, a as int, b as int);
        }
        let ghost pairs0 = pairs;
        let ghost keys0 = keys.deep_view();
        let ghost at0 = at@;
        let ghost items0 = items@;
        let ghost here = (a as int, b as int);
        let ghost row0 = pairs_with(m, min, least_shared, a as int, b as int);
        let mut keep: Option<(usize, i64)> = None;
        if counts[b] == 0 || (counts[b] as i128) < min_shared as i128 {
            proof {
                lemma_too_rare(m, min, least_shared, a as int, b as int);
            }
        } else {
            let flags = both_flags(&rows[a], &rows[b]);
            let shared = count_flags(&flags);
            if shared as i128 >= min_shared as i128 {
                if let Some(span) = span_days(index, &flags) {
                    if span >= 14 {
                        keep = Some((shared, span));
                    }
                }
            }
        }
        if let Some((shared, span)) = keep {
            let item = pair_entry(index, a, b, shared, span, counts[a], counts[b]);
            let key = pair_key_of(shared, counts[a], counts[b]);
            at.push((a, b));
            items.push(item);
            keys.push(key);
            proof {
                pairs = pairs0.push(here);
                assert(before + row0.push(here) =~= pairs);
                assert(pair_places(at@) =~= pairs);
                assert(keys.deep_view() =~= keys0.push(key.deep_view()));
                assert(key.deep_view() == pair_key(m, min, here));
                assert(pair_keys(m, min, pairs) =~= keys0.push(pair_key(m, min, here)));
                assert(item.deep_view() == pair_item(m, min, here));
                assert forall|k: int| 0 <= k < pairs.len() implies (#[trigger] items@[k]).deep_view()
                    == pair_item(m, min, pairs[k]) by {
                    if k < pairs0.len() {
                        assert(items@[k] == items0[k]);
                        assert(pairs[k] == pairs0[k]);
                    }
                }
            }
        }
        b += 1;
    }
    Pairs { at, items, keys }
}

fn copy_pair(pair: &CoMentionPair) -> (r: CoMentionPair)
    ensures
        r.deep_view() == pair.deep_view(),
{
    CoMentionPair {
        a: pair.a.clone(),
        a_kind: pair.a_kind.clone(),
        b: pair.b.clone(),
        b_kind: pair.b_kind.clone(),
        shared_notes: pair.shared_notes,
        span_days: pair.span_days,
        notes_a: pair.notes_a,
        notes_b: pair.notes_b,
    }
}

pub proof fn lemma_pair_keys(m: IndexModel, min: int, min_shared: int, pairs: Seq<(int, int)>)
    requires
        forall|k: int|
            0 <= k < pairs.len() ==> keeps_reuniting(
                m,
                min,
                min_shared,
                (#[trigger] pairs[k]).0,
                pairs[k].1,
            ),
    ensures
        keys_ok(pair_keys(m, min, pairs)),
{
    let keys = pair_keys(m, min, pairs);
    assert forall|k: int| 0 <= k < keys.len() implies crate::order::key_ok(#[trigger] keys[k]) by {
        let (a, b) = pairs[k];
        assert(keeps_reuniting(m, min, min_shared, pairs[k].0, pairs[k].1));
        if frequency(m, min, a) == 0 || frequency(m, min, b) == 0 {
            lemma_too_rare(m, min, min_shared, a, b);
        }
        let shared = shared_notes(m, min, a, b);
        let fa = frequency(m, min, a);
        let fb = frequency(m, min, b);
        assert(fa * fb > 0) by (nonlinear_arith)
            requires
                fa > 0,
                fb > 0,
        ;
        assert(shared * shared >= 0) by (nonlinear_arith);
        assert(keys[k] == pair_key(m, min, pairs[k]));
    }
}

pub proof fn lemma_pairs_reunite(m: IndexModel, min: int, min_shared: int, n: int)
    requires
        n <= m.nodes.len(),
    ensures
        forall|k: int|
            0 <= k < pairs_upto(m, min, min_shared, n).len() ==> keeps_reuniting(
                m,
                min,
                min_shared,
                (#[trigger] pairs_upto(m, min, min_shared, n)[k]).0,
                pairs_upto(m, min, min_shared, n)[k].1,
            ) && 0 <= pairs_upto(m, min, min_shared, n)[k].0 < pairs_upto(m, min, min_shared, n)[k].1
                < m.nodes.len(),
    decreases n,
{
    if n > 0 {
        lemma_pairs_reunite(m, min, min_shared, n - 1);
        lemma_row_reunites(m, min, min_shared, n - 1, m.nodes.len() as int);
        let all = pairs_upto(m, min, min_shared, n);
        let rest = pairs_upto(m, min, min_shared, n - 1);
        let row = pairs_with(m, min, min_shared, n - 1, m.nodes.len() as int);
        assert forall|k: int| 0 <= k < all.len() implies keeps_reuniting(
            m,
            min,
            min_shared,
            (#[trigger] all[k]).0,
            all[k].1,
        ) && 0 <= all[k].0 < all[k].1 < m.nodes.len() by {
            if k < rest.len() {
                assert(all[k] == rest[k]);
            } else {
                assert(all[k] == row[k - rest.len()]);
            }
        }
    }
}

proof fn lemma_row_reunites(m: IndexModel, min: int, min_shared: int, a: int, n: int)
    requires
        0 <= a,
        n <= m.nodes.len(),
    ensures
        forall|k: int|
            0 <= k < pairs_with(m, min, min_shared, a, n).len() ==> keeps_reuniting(
                m,
                min,
                min_shared,
                (#[trigger] pairs_with(m, min, min_shared, a, n)[k]).0,
                pairs_with(m, min, min_shared, a, n)[k].1,
            ) && 0 <= pairs_with(m, min, min_shared, a, n)[k].0 < pairs_with(
                m,
                min,
                min_shared,
                a,
                n,
            )[k].1 < m.nodes.len(),
    decreases n - a,
{
    if n > a + 1 {
        lemma_row_reunites(m, min, min_shared, a, n - 1);
        let all = pairs_with(m, min, min_shared, a, n);
        let rest = pairs_with(m, min, min_shared, a, n - 1);
        assert forall|k: int| 0 <= k < all.len() implies keeps_reuniting(
            m,
            min,
            min_shared,
            (#[trigger] all[k]).0,
            all[k].1,
        ) && 0 <= all[k].0 < all[k].1 < m.nodes.len() by {
            if k < rest.len() {
                assert(all[k] == rest[k]);
            }
        }
    }
}

/// The pairs that keep appearing in the same notes, the closest first.
fn co_mentions(index: &Index, min_shared: i64, min_weight: i128, limit: usize) -> (r: Vec<CoMentionPair>)
    requires
        index_ok(index.deep_view()),
        dates_ok(index.deep_view()),
    ensures
        r.deep_view() == co_mention_pairs(
            index.deep_view(),
            min_weight as int,
            min_shared as int,
            limit,
        ),
{
    let ghost m = index.deep_view();
    let ghost min = min_weight as int;
    let ghost least_shared = min_shared as int;
    proof {
        lemma_notes_fit(m);
    }
    let (rows, counts) = rows_of(index, min_weight);
    let mut found = Pairs { at: Vec::new(), items: Vec::new(), keys: Vec::new() };
    let ghost mut pairs = Seq::<(int, int)>::empty();
    assert(pair_places(found.at@) =~= pairs);
    assert(found.keys.deep_view() =~= pair_keys(m, min, pairs));
    let mut a: usize = 0;
    while a < index.nodes.len()
        invariant
            m == index.deep_view(),
            min == min_weight as int,
            least_shared == min_shared as int,
            index_ok(m),
            dates_ok(m),
            m.notes.len() <= i64::MAX,
            rows_ok(m, min, rows@, counts@),
            a <= m.nodes.len(),
            pairs == pairs_upto(m, min, least_shared, a as int),
            pairs_ok(m, min, found, pairs),
        decreases m.nodes.len() - a,
    {
        assert(counts@[a as int] == frequency(m, min, a as int));
        let ghost row = pairs_with(m, min, least_shared, a as int, m.nodes.len() as int);
        if counts[a] == 0 || (counts[a] as i128) < min_shared as i128 {
            proof {
                lemma_rare_row(m, min, least_shared, a as int, m.nodes.len() as int);
                assert(pairs + row =~= pairs);
            }
        } else {
            found = pairs_of_node(
                index,
                &rows,
                &counts,
                Ghost(min),
                min_shared,
                a,
                found,
                Ghost(pairs),
            );
        }
        proof {
            pairs = pairs + row;
        }
        a += 1;
    }
    let ghost km = pair_keys(m, min, pairs);
    proof {
        lemma_pairs_reunite(m, min, least_shared, m.nodes.len() as int);
        lemma_pair_keys(m, min, least_shared, pairs);
        lemma_ordered(pairs, km);
    }
    let order = take_places(stable_order(&found.keys), limit);
    let ghost listed = limited(ordered(pairs, km), limit);
    let ghost all_items = co_mention_pairs(m, min, least_shared, limit);
    let mut out: Vec<CoMentionPair> = Vec::new();
    let mut l: usize = 0;
    assert(out.deep_view() =~= Seq::<PairModel>::empty());
    while l < order.len()
        invariant
            listed == limited(ordered(pairs, km), limit),
            all_items == Seq::new(listed.len(), |k: int| pair_item(m, min, listed[k])),
            km.len() == pairs.len(),
            found.items@.len() == pairs.len(),
            forall|k: int|
                0 <= k < pairs.len() ==> (#[trigger] found.items@[k]).deep_view() == pair_item(
                    m,
                    min,
                    pairs[k],
                ),
            places(order@) == limited(order_of(km), limit),
            is_order(km, order_of(km)),
            l <= order@.len(),
            out.deep_view() == all_items.take(l as int),
        decreases order@.len() - l,
    {
        let ghost before = out.deep_view();
        let slot = order[l];
        assert(places(order@).len() == order@.len());
        assert(places(order@)[l as int] == slot as int);
        assert(order_of(km)[l as int] == slot as int);
        assert(listed[l as int] == pairs[slot as int]);
        let item = copy_pair(&found.items[slot]);
        out.push(item);
        assert(out.deep_view() =~= before.push(item.deep_view()));
        assert(all_items.take(l + 1) =~= before.push(item.deep_view()));
        l += 1;
    }
    assert(places(order@).len() == order@.len());
    assert(all_items.take(order@.len() as int) =~= all_items);
    out
}

/// The dates of the first `n` commits that have one.
pub open spec fn dates_upto(commits: Seq<Seq<char>>, n: int) -> Seq<Seq<char>>
    decreases n,
{
    if n <= 0 {
        Seq::empty()
    } else {
        match text_field(commits[n - 1], "date"@) {
            Some(date) => dates_upto(commits, n - 1).push(date),
            None => dates_upto(commits, n - 1),
        }
    }
}

/// The days on which a project has commits, by its metadata.
pub open spec fn commit_days(meta: Seq<char>) -> Seq<Seq<char>> {
    match list_field(meta, "commits"@) {
        Some(commits) => distinct_of(dates_upto(commits, commits.len() as int)),
        None => Seq::empty(),
    }
}

/// The days on which a project has commits.
fn commit_days_of(meta: &str) -> (r: NameSet)
    ensures
        r@ == commit_days(meta@),
{
    let mut days = NameSet::new();
    if let Some(commits) = json_list_field(meta, "commits") {
        let ghost all = commits.deep_view();
        let mut i: usize = 0;
        while i < commits.len()
            invariant
                all == commits.deep_view(),
                i <= all.len(),
                days@ == distinct_of(dates_upto(all, i as int)),
            decreases all.len() - i,
        {
            assert(all[i as int] == commits@[i as int]@);
            let ghost before = dates_upto(all, i as int);
            if let Some(date) = json_text_field(&commits[i], "date") {
                days = days.with(&date);
                assert(before.push(date@).drop_last() =~= before);
            }
            i += 1;
        }
    }
    days
}

/// Which of the names are among the others.
pub open spec fn common_flags(a: Seq<Seq<char>>, b: Seq<Seq<char>>) -> Seq<bool> {
    Seq::new(a.len(), |i: int| b.contains(a[i]))
}

/// How many of the names are among the others.
pub open spec fn common_count(a: Seq<Seq<char>>, b: Seq<Seq<char>>) -> nat {
    picked(common_flags(a, b)).len()
}

fn count_common(a: &NameSet, b: &NameSet) -> (r: usize)
    ensures
        r == common_count(a@, b@),
{
    let mut flags: Vec<bool> = Vec::new();
    let mut i: usize = 0;
    while i < a.len()
        invariant
            i <= a@.len(),
            flags@.len() == i,
            forall|k: int| 0 <= k < i ==> #[trigger] flags@[k] == b@.contains(a@[k]),
        decreases a@.len() - i,
    {
        flags.push(b.contains(a.at(i)));
        i += 1;
    }
    assert(flags@ =~= common_flags(a@, b@));
    count_flags(&flags)
}

/// A project and the days on which it has commits.
pub struct ProjectDays {
    pub name: Seq<char>,
    pub days: Seq<Seq<char>>,
}

/// The projects among the first `n` nodes.
pub open spec fn project_days(nodes: Seq<NodeModel>, n: int) -> Seq<ProjectDays>
    decreases n,
{
    if n <= 0 {
        Seq::empty()
    } else if nodes[n - 1].kind == "project"@ {
        project_days(nodes, n - 1).push(
            ProjectDays { name: nodes[n - 1].name, days: commit_days(nodes[n - 1].meta) },
        )
    } else {
        project_days(nodes, n - 1)
    }
}

/// The pairs of project `i` with the projects behind it, up to project `n`, that have commits on
/// enough of the same days.
pub open spec fn temporal_with(projects: Seq<ProjectDays>, min_shared: int, i: int, n: int) -> Seq<
    TemporalModel,
>
    decreases n - i,
{
    if n <= i + 1 {
        Seq::empty()
    } else {
        let before = temporal_with(projects, min_shared, i, n - 1);
        let shared = common_count(projects[i].days, projects[n - 1].days);
        if shared >= min_shared {
            before.push(
                TemporalModel {
                    a: projects[i].name,
                    b: projects[n - 1].name,
                    shared_days: shared as int,
                },
            )
        } else {
            before
        }
    }
}

/// The pairs of the first `n` projects with the projects behind them. Projects without commits
/// have no pairs behind them.
pub open spec fn temporal_upto(projects: Seq<ProjectDays>, min_shared: int, n: int) -> Seq<
    TemporalModel,
>
    decreases n,
{
    if n <= 0 {
        Seq::empty()
    } else if projects[n - 1].days.len() == 0 {
        temporal_upto(projects, min_shared, n - 1)
    } else {
        temporal_upto(projects, min_shared, n - 1) + temporal_with(
            projects,
            min_shared,
            n - 1,
            projects.len() as int,
        )
    }
}

/// What pairs are sorted by: the most shared days first.
pub open spec fn temporal_keys(pairs: Seq<TemporalModel>) -> Seq<KeyModel> {
    Seq::new(pairs.len(), |k: int| seq![PartModel::Num(-pairs[k].shared_days)])
}

/// The projects whose commits land on the same days, the closest first.
pub open spec fn temporal_pairs(nodes: Seq<NodeModel>, min_shared: int, limit: usize) -> Seq<
    TemporalModel,
> {
    let projects = project_days(nodes, nodes.len() as int);
    let pairs = temporal_upto(projects, min_shared, projects.len() as int);
    limited(ordered(pairs, temporal_keys(pairs)), limit)
}

spec fn days_ok(names: Seq<&String>, days: Seq<NameSet>, projects: Seq<ProjectDays>) -> bool {
    &&& names.len() == projects.len()
    &&& days.len() == projects.len()
    &&& forall|k: int|
        0 <= k < projects.len() ==> (#[trigger] projects[k]).name == names[k]@ && projects[k].days
            == days[k]@
}

fn days_of_projects<'a>(nodes: &'a Vec<Node>) -> (r: (Vec<&'a String>, Vec<NameSet>))
    ensures
        days_ok(r.0@, r.1@, project_days(nodes.deep_view(), nodes@.len() as int)),
{
    let ghost all = nodes.deep_view();
    let mut names: Vec<&'a String> = Vec::new();
    let mut days: Vec<NameSet> = Vec::new();
    let mut i: usize = 0;
    while i < nodes.len()
        invariant
            all == nodes.deep_view(),
            i <= all.len(),
            days_ok(names@, days@, project_days(all, i as int)),
        decreases all.len() - i,
    {
        let node = &nodes[i];
        assert(all[i as int] == node.deep_view());
        if same_text(&node.kind, "project") {
            names.push(&node.name);
            days.push(commit_days_of(&node.meta));
        }
        i += 1;
    }
    (names, days)
}

/// The pairs of one project, added to those found before.
fn temporal_of(
    names: &Vec<&String>,
    days: &Vec<NameSet>,
    Ghost(projects): Ghost<Seq<ProjectDays>>,
    min_shared: i64,
    i: usize,
    found: Vec<TemporalPair>,
) -> (r: Vec<TemporalPair>)
    requires
        days_ok(names@, days@, projects),
        i < projects.len(),
    ensures
        r.deep_view() == found.deep_view() + temporal_with(
            projects,
            min_shared as int,
            i as int,
            projects.len() as int,
        ),
{
    let ghost before = found.deep_view();
    let ghost least_shared = min_shared as int;
    let mut out = found;
    let n = days.len();
    let mut j: usize = i + 1;
    assert(out.deep_view() =~= before + temporal_with(projects, least_shared, i as int, j as int));
    while j < n
        invariant
            days_ok(names@, days@, projects),
            n == projects.len(),
            i < j <= n,
            least_shared == min_shared as int,
            out.deep_view() == before + temporal_with(projects, least_shared, i as int, j as int),
        decreases n - j,
    {
        let ghost now = out.deep_view();
        let ghost row = temporal_with(projects, least_shared, i as int, j as int);
        assert(projects[i as int].days == days@[i as int]@);
        assert(projects[j as int].days == days@[j as int]@);
        let shared = count_common(&days[i], &days[j]);
        if shared as i128 >= min_shared as i128 {
            let item = TemporalPair {
                a: names[i].clone(),
                b: names[j].clone(),
                shared_days: shared,
            };
            out.push(item);
            assert(out.deep_view() =~= now.push(item.deep_view()));
            assert(now.push(item.deep_view()) =~= before + row.push(item.deep_view()));
        }
        j += 1;
    }
    out
}

fn temporal_key(shared: usize) -> (r: SortKey)
    ensures
        r.deep_view() == seq![PartModel::Num(-(shared as int))],
{
    let mut parts: Vec<KeyPart> = Vec::new();
    parts.push(KeyPart::Num(-(shared as i128)));
    let key = SortKey { parts };
    assert(key.deep_view() =~= seq![PartModel::Num(-(shared as int))]);
    key
}

fn sort_temporal(pairs: &Vec<TemporalPair>, limit: usize) -> (r: Vec<TemporalPair>)
    ensures
        r.deep_view() == limited(
            ordered(pairs.deep_view(), temporal_keys(pairs.deep_view())),
            limit,
        ),
{
    let ghost all = pairs.deep_view();
    let ghost km = temporal_keys(all);
    let mut keys: Vec<SortKey> = Vec::new();
    let mut i: usize = 0;
    assert(keys.deep_view() =~= Seq::<KeyModel>::empty());
    while i < pairs.len()
        invariant
            all == pairs.deep_view(),
            km == temporal_keys(all),
            i <= all.len(),
            keys.deep_view() == km.take(i as int),
        decreases all.len() - i,
    {
        let ghost before = keys.deep_view();
        assert(all[i as int] == pairs@[i as int].deep_view());
        let key = temporal_key(pairs[i].shared_days);
        keys.push(key);
        assert(keys.deep_view() =~= before.push(key.deep_view()));
        assert(km.take(i + 1) =~= before.push(key.deep_view()));
        i += 1;
    }
    assert(km.take(all.len() as int) =~= km);
    assert(keys_ok(keys.deep_view()));
    let order = take_places(stable_order(&keys), limit);
    let ghost listed = limited(ordered(all, km), limit);
    let mut out: Vec<TemporalPair> = Vec::new();
    let mut l: usize = 0;
    assert(out.deep_view() =~= Seq::<TemporalModel>::empty());
    while l < order.len()
        invariant
            l <= order@.len(),
            all == pairs.deep_view(),
            km.len() == all.len(),
            places(order@) == limited(order_of(km), limit),
            is_order(km, order_of(km)),
            listed == limited(ordered(all, km), limit),
            out.deep_view() == listed.take(l as int),
        decreases order@.len() - l,
    {
        let ghost before = out.deep_view();
        let slot = order[l];
        assert(places(order@).len() == order@.len());
        assert(places(order@)[l as int] == slot as int);
        assert(order_of(km)[l as int] == slot as int);
        assert(listed[l as int] == all[slot as int]);
        assert(all[slot as int] == pairs@[slot as int].deep_view());
        let pair = &pairs[slot];
        let item = TemporalPair {
            a: pair.a.clone(),
            b: pair.b.clone(),
            shared_days: pair.shared_days,
        };
        out.push(item);
        assert(out.deep_view() =~= before.push(item.deep_view()));
        assert(listed.take(l + 1) =~= before.push(item.deep_view()));
        l += 1;
    }
    assert(places(order@).len() == order@.len());
    assert(listed.take(order@.len() as int) =~= listed);
    out
}

fn temporal(nodes: &Vec<Node>, min_shared: i64, limit: usize) -> (r: Vec<TemporalPair>)
    ensures
        r.deep_view() == temporal_pairs(nodes.deep_view(), min_shared as int, limit),
{
    let ghost projects = project_days(nodes.deep_view(), nodes@.len() as int);
    let (names, days) = days_of_projects(nodes);
    let mut found: Vec<TemporalPair> = Vec::new();
    let mut i: usize = 0;
    assert(found.deep_view() =~= Seq::<TemporalModel>::empty());
    while i < days.len()
        invariant
            days_ok(names@, days@, projects),
            i <= projects.len(),
            found.deep_view() == temporal_upto(projects, min_shared as int, i as int),
        decreases projects.len() - i,
    {
        assert(projects[i as int].days == days@[i as int]@);
        if days[i].len() > 0 {
            found = temporal_of(&names, &days, Ghost(projects), min_shared, i, found);
        }
        i += 1;
    }
    sort_temporal(&found, limit)
}

/// The connections of an index.
pub open spec fn connections_of(m: IndexModel, min_shared: int, min_weight: int, limit: usize) -> ConnectionsModel {
    ConnectionsModel {
        co_mentions: co_mention_pairs(m, min_weight, min_shared, limit),
        temporal: temporal_pairs(m.nodes, min_shared, limit),
    }
}

/// Surface connections nobody wrote down: node pairs that keep appearing in the same notes, scored
/// by affinity so hub nodes do not drown everything, and projects whose commits land on the same
/// days. A pair is only interesting if it keeps reuniting over time, so the shared notes must span
/// at least two weeks. `min_weight` is in thousandths.
pub fn connect(index: &Index, min_shared: i64, min_weight: i128, limit: usize) -> (r: Connections)
    requires
        index_ok(index.deep_view()),
        dates_ok(index.deep_view()),
    ensures
        r.deep_view() == connections_of(
            index.deep_view(),
            min_shared as int,
            min_weight as int,
            limit,
        ),
{
    Connections {
        co_mentions: co_mentions(index, min_shared, min_weight, limit),
        temporal: temporal(&index.nodes, min_shared, limit),
    }
}

/// Whether the dates of the notes are written as dates.
pub fn has_plain_dates(index: &Index) -> (r: bool)
    ensures
        r == dates_ok(index.deep_view()),
{
    let ghost m = index.deep_view();
    let mut n: usize = 0;
    while n < index.notes.len()
        invariant
            m == index.deep_view(),
            n <= m.notes.len(),
            forall|k: int|
                0 <= k < n ==> (seen_on(#[trigger] m.notes[k]) matches Some(d) ==> is_date(d)),
        decreases m.notes.len() - n,
    {
        assert(m.notes[n as int] == index.notes@[n as int].deep_view());
        if let Some(d) = seen_of(&index.notes[n]) {
            if parse_date_stem(&d).is_none() {
                return false;
            }
        }
        n += 1;
    }
    true
}

/// Every pair that is listed keeps reuniting: enough notes mention both, and those notes span at
/// least two weeks.
pub proof fn law_pairs_keep_reuniting(m: IndexModel, min_shared: int, min_weight: int, limit: usize)
    ensures
        forall|k: int|
            0 <= k < connections_of(m, min_shared, min_weight, limit).co_mentions.len() ==> {
                &&& (#[trigger] connections_of(m, min_shared, min_weight, limit).co_mentions[k]).shared_notes
                    >= min_shared
                &&& connections_of(m, min_shared, min_weight, limit).co_mentions[k].span_days >= 14
            },
{
    let pairs = pairs_upto(m, min_weight, min_shared, m.nodes.len() as int);
    let keys = pair_keys(m, min_weight, pairs);
    lemma_pairs_reunite(m, min_weight, min_shared, m.nodes.len() as int);
    lemma_pair_keys(m, min_weight, min_shared, pairs);
    lemma_ordered(pairs, keys);
    let order = limited(ordered(pairs, keys), limit);
    let found = connections_of(m, min_shared, min_weight, limit).co_mentions;
    assert forall|k: int| 0 <= k < found.len() implies (#[trigger] found[k]).shared_notes
        >= min_shared && found[k].span_days >= 14 by {
        assert(order[k] == ordered(pairs, keys)[k]);
        let j = order_of(keys)[k];
        assert(ordered(pairs, keys)[k] == pairs[j]);
        assert(keeps_reuniting(m, min_weight, min_shared, pairs[j].0, pairs[j].1));
    }
}

/// The affinity of a listed pair is at most one: no more notes mention both than mention either.
pub proof fn law_affinity_is_at_most_one(m: IndexModel, min_shared: int, min_weight: int, limit: usize)
    ensures
        forall|k: int|
            0 <= k < connections_of(m, min_shared, min_weight, limit).co_mentions.len() ==> {
                &&& (#[trigger] connections_of(m, min_shared, min_weight, limit).co_mentions[k]).shared_notes
                    <= connections_of(m, min_shared, min_weight, limit).co_mentions[k].notes_a
                &&& connections_of(m, min_shared, min_weight, limit).co_mentions[k].shared_notes
                    <= connections_of(m, min_shared, min_weight, limit).co_mentions[k].notes_b
            },
{
    let pairs = pairs_upto(m, min_weight, min_shared, m.nodes.len() as int);
    let order = limited(ordered(pairs, pair_keys(m, min_weight, pairs)), limit);
    let found = connections_of(m, min_shared, min_weight, limit).co_mentions;
    assert forall|k: int| 0 <= k < found.len() implies (#[trigger] found[k]).shared_notes
        <= found[k].notes_a && found[k].shared_notes <= found[k].notes_b by {
        lemma_shared_at_most(m, min_weight, order[k].0, order[k].1);
    }
}

} // verus!
