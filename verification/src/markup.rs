//! What reading a note's markup promises: every link and every backticked span is kept, in its
//! order, unless nothing is left of it or it is a long phrase; and a name is told once.

use vstd::prelude::*;

use crate::extract::{distinct_of, link_targets_of, span_texts_of};
use crate::json::text_field;
use crate::patterns::Groups;
use crate::query::matching_loops;
use crate::store::NodeModel;
use crate::text::{byte_len, has_text, occurs_at, trim};
use crate::words::{lemma_stands, stands};

verus! {

/// Whether something is left of a link's target.
pub open spec fn is_worth_a_link(raw: Seq<char>) -> bool {
    trim(raw).len() > 0
}

/// Whether a backticked text names something: something is left of it, and it is one word or no
/// more than 40 bytes long.
pub open spec fn is_worth_a_span(raw: Seq<char>) -> bool {
    &&& trim(raw).len() > 0
    &&& trim(raw).contains(' ') ==> byte_len(trim(raw)) <= 40
}

/// The targets of links are what was captured, without white space round it, in its order; only
/// what is empty then is left out.
pub proof fn law_links_are_kept(captures: Seq<Groups>) -> (places: Seq<int>)
    ensures
        places.len() == link_targets_of(captures).len(),
        forall|k: int|
            0 <= k < places.len() ==> 0 <= #[trigger] places[k] < captures.len()
                && link_targets_of(captures)[k] == trim(captures[places[k]][1]->0)
                && is_worth_a_link(captures[places[k]][1]->0),
        forall|k: int, l: int|
            0 <= k < l < places.len() ==> #[trigger] places[k] < #[trigger] places[l],
        forall|i: int|
            0 <= i < captures.len() && is_worth_a_link((#[trigger] captures[i])[1]->0)
                ==> places.contains(i),
    decreases captures.len(),
{
    if captures.len() == 0 {
        Seq::empty()
    } else {
        let less = captures.drop_last();
        let last = captures.len() - 1;
        let rest = law_links_are_kept(less);
        let all = link_targets_of(captures);
        let places = if is_worth_a_link(captures[last][1]->0) {
            rest.push(last)
        } else {
            rest
        };
        assert forall|k: int| 0 <= k < places.len() implies 0 <= #[trigger] places[k]
            < captures.len() && all[k] == trim(captures[places[k]][1]->0) && is_worth_a_link(
            captures[places[k]][1]->0,
        ) by {
            if k < rest.len() {
                assert(places[k] == rest[k]);
                assert(less[rest[k]] == captures[rest[k]]);
            }
        }
        assert forall|i: int|
            0 <= i < captures.len() && is_worth_a_link(
                (#[trigger] captures[i])[1]->0,
            ) implies places.contains(i) by {
            if i < last {
                assert(less[i] == captures[i]);
                assert(rest.contains(i));
                let k = choose|k: int| 0 <= k < rest.len() && rest[k] == i;
                assert(places[k] == i);
            } else {
                assert(places[rest.len() as int] == i);
            }
        }
        places
    }
}

/// Backticked spans are kept as they were captured, without white space round them, in their order;
/// only those that name nothing are left out.
pub proof fn law_spans_are_kept(captures: Seq<Groups>) -> (places: Seq<int>)
    ensures
        places.len() == span_texts_of(captures).len(),
        forall|k: int|
            0 <= k < places.len() ==> 0 <= #[trigger] places[k] < captures.len()
                && span_texts_of(captures)[k] == trim(captures[places[k]][1]->0)
                && is_worth_a_span(captures[places[k]][1]->0),
        forall|k: int, l: int|
            0 <= k < l < places.len() ==> #[trigger] places[k] < #[trigger] places[l],
        forall|i: int|
            0 <= i < captures.len() && is_worth_a_span((#[trigger] captures[i])[1]->0)
                ==> places.contains(i),
    decreases captures.len(),
{
    if captures.len() == 0 {
        Seq::empty()
    } else {
        let less = captures.drop_last();
        let last = captures.len() - 1;
        let rest = law_spans_are_kept(less);
        let all = span_texts_of(captures);
        let places = if is_worth_a_span(captures[last][1]->0) {
            rest.push(last)
        } else {
            rest
        };
        assert forall|k: int| 0 <= k < places.len() implies 0 <= #[trigger] places[k]
            < captures.len() && all[k] == trim(captures[places[k]][1]->0) && is_worth_a_span(
            captures[places[k]][1]->0,
        ) by {
            if k < rest.len() {
                assert(places[k] == rest[k]);
                assert(less[rest[k]] == captures[rest[k]]);
            }
        }
        assert forall|i: int|
            0 <= i < captures.len() && is_worth_a_span(
                (#[trigger] captures[i])[1]->0,
            ) implies places.contains(i) by {
            if i < last {
                assert(less[i] == captures[i]);
                assert(rest.contains(i));
                let k = choose|k: int| 0 <= k < rest.len() && rest[k] == i;
                assert(places[k] == i);
            } else {
                assert(places[rest.len() as int] == i);
            }
        }
        places
    }
}

/// Among names without repetitions each one is there once, and none is lost or made up.
pub proof fn law_distinct_names_are_told_once(names: Seq<Seq<char>>)
    ensures
        forall|t: Seq<char>| #[trigger]
            distinct_of(names).contains(t) <==> names.contains(t),
        forall|k: int, l: int|
            0 <= k < l < distinct_of(names).len() ==> #[trigger] distinct_of(names)[k]
                != #[trigger] distinct_of(names)[l],
    decreases names.len(),
{
    if names.len() > 0 {
        let less = names.drop_last();
        law_distinct_names_are_told_once(less);
        let before = distinct_of(less);
        let all = distinct_of(names);
        crate::extract::lemma_with_name(before, names.last());
        assert forall|t: Seq<char>| #[trigger] all.contains(t) <==> names.contains(t) by {
            assert(all.contains(t) <==> before.contains(t) || t == names.last());
            if less.contains(t) {
                let k = choose|k: int| 0 <= k < less.len() && less[k] == t;
                assert(names[k] == t);
            }
            if names.contains(t) && t != names.last() {
                let k = choose|k: int| 0 <= k < names.len() && names[k] == t;
                assert(less[k] == t);
            }
            assert(names[names.len() - 1] == names.last());
        }
        assert forall|k: int, l: int| 0 <= k < l < all.len() implies #[trigger] all[k]
            != #[trigger] all[l] by {
            assert(before.contains(before[k]));
        }
    }
}

/// What a loop says: the text that its metadata holds, or its name where there is none.
pub open spec fn says(node: NodeModel) -> Seq<char> {
    match text_field(node.meta, "text"@) {
        Some(text) => text,
        None => node.name,
    }
}

/// Whether a node is an open loop of a note whose text holds a pattern.
pub open spec fn is_match(node: NodeModel, pattern: Seq<char>) -> bool {
    &&& node.kind == "loop"@
    &&& node.path is Some
    &&& exists|i: int| #[trigger] stands(says(node), pattern, i)
}

proof fn lemma_held(text: Seq<char>, pattern: Seq<char>)
    ensures
        has_text(text, pattern) <==> exists|i: int| #[trigger] stands(text, pattern, i),
{
    assert forall|i: int| #[trigger] stands(text, pattern, i) <==> occurs_at(text, pattern, i) by {
        lemma_stands(text, pattern, i);
    }
    if has_text(text, pattern) {
        let i = choose|i: int| occurs_at(text, pattern, i);
        assert(stands(text, pattern, i));
    }
}

/// The loops that a pattern matches are those whose text holds it, in their order, each with its
/// text and note, and none left out.
pub proof fn law_matching_loops_hold_the_pattern(
    nodes: Seq<NodeModel>,
    pattern: Seq<char>,
    n: int,
) -> (places: Seq<int>)
    requires
        0 <= n <= nodes.len(),
    ensures
        places.len() == matching_loops(nodes, pattern, n).len(),
        forall|k: int|
            0 <= k < places.len() ==> 0 <= #[trigger] places[k] < n && is_match(
                nodes[places[k]],
                pattern,
            ) && matching_loops(nodes, pattern, n)[k].text == says(nodes[places[k]])
                && Some(
                matching_loops(nodes, pattern, n)[k].note,
            ) == nodes[places[k]].path,
        forall|k: int, l: int|
            0 <= k < l < places.len() ==> #[trigger] places[k] < #[trigger] places[l],
        forall|i: int|
            0 <= i < n && is_match(#[trigger] nodes[i], pattern) ==> places.contains(i),
    decreases n,
{
    if n <= 0 {
        Seq::empty()
    } else {
        let rest = law_matching_loops_hold_the_pattern(nodes, pattern, n - 1);
        lemma_held(says(nodes[n - 1]), pattern);
        if is_match(nodes[n - 1], pattern) {
            let places = rest.push(n - 1);
            let all = matching_loops(nodes, pattern, n);
            assert forall|k: int| 0 <= k < places.len() implies 0 <= #[trigger] places[k] < n
                && is_match(nodes[places[k]], pattern) && all[k].text == says(nodes[places[k]])
                && Some(all[k].note) == nodes[places[k]].path by {
                if k < rest.len() {
                    assert(places[k] == rest[k]);
                }
            }
            assert forall|i: int|
                0 <= i < n && is_match(#[trigger] nodes[i], pattern) implies places.contains(i) by {
                if i < n - 1 {
                    assert(rest.contains(i));
                    let k = choose|k: int| 0 <= k < rest.len() && rest[k] == i;
                    assert(places[k] == i);
                } else {
                    assert(places[rest.len() as int] == i);
                }
            }
            places
        } else {
            rest
        }
    }
}

} // verus!
