//! What publishing a note takes: a frontmatter block at its very start whose last word on it is yes.

use vstd::prelude::*;

use crate::extract::closes_frontmatter;
use crate::lint::{closing_line, line_key, line_value};
use crate::publish::{publish_flag, published};
use crate::text::{
    is_white, lemma_place_of, lemma_tail_len, lemma_tail_len_unique, lines, place_of, tail_len, trim,
    trimmed_end, CharClass,
};

verus! {

/// Whether a line is three hyphens, with white space behind them at most.
pub open spec fn is_rule(line: Seq<char>) -> bool {
    &&& line.len() >= 3
    &&& line[0] == '-' && line[1] == '-' && line[2] == '-'
    &&& forall|i: int| 3 <= i < line.len() ==> is_white(#[trigger] line[i])
}

/// Whether a line says something of publishing, which is `value`: a colon stands behind the key and
/// before the value, and a line without one says nothing.
pub open spec fn says_of_publish(line: Seq<char>, value: Seq<char>) -> bool {
    ||| exists|c: int|
        0 <= c < line.len() && #[trigger] line[c] == ':' && !line.take(c).contains(':') && trim(
            line.take(c),
        ) == "publish"@ && trim(line.skip(c + 1)) == value
    ||| !line.contains(':') && trim(line) == "publish"@ && value == ""@
}

/// Whether a line says anything of publishing.
pub open spec fn speaks_of_publish(line: Seq<char>) -> bool {
    exists|value: Seq<char>| #[trigger] says_of_publish(line, value)
}

pub proof fn lemma_rule(line: Seq<char>)
    ensures
        closes_frontmatter(line) <==> is_rule(line),
{
    let class = CharClass::White;
    reveal_strlit("---");
    lemma_tail_len(line, class);
    let n = tail_len(line, class);
    let t = trimmed_end(line, class);
    if closes_frontmatter(line) {
        assert(t.len() == 3);
        assert(line[0] == t[0] && line[1] == t[1] && line[2] == t[2]);
        assert forall|i: int| 3 <= i < line.len() implies is_white(#[trigger] line[i]) by {
            assert(class.holds(line[i]));
        }
    }
    if is_rule(line) {
        let k = (line.len() - 3) as nat;
        assert forall|i: int| line.len() - k <= i < line.len() implies class.holds(
            #[trigger] line[i],
        ) by {}
        assert(!class.holds(line[2]));
        lemma_tail_len_unique(line, class, k);
        assert(t =~= "---"@);
    }
}

pub proof fn lemma_says(line: Seq<char>, value: Seq<char>)
    ensures
        says_of_publish(line, value) <==> line_key(line) == "publish"@ && line_value(line) == value,
{
    lemma_place_of(line, ':');
    let n = place_of(line, ':') as int;
    if n < line.len() {
        assert(line[n] == ':');
        assert(!line.take(n).contains(':')) by {
            if line.take(n).contains(':') {
                let i = choose|i: int| 0 <= i < n && line.take(n)[i] == ':';
                assert(line[i] == ':');
            }
        }
        assert(line.contains(':'));
        if says_of_publish(line, value) {
            let c = choose|c: int|
                0 <= c < line.len() && #[trigger] line[c] == ':' && !line.take(c).contains(':')
                    && trim(line.take(c)) == "publish"@ && trim(line.skip(c + 1)) == value;
            if n < c {
                assert(line.take(c)[n] == ':');
            }
            if c < n {
                assert(line[c] != ':');
            }
        }
    } else {
        assert(!line.contains(':')) by {
            if line.contains(':') {
                let i = choose|i: int| 0 <= i < line.len() && line[i] == ':';
                assert(line[i] != ':');
            }
        }
        assert(line.take(n) =~= line);
        if exists|c: int|
            0 <= c < line.len() && #[trigger] line[c] == ':' && !line.take(c).contains(':') && trim(
                line.take(c),
            ) == "publish"@ && trim(line.skip(c + 1)) == value {
            let c = choose|c: int| 0 <= c < line.len() && #[trigger] line[c] == ':';
            assert(line.contains(':'));
        }
    }
}

pub proof fn lemma_speaks(line: Seq<char>)
    ensures
        speaks_of_publish(line) <==> line_key(line) == "publish"@,
{
    if line_key(line) == "publish"@ {
        lemma_says(line, line_value(line));
        assert(says_of_publish(line, line_value(line)));
    }
    if speaks_of_publish(line) {
        let value = choose|value: Seq<char>| #[trigger] says_of_publish(line, value);
        lemma_says(line, value);
    }
}

/// Whether line `j` is the last among lines 1 up to `n` that says anything of publishing, and says
/// yes.
pub open spec fn is_last_yes(all: Seq<Seq<char>>, n: int, j: int) -> bool {
    &&& 1 <= j < n
    &&& says_of_publish(all[j], "true"@)
    &&& forall|k: int| j < k < n ==> !speaks_of_publish(#[trigger] all[k])
}

proof fn lemma_flag(all: Seq<Seq<char>>, n: int)
    requires
        n <= all.len(),
    ensures
        publish_flag(all, n) <==> exists|j: int| is_last_yes(all, n, j),
    decreases n,
{
    if n > 1 {
        lemma_flag(all, n - 1);
        lemma_speaks(all[n - 1]);
        lemma_says(all[n - 1], "true"@);
        if line_key(all[n - 1]) == "publish"@ {
            if publish_flag(all, n) {
                assert(is_last_yes(all, n, n - 1));
            }
            if exists|j: int| is_last_yes(all, n, j) {
                let j = choose|j: int| is_last_yes(all, n, j);
                if j < n - 1 {
                    assert(!speaks_of_publish(all[n - 1]));
                }
            }
        } else {
            if publish_flag(all, n - 1) {
                let less = n - 1;
                let j = choose|j: int| is_last_yes(all, less, j);
                assert(is_last_yes(all, n, j));
            }
            if exists|j: int| is_last_yes(all, n, j) {
                let j = choose|j: int| is_last_yes(all, n, j);
                if j < n - 1 {
                    assert(is_last_yes(all, n - 1, j));
                } else {
                    assert(speaks_of_publish(all[n - 1]));
                }
            }
        }
    }
}

/// Whether line `end` is the first rule behind the first line.
pub open spec fn is_block_end(all: Seq<Seq<char>>, end: int) -> bool {
    &&& 1 <= end < all.len()
    &&& is_rule(all[end])
    &&& forall|k: int| 1 <= k < end ==> !is_rule(#[trigger] all[k])
}

pub proof fn lemma_block_end(all: Seq<Seq<char>>, from: int)
    requires
        1 <= from,
        forall|k: int| 1 <= k < from && k < all.len() ==> !is_rule(#[trigger] all[k]),
    ensures
        match closing_line(all, from) {
            Some(end) => is_block_end(all, end),
            None => forall|end: int| !is_block_end(all, end),
        },
    decreases all.len() - from,
{
    if from < all.len() {
        lemma_rule(all[from]);
        if !is_rule(all[from]) {
            lemma_block_end(all, from + 1);
        }
    }
}

/// A note is published where its first line and a later one are rules of hyphens, and the last line
/// between the first rule and the next that says anything of publishing says `true`; and nowhere
/// else.
pub proof fn law_publishing_takes_a_clear_yes(body: Seq<char>)
    ensures
        published(body) <==> lines(body).len() > 0 && is_rule(lines(body)[0]) && exists|
            end: int,
            j: int,
        | #[trigger] is_block_end(lines(body), end) && #[trigger] is_last_yes(lines(body), end, j),
{
    let all = lines(body);
    lemma_block_end(all, 1);
    if all.len() > 0 {
        lemma_rule(all[0]);
    }
    if let Some(end) = closing_line(all, 1) {
        lemma_flag(all, end);
        if publish_flag(all, end) {
            let j = choose|j: int| is_last_yes(all, end, j);
            assert(is_block_end(all, end) && is_last_yes(all, end, j));
        }
        if exists|e: int, j: int| #[trigger]
            is_block_end(all, e) && #[trigger] is_last_yes(all, e, j) {
            let (e, j) = choose|e: int, j: int| #[trigger]
                is_block_end(all, e) && #[trigger] is_last_yes(all, e, j);
            if e < end {
                assert(!is_rule(all[e]));
            }
            if end < e {
                assert(!is_rule(all[end]));
            }
            assert(is_last_yes(all, end, j));
        }
    }
}

} // verus!
