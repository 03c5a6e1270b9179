//! What open loops promise: their text with the lines that carry it on, and the heading they stand
//! under.

use vstd::prelude::*;

use crate::extract::{
    is_continuation, is_prose_line, item_open_at, law_loops_are_unchecked_boxes, loops_of,
    loops_upto, section_at, LoopModel,
};
use crate::patterns::{
    checkbox_mark, checkbox_text, header_text, is_bullet, is_checkbox, is_header,
};
use crate::text::{has_prefix, lines, trim};

verus! {

/// Whether line `i` carries on an item before it: it is prose, neither a heading nor a task item nor
/// a bullet item, is indented by two spaces or more, and is not blank.
pub open spec fn carries_on(all: Seq<Seq<char>>, i: int) -> bool {
    &&& is_prose_line(all, i)
    &&& !is_header(all[i])
    &&& !is_checkbox(all[i])
    &&& !is_bullet(all[i])
    &&& all[i].len() >= 2
    &&& all[i][0] == ' ' && all[i][1] == ' '
    &&& trim(all[i]).len() > 0
}

/// The text of the item on line `at`, carried on by the lines behind it up to line `end`.
pub open spec fn told(all: Seq<Seq<char>>, at: int, end: int) -> Seq<char>
    decreases end - at,
{
    if end <= at + 1 {
        checkbox_text(all[at])
    } else {
        told(all, at, end - 1) + " "@ + trim(all[end - 1])
    }
}

/// Whether the lines behind line `at` carry it on up to line `end` and no further.
pub open spec fn is_carried_to(all: Seq<Seq<char>>, at: int, end: int) -> bool {
    &&& at < end <= all.len()
    &&& forall|i: int| at < i < end ==> #[trigger] carries_on(all, i)
    &&& end < all.len() ==> !carries_on(all, end)
}

/// Up to where the lines behind line `at` carry it on, among the first `n` lines.
spec fn carried_to(all: Seq<Seq<char>>, at: int, n: int) -> int
    decreases n - at,
{
    if n <= at + 1 {
        at + 1
    } else {
        let before = carried_to(all, at, n - 1);
        if before == n - 1 && carries_on(all, n - 1) {
            n
        } else {
            before
        }
    }
}

proof fn lemma_carried_to(all: Seq<Seq<char>>, at: int, n: int)
    requires
        0 <= at < n <= all.len(),
    ensures
        at < carried_to(all, at, n) <= n,
        forall|i: int| at < i < carried_to(all, at, n) ==> #[trigger] carries_on(all, i),
        carried_to(all, at, n) < n ==> !carries_on(all, carried_to(all, at, n)),
    decreases n - at,
{
    if n > at + 1 {
        lemma_carried_to(all, at, n - 1);
    }
}

proof fn lemma_continuation(line: Seq<char>)
    ensures
        is_continuation(line) <==> line.len() >= 2 && line[0] == ' ' && line[1] == ' ' && trim(
            line,
        ).len() > 0 && !is_bullet(line),
{
    reveal_strlit("  ");
    if has_prefix(line, "  "@) {
        assert(line.take(2)[0] == "  "@[0] && line.take(2)[1] == "  "@[1]);
    }
    if line.len() >= 2 && line[0] == ' ' && line[1] == ' ' {
        assert(line.take(2) =~= "  "@);
    }
}

/// What is known of the loops among the first `n` lines.
spec fn loops_told(all: Seq<Seq<char>>, n: int) -> bool {
    let loops = loops_upto(all, n);
    &&& forall|k: int|
        0 <= k < loops.len() ==> {
            let at = (#[trigger] loops[k]).line;
            &&& 0 <= at < n
            &&& is_checkbox(all[at])
            &&& loops[k].text == told(all, at, carried_to(all, at, n))
            &&& loops[k].section == section_at(all, at)
        }
    &&& forall|k: int, l: int|
        0 <= k < l < loops.len() ==> (#[trigger] loops[k]).line < (#[trigger] loops[l]).line
    &&& item_open_at(all, n) ==> loops.len() > 0
    &&& loops.len() > 0 ==> (item_open_at(all, n) <==> carried_to(all, loops.last().line, n) == n)
}

proof fn lemma_stops(all: Seq<Seq<char>>, a: int, b: int, n: int)
    requires
        0 <= a < b < n <= all.len(),
        is_checkbox(all[b]),
    ensures
        carried_to(all, a, n) <= b,
{
    lemma_carried_to(all, a, n);
    if carried_to(all, a, n) > b {
        assert(carries_on(all, b));
    }
}

proof fn lemma_loops_told(all: Seq<Seq<char>>, n: int)
    requires
        0 <= n <= all.len(),
    ensures
        loops_told(all, n),
    decreases n,
{
    if n > 0 {
        lemma_loops_told(all, n - 1);
        reveal_strlit(" ");
        let rest = loops_upto(all, n - 1);
        let now = loops_upto(all, n);
        let line = all[n - 1];
        lemma_continuation(line);
        assert forall|k: int| 0 <= k < rest.len() implies (#[trigger] now[k]).line == rest[k].line
            && now[k].section == rest[k].section by {}
        assert forall|k: int| 0 <= k < rest.len() - 1 implies carried_to(
            all,
            (#[trigger] rest[k]).line,
            n,
        ) == carried_to(all, rest[k].line, n - 1) by {
            let last = rest.len() - 1;
            assert(rest[k].line < rest[last].line);
            lemma_stops(all, rest[k].line, rest[last].line, n - 1);
        }
        assert forall|k: int| 0 <= k < now.len() implies {
            let at = (#[trigger] now[k]).line;
            &&& 0 <= at < n
            &&& is_checkbox(all[at])
            &&& now[k].text == told(all, at, carried_to(all, at, n))
            &&& now[k].section == section_at(all, at)
        } by {
            if k < rest.len() {
                let at = rest[k].line;
                lemma_carried_to(all, at, n - 1);
                if k == rest.len() - 1 && carried_to(all, at, n) == n {
                    assert(carries_on(all, n - 1));
                    assert(item_open_at(all, n - 1));
                    assert(now[k].text =~= rest[k].text + " "@ + trim(line));
                } else {
                    assert(carried_to(all, at, n) == carried_to(all, at, n - 1));
                    if k == rest.len() - 1 {
                        assert(!(item_open_at(all, n - 1) && carries_on(all, n - 1)));
                    }
                    assert(now[k].text == rest[k].text);
                }
            }
        }
        assert forall|k: int, l: int| 0 <= k < l < now.len() implies (#[trigger] now[k]).line < (
        #[trigger] now[l]).line by {
            if l < rest.len() {
                assert(rest[k].line < rest[l].line);
            } else {
                assert(rest[k].line < n - 1);
            }
        }
        if now.len() > 0 {
            let at = now.last().line;
            if now.len() > rest.len() {
                assert(at == n - 1);
            } else {
                assert(at == rest.last().line);
                lemma_carried_to(all, at, n - 1);
            }
        }
    }
}

/// Whether line `h` is the heading that line `at` stands under: the last one above it that is prose.
pub open spec fn stands_under(all: Seq<Seq<char>>, at: int, h: int) -> bool {
    &&& 0 <= h < at
    &&& is_prose_line(all, h)
    &&& is_header(all[h])
    &&& forall|i: int|
        h < i < at && is_prose_line(all, i) ==> !is_header(#[trigger] all[i])
}

proof fn lemma_section(all: Seq<Seq<char>>, n: int)
    requires
        0 <= n <= all.len(),
    ensures
        match section_at(all, n) {
            Some(text) => exists|h: int| stands_under(all, n, h) && text == header_text(all[h]),
            None => forall|i: int|
                0 <= i < n && is_prose_line(all, i) ==> !is_header(#[trigger] all[i]),
        },
    decreases n,
{
    if n > 0 {
        lemma_section(all, n - 1);
        if is_prose_line(all, n - 1) && is_header(all[n - 1]) {
            assert(stands_under(all, n, n - 1));
        } else if let Some(text) = section_at(all, n - 1) {
            let less = n - 1;
            let h = choose|h: int| stands_under(all, less, h) && text == header_text(all[h]);
            assert(stands_under(all, n, h));
        }
    }
}

/// Whether a loop is told as its lines have it.
pub open spec fn is_told(all: Seq<Seq<char>>, item: LoopModel) -> bool {
    let at = item.line;
    &&& 0 <= at < all.len()
    &&& is_checkbox(all[at]) && checkbox_mark(all[at]) == ' '
    &&& exists|end: int| is_carried_to(all, at, end) && item.text == told(all, at, end)
    &&& match item.section {
        Some(text) => exists|h: int| stands_under(all, at, h) && text == header_text(all[h]),
        None => forall|i: int|
            0 <= i < at && is_prose_line(all, i) ==> !is_header(#[trigger] all[i]),
    }
}

/// Every open loop is told as its lines have it: its text is that of an unchecked box and of all
/// lines that carry it on, joined by spaces, and its section is the heading that it stands under.
/// The loops come in the order of their lines.
pub proof fn law_loops_are_told_as_written(body: Seq<char>)
    ensures
        forall|k: int|
            0 <= k < loops_of(body).len() ==> is_told(lines(body), #[trigger] loops_of(body)[k]),
        forall|k: int, l: int|
            0 <= k < l < loops_of(body).len() ==> (#[trigger] loops_of(body)[k]).line < (
            #[trigger] loops_of(body)[l]).line,
{
    let all = lines(body);
    let n = all.len() as int;
    lemma_loops_told(all, n);
    law_loops_are_unchecked_boxes(body, n);
    assert forall|k: int| 0 <= k < loops_of(body).len() implies is_told(
        all,
        #[trigger] loops_of(body)[k],
    ) by {
        let item = loops_of(body)[k];
        assert(loops_upto(all, n)[k] == item);
        let at = item.line;
        let end = carried_to(all, at, n);
        lemma_carried_to(all, at, n);
        assert(is_carried_to(all, at, end) && item.text == told(all, at, end));
        lemma_section(all, at);
    }
}

} // verus!
