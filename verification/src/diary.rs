//! What writing to notes promises: where a log entry goes and what it says, and what marking a loop
//! done changes.

use vstd::prelude::*;

use crate::capture::{
    box_place, closed_line, done_in, done_upto, filled_end, is_log_heading,
    law_done_closes_the_loop, lemma_box_place, lemma_closed_item, lemma_entry, lemma_last_line,
    lemma_log_end, lemma_log_line, lemma_loop_lines, lemma_loop_with_text, lemma_next_section,
    log_entry, log_line, logged, loop_with_text, next_section, starts_section, stray_return,
    NoteTextModel,
};
use crate::extract::{
    is_prose_line, is_word, law_loops_are_unchecked_boxes, loops_of, loops_upto, LoopModel,
};
use crate::patterns::{checkbox_mark, is_checkbox, is_header};
use crate::text::{
    flat, is_white, joined, lead_len, lemma_lead_len, lemma_lines_have_no_newline,
    lemma_segments_at, lemma_segments_concat, lemma_tail_len_unique, lines, segments, trim,
    trimmed_end, without_ending, CharClass,
};
use crate::words::makes_words;
use crate::wording::is_blank;

verus! {

/// Whether a line is the heading of a log section: it starts with `## Log`, and no longer word does.
pub open spec fn is_log_title(line: Seq<char>) -> bool {
    &&& line.len() >= 6
    &&& line.take(6) == "## Log"@
    &&& line.len() > 6 ==> !makes_words(line[6])
}

/// Whether line `i` is a heading of the first or second level, and prose.
pub open spec fn opens_section(all: Seq<Seq<char>>, i: int) -> bool {
    &&& is_prose_line(all, i)
    &&& is_header(all[i])
    &&& !(all[i].len() >= 3 && all[i][0] == '#' && all[i][1] == '#' && all[i][2] == '#')
}

/// Whether line `l` is the first heading of a log section.
pub open spec fn is_first_title(all: Seq<Seq<char>>, l: int) -> bool {
    &&& 0 <= l < all.len()
    &&& is_log_title(all[l])
    &&& forall|i: int| 0 <= i < l ==> !is_log_title(#[trigger] all[i])
}

/// Whether line `e` is the first behind line `l` that opens a section.
pub open spec fn is_next_opening(all: Seq<Seq<char>>, l: int, e: int) -> bool {
    &&& l < e < all.len()
    &&& opens_section(all, e)
    &&& forall|i: int| l < i < e ==> !#[trigger] opens_section(all, i)
}

/// Whether the end of the log section that is opened by line `l` and followed by the section of line
/// `e` is line `p`: what stands between them from there on is blank.
pub open spec fn is_section_end(all: Seq<Seq<char>>, l: int, e: int, p: int) -> bool {
    &&& l < p <= e
    &&& forall|i: int| p <= i < e ==> trim(#[trigger] all[i]).len() == 0
    &&& p == l + 1 || trim(all[p - 1]).len() > 0
}

proof fn lemma_title(line: Seq<char>)
    ensures
        is_log_heading(line) <==> is_log_title(line),
{
    reveal_strlit("## Log");
    if line.len() > 6 {
        assert(is_word(line[6]) == makes_words(line[6]));
    }
}

proof fn lemma_opens(all: Seq<Seq<char>>, i: int)
    ensures
        starts_section(all, i) <==> opens_section(all, i),
{
    let line = all[i];
    let class = CharClass::Hash;
    lemma_lead_len(line, class);
    let n = lead_len(line, class);
    if n >= 3 {
        assert(class.holds(line[0]) && class.holds(line[1]) && class.holds(line[2]));
    } else if line.len() >= 3 && line[0] == '#' && line[1] == '#' && line[2] == '#' {
        assert(class.holds(line[n as int]));
    }
}

proof fn lemma_section_end(all: Seq<Seq<char>>, l: int, e: int, to: int)
    requires
        l < to <= e,
        forall|i: int| to <= i < e ==> trim(#[trigger] all[i]).len() == 0,
    ensures
        is_section_end(all, l, e, filled_end(all, l + 1, to)),
    decreases to - l,
{
    if to > l + 1 && trim(all[to - 1]).len() == 0 {
        lemma_section_end(all, l, e, to - 1);
    }
}

/// The lines of the entry.
proof fn lemma_entry_line(time: Seq<char>, text: Seq<char>)
    requires
        !time.contains('\n'),
        !text.contains('\n'),
        text.len() > 0 && text.last() != '\r',
    ensures
        lines(log_entry(time, text).push('\n')) == seq!["- "@ + time + " "@ + text],
{
    lemma_entry(time, text);
    let entry = log_entry(time, text);
    assert(entry.last() == text.last());
    assert(without_ending(entry.push('\n')) =~= entry);
}

/// Where another section follows the log section, an entry of one line becomes one more line at the
/// end of the log section, before the blank lines there; all other lines stay as they are.
pub proof fn law_entry_goes_to_the_end_of_the_log(
    existing: Seq<char>,
    time: Seq<char>,
    text: Seq<char>,
    l: int,
    e: int,
)
    requires
        !time.contains('\n'),
        !text.contains('\n'),
        text.len() > 0 && text.last() != '\r',
        is_first_title(lines(existing), l),
        is_next_opening(lines(existing), l, e),
    ensures
        exists|p: int|
            is_section_end(lines(existing), l, e, p) && lines(logged(existing, time, text))
                == lines(existing).take(p) + seq!["- "@ + time + " "@ + text]
                + lines(existing).skip(p),
{
    let all = lines(existing);
    lemma_log_line(all, 0);
    lemma_title(all[l]);
    let found = log_line(all, 0)->0;
    if found < l {
        lemma_title(all[found]);
        assert(!is_log_title(all[found]));
    }
    if l < found {
        assert(!is_log_heading(all[l]));
    }
    lemma_next_section(all, l + 1);
    lemma_opens(all, e);
    let next = next_section(all, l + 1)->0;
    if next_section(all, l + 1) is None {
        assert(!starts_section(all, e));
    }
    lemma_opens(all, next);
    if next < e {
        assert(!opens_section(all, next));
    }
    if e < next {
        assert(!starts_section(all, e));
    }
    let p = filled_end(all, l + 1, e);
    lemma_section_end(all, l, e, e);
    lemma_log_end(all);
    lemma_segments_at(existing, p);
    let before = flat(segments(existing).take(p));
    let behind = flat(segments(existing).skip(p));
    let entry = log_entry(time, text);
    reveal_strlit("\n");
    assert(entry + "\n"@ =~= entry.push('\n'));
    lemma_entry_line(time, text);
    assert(logged(existing, time, text) =~= before + (entry.push('\n') + behind));
    lemma_segments_concat(entry.push('\n'), behind);
    lemma_segments_concat(before, entry.push('\n') + behind);
    assert(lines(logged(existing, time, text)) =~= all.take(p) + seq!["- "@ + time + " "@ + text]
        + all.skip(p));
}

/// Where no section follows a log section, or there is none, the entry becomes the last line of the
/// note: behind its text without the white space at its end, and behind a heading of a log section
/// where there was none.
pub proof fn law_entry_goes_to_the_end_of_the_note(
    existing: Seq<char>,
    time: Seq<char>,
    text: Seq<char>,
    bare: Seq<char>,
    white: Seq<char>,
)
    requires
        existing == bare + white,
        is_blank(white),
        bare.len() > 0 ==> !is_white(bare.last()),
        forall|l: int, e: int|
            !(is_first_title(lines(existing), l) && #[trigger] is_next_opening(
                lines(existing),
                l,
                e,
            )),
    ensures
        (exists|l: int| is_first_title(lines(existing), l)) ==> logged(existing, time, text) == bare
            + "\n"@ + ("- "@ + time + " "@ + text) + "\n"@,
        (forall|l: int| !is_first_title(lines(existing), l)) ==> logged(existing, time, text)
            == bare + "\n\n## Log"@ + "\n"@ + ("- "@ + time + " "@ + text) + "\n"@,
{
    let all = lines(existing);
    let class = CharClass::White;
    assert forall|i: int| existing.len() - white.len() <= i < existing.len() implies class.holds(
        #[trigger] existing[i],
    ) by {
        assert(existing[i] == white[i - bare.len()]);
    }
    if bare.len() > 0 {
        assert(existing[existing.len() - white.len() - 1] == bare.last());
    }
    lemma_tail_len_unique(existing, class, white.len());
    assert(trimmed_end(existing, class) =~= bare);
    lemma_log_line(all, 0);
    match log_line(all, 0) {
        Some(l) => {
            lemma_title(all[l]);
            assert forall|i: int| 0 <= i < l implies !is_log_title(#[trigger] all[i]) by {
                lemma_title(all[i]);
                assert(!is_log_heading(all[i]));
            }
            assert(is_first_title(all, l));
            lemma_next_section(all, l + 1);
            if let Some(e) = next_section(all, l + 1) {
                lemma_opens(all, e);
                assert forall|i: int| l < i < e implies !#[trigger] opens_section(all, i) by {
                    lemma_opens(all, i);
                    assert(!starts_section(all, i));
                }
                assert(is_next_opening(all, l, e));
            }
        },
        None => {
            assert forall|l: int| !is_first_title(all, l) by {
                if 0 <= l < all.len() {
                    lemma_title(all[l]);
                    assert(!is_log_heading(all[l]));
                }
            }
        },
    }
}

/// Whether loop `k` is the first with a text.
pub open spec fn is_first_with(loops: Seq<LoopModel>, text: Seq<char>, k: int) -> bool {
    &&& 0 <= k < loops.len()
    &&& loops[k].text == text
    &&& forall|i: int| 0 <= i < k ==> (#[trigger] loops[i]).text != text
}

proof fn lemma_first_with(loops: Seq<LoopModel>, text: Seq<char>, from: int)
    requires
        0 <= from,
        forall|i: int| 0 <= i < from && i < loops.len() ==> (#[trigger] loops[i]).text != text,
    ensures
        match loop_with_text(loops, text, from) {
            Some(k) => is_first_with(loops, text, k),
            None => forall|i: int| 0 <= i < loops.len() ==> (#[trigger] loops[i]).text != text,
        },
    decreases loops.len() - from,
{
    if from < loops.len() && loops[from].text != text {
        lemma_first_with(loops, text, from + 1);
    }
}

/// Whether a line is another with the space in its box turned into an `x`.
pub open spec fn is_checked_off(old_line: Seq<char>, new_line: Seq<char>) -> bool {
    exists|i: int|
        0 < i < old_line.len() - 1 && #[trigger] old_line[i] == ' ' && old_line[i - 1] == '['
            && old_line[i + 1] == ']' && new_line == old_line.update(i, 'x')
}

/// Marking a loop done checks off the line of the first loop with the text and changes no other
/// line. That loop is no longer open and all others still are. Nothing is done only where no open
/// loop has the text.
pub proof fn law_done_checks_off_the_first_loop(body: Seq<char>, text: Seq<char>)
    ensures
        done_in(body, text) is None <==> forall|k: int|
            0 <= k < loops_of(body).len() ==> (#[trigger] loops_of(body)[k]).text != text,
        !stray_return(body) ==> (done_in(body, text) matches Some(done) ==> exists|k: int|
            #![trigger loops_of(body)[k]]
            is_first_with(loops_of(body), text, k) && loops_of(done) == loops_of(body).remove(k) && {
                let at = loops_of(body)[k].line;
                &&& 0 <= at < lines(body).len()
                &&& lines(done).len() == lines(body).len()
                &&& is_checked_off(lines(body)[at], lines(done)[at])
                &&& forall|i: int|
                    0 <= i < lines(body).len() && i != at ==> #[trigger] lines(done)[i] == lines(
                        body,
                    )[i]
            }),
{
    let loops = loops_of(body);
    let all = lines(body);
    lemma_first_with(loops, text, 0);
    if let Some(done) = done_in(body, text) {
        let k = loop_with_text(loops, text, 0)->0;
        assert(is_first_with(loops, text, k));
        if !stray_return(body) {
            law_done_closes_the_loop(body, text);
            law_loops_are_unchecked_boxes(body, all.len() as int);
            assert(loops_upto(all, all.len() as int)[k] == loops[k]);
            let at = loops[k].line;
            let line = all[at];
            assert(is_checkbox(line) && checkbox_mark(line) == ' ');
            lemma_closed_item(line);
            lemma_box_place(line);
            let b = box_place(line);
            let rest = line.skip(b);
            assert(rest[0] == line[b] && rest[1] == line[b + 1] && rest[2] == line[b + 2]);
            assert(line[b + 1] == ' ');
            assert(is_checked_off(line, closed_line(line)));
            assert(loops_of(body)[k].text == text);
        }
    }
}

/// Marking a loop done leaves the end of the note as it is: it ends in a line feed where it did.
pub proof fn law_done_keeps_the_end(body: Seq<char>, text: Seq<char>)
    requires
        done_in(body, text) is Some,
        !stray_return(body),
    ensures
        ({
            let done = done_in(body, text)->0;
            body.len() > 0 && done.len() > 0 && (done.last() == '\n' <==> body.last() == '\n')
        }),
{
    let loops = loops_of(body);
    let all = lines(body);
    let k = loop_with_text(loops, text, 0)->0;
    lemma_loop_with_text(loops, text, 0);
    lemma_loop_lines(all, all.len() as int);
    let t = loops[k].line;
    lemma_closed_item(all[t]);
    lemma_box_place(all[t]);
    let done = all.update(t, closed_line(all[t]));
    assert(body.len() > 0) by {
        if body.len() == 0 {
            assert(segments(body) =~= Seq::<Seq<char>>::empty());
        }
    }
    lemma_last_line(body);
    lemma_lines_have_no_newline(body);
    reveal_strlit("\n");
    if body.last() != '\n' {
        assert(without_ending(segments(body).last()) == segments(body).last());
        assert(all.last() == segments(body).last());
        let last = done.last();
        assert(last.len() > 0 && last.last() != '\n') by {
            if t == all.len() - 1 {
                assert(last.last() == all[t].last());
            }
        }
        assert(joined(done, "\n"@).last() == last.last());
    }
}

/// Whether an entry is note `n` with the loop done.
pub open spec fn is_done_note(
    notes: Seq<NoteTextModel>,
    text: Seq<char>,
    item: NoteTextModel,
    n: int,
) -> bool {
    &&& 0 <= n < notes.len()
    &&& item.path == notes[n].path
    &&& done_in(notes[n].body, text) == Some(item.body)
}

/// Marking a loop done gives the notes that hold it, in their order, each with its path and its new
/// text, and no others.
pub proof fn law_done_reaches_every_note(notes: Seq<NoteTextModel>, text: Seq<char>, n: int) -> (
    places: Seq<int>)
    requires
        0 <= n <= notes.len(),
    ensures
        places.len() == done_upto(notes, text, n).len(),
        forall|k: int|
            0 <= k < places.len() ==> #[trigger] places[k] < n && is_done_note(
                notes,
                text,
                done_upto(notes, text, n)[k],
                places[k],
            ),
        forall|k: int, l: int|
            0 <= k < l < places.len() ==> #[trigger] places[k] < #[trigger] places[l],
        forall|i: int|
            0 <= i < n && (exists|k: int|
                0 <= k < loops_of(notes[i].body).len() && loops_of(
                    (#[trigger] notes[i]).body,
                )[k].text == text) ==> places.contains(i),
    decreases n,
{
    if n <= 0 {
        Seq::empty()
    } else {
        let rest = law_done_reaches_every_note(notes, text, n - 1);
        let loops = loops_of(notes[n - 1].body);
        lemma_first_with(loops, text, 0);
        if done_in(notes[n - 1].body, text) is Some {
            let places = rest.push(n - 1);
            let all = done_upto(notes, text, n);
            assert forall|k: int| 0 <= k < places.len() implies #[trigger] places[k] < n
                && is_done_note(notes, text, all[k], places[k]) by {
                if k < rest.len() {
                    assert(places[k] == rest[k]);
                }
            }
            assert forall|i: int|
                0 <= i < n && (exists|k: int|
                    0 <= k < loops_of(notes[i].body).len() && loops_of(
                        (#[trigger] notes[i]).body,
                    )[k].text == text) implies places.contains(i) by {
                if i < n - 1 {
                    assert(rest.contains(i));
                    let k = choose|k: int| 0 <= k < rest.len() && rest[k] == i;
                    assert(places[k] == i);
                } else {
                    assert(places[rest.len() as int] == i);
                }
            }
            places
        } else {
            rest
        }
    }
}

} // verus!
