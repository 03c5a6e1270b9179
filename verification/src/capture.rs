//! Writing to source notes: the log of the day, and closing an open loop. Files stay the source of
//! truth; the index is rebuilt afterwards.

use vstd::prelude::*;

use crate::config::{expand_tilde, expanded, Config};
use crate::extract::{
    extract_loops, fence_line, fenced_at, is_continuation, is_fence, is_prose_line, is_word,
    is_word_char, item_open_at, loops_of, loops_upto, section_at, with_continuation, Loop,
    LoopModel,
};
use crate::patterns::{
    behind_bullet, captures_per_line, checkbox_mark, is_checkbox, is_header, line_captures, HEADER,
};
use crate::status::text_option;
use crate::text::{
    cat3, chars_of, find_from, find_text, flat, has_prefix, is_white, join_texts, joined, lead_len,
    lead_run, lemma_find_from, lemma_lead_len, lemma_lead_len_unique, lemma_lines_have_no_newline,
    lemma_one_line, lemma_place_of, lemma_place_of_unique, lemma_segments_at, lemma_segments_concat,
    lemma_tail_len, lines, lines_of, occurs_at, part_of, place_of, same_text, segments, segments_of,
    starts_with, text_of, trim, trim_end_of, trim_text, trimmed_end, trimmed_start, without_ending,
    CharClass,
};

verus! {

/// The path template of the daily note with the home directory filled in.
pub fn daily_template(config: &Config, home: Option<&str>) -> (r: Result<String, &'static str>)
    ensures
        match config.daily_note {
            Some(template) => r matches Ok(path) && path@ == expanded(template@, text_option(home)),
            None => r matches Err(e) && e@
                == "no daily_note in config; set e.g. daily_note = \"~/notes/%Y/%Y-%m-%d.md\""@,
        },
{
    match &config.daily_note {
        Some(template) => Ok(expand_tilde(template, home)),
        None => Err("no daily_note in config; set e.g. daily_note = \"~/notes/%Y/%Y-%m-%d.md\""),
    }
}

/// Whether a line is the heading of a log section.
pub open spec fn is_log_heading(line: Seq<char>) -> bool {
    has_prefix(line, "## Log"@) && (line.len() > 6 ==> !is_word(line[6]))
}

/// The first heading of a log section at or behind line `from`.
pub open spec fn log_line(lines: Seq<Seq<char>>, from: int) -> Option<int>
    decreases lines.len() - from,
{
    if from < 0 || from >= lines.len() {
        None
    } else if is_log_heading(lines[from]) {
        Some(from)
    } else {
        log_line(lines, from + 1)
    }
}

/// Whether a note has a log section.
pub open spec fn has_log(text: Seq<char>) -> bool {
    log_line(lines(text), 0) is Some
}

/// Whether line `i` is a heading of level 1 or 2, outside fenced blocks.
pub open spec fn starts_section(lines: Seq<Seq<char>>, i: int) -> bool {
    is_prose_line(lines, i) && is_header(lines[i]) && lead_len(lines[i], CharClass::Hash) <= 2
}

/// The first line at or behind `from` that starts a section.
pub open spec fn next_section(lines: Seq<Seq<char>>, from: int) -> Option<int>
    decreases lines.len() - from,
{
    if from < 0 || from >= lines.len() {
        None
    } else if starts_section(lines, from) {
        Some(from)
    } else {
        next_section(lines, from + 1)
    }
}

/// The place behind the last line from `from` up to `to` that is not blank.
pub open spec fn filled_end(lines: Seq<Seq<char>>, from: int, to: int) -> int
    decreases to - from,
{
    if to <= from {
        from
    } else if trim(lines[to - 1]).len() > 0 {
        to
    } else {
        filled_end(lines, from, to - 1)
    }
}

/// Where a new entry goes when another section follows the log section: behind the last line of
/// the log section that is not blank.
pub open spec fn log_end(lines: Seq<Seq<char>>) -> Option<int> {
    match log_line(lines, 0) {
        None => None,
        Some(l) => match next_section(lines, l + 1) {
            None => None,
            Some(e) => Some(filled_end(lines, l + 1, e)),
        },
    }
}

/// A log entry, without its line ending.
pub open spec fn log_entry(time: Seq<char>, text: Seq<char>) -> Seq<char> {
    "- "@ + time + " "@ + text
}

/// What stands before a new entry at the end of a note: the text without trailing white space, and
/// the heading of the log section where there was none.
pub open spec fn log_head(existing: Seq<char>) -> Seq<char> {
    let bare = trimmed_end(existing, CharClass::White);
    if has_log(existing) {
        bare
    } else {
        bare + "\n\n## Log"@
    }
}

/// A note with an entry added to its log section: before the section that follows it, else at the
/// end of the note.
pub open spec fn logged(existing: Seq<char>, time: Seq<char>, text: Seq<char>) -> Seq<char> {
    match log_end(lines(existing)) {
        Some(p) => flat(segments(existing).take(p)) + log_entry(time, text) + "\n"@ + flat(
            segments(existing).skip(p),
        ),
        None => log_head(existing) + "\n"@ + log_entry(time, text) + "\n"@,
    }
}

/// The text of a daily note that is new.
pub open spec fn new_note(date: Seq<char>) -> Seq<char> {
    "# "@ + date + "\n"@
}

fn log_heading(line: &str) -> (r: bool)
    ensures
        r == is_log_heading(line@),
{
    if !starts_with(line, "## Log") {
        return false;
    }
    let chars = chars_of(line);
    chars.len() <= 6 || !is_word_char(chars[6])
}

fn find_log(lines: &Vec<String>) -> (r: Option<usize>)
    ensures
        match r {
            Some(l) => log_line(lines.deep_view(), 0) == Some(l as int) && l < lines@.len(),
            None => log_line(lines.deep_view(), 0) is None,
        },
{
    let ghost all = lines.deep_view();
    let mut i: usize = 0;
    while i < lines.len()
        invariant
            all == lines.deep_view(),
            i <= all.len(),
            log_line(all, 0) == log_line(all, i as int),
        decreases all.len() - i,
    {
        assert(all[i as int] == lines@[i as int]@);
        if log_heading(&lines[i]) {
            return Some(i);
        }
        i += 1;
    }
    None
}

fn find_section(lines: &Vec<String>, from: usize) -> (r: Option<usize>)
    requires
        forall|i: int| 0 <= i < lines@.len() ==> !(#[trigger] lines.deep_view()[i]).contains('\n'),
    ensures
        match r {
            Some(e) => next_section(lines.deep_view(), from as int) == Some(e as int) && from <= e
                < lines@.len(),
            None => next_section(lines.deep_view(), from as int) is None,
        },
{
    let ghost all = lines.deep_view();
    assert forall|i: int| 0 <= i < lines@.len() implies !(#[trigger] lines@[i])@.contains('\n') by {
        assert(!all[i].contains('\n'));
    }
    let headers = captures_per_line(HEADER, lines);
    let mut in_fence = false;
    let mut i: usize = 0;
    while i < lines.len()
        invariant
            all == lines.deep_view(),
            headers@.len() == all.len(),
            forall|k: int|
                0 <= k < all.len() ==> line_captures(
                    HEADER@,
                    all[k],
                    (#[trigger] headers@[k]).deep_view(),
                ),
            i <= all.len(),
            in_fence == fenced_at(all, i as int),
            next_section(all, from as int) == next_section(
                all,
                if i < from {
                    from as int
                } else {
                    i as int
                },
            ),
        decreases all.len() - i,
    {
        assert(all[i as int] == lines@[i as int]@);
        if fence_line(&lines[i]) {
            in_fence = !in_fence;
        } else if i >= from && !in_fence && headers[i].is_some() {
            assert(headers@[i as int].deep_view() is Some);
            if lead_run(&chars_of(&lines[i]), CharClass::Hash) <= 2 {
                return Some(i);
            }
        } else {
            assert(headers@[i as int] is None ==> headers@[i as int].deep_view() is None);
        }
        i += 1;
    }
    None
}

fn find_filled_end(lines: &Vec<String>, from: usize, to: usize) -> (r: usize)
    requires
        from <= to <= lines@.len(),
    ensures
        r == filled_end(lines.deep_view(), from as int, to as int),
        from <= r <= to,
{
    let ghost all = lines.deep_view();
    let mut n: usize = to;
    while n > from
        invariant
            all == lines.deep_view(),
            from <= n <= to <= all.len(),
            filled_end(all, from as int, to as int) == filled_end(all, from as int, n as int),
        decreases n,
    {
        assert(all[n - 1] == lines@[n - 1]@);
        if !trim_text(&lines[n - 1]).as_str().is_empty() {
            return n;
        }
        n = n - 1;
    }
    n
}

fn put_together(pieces: &Vec<String>, from: usize, to: usize) -> (r: String)
    requires
        from <= to <= pieces@.len(),
    ensures
        r@ == flat(pieces.deep_view().subrange(from as int, to as int)),
{
    let ghost all = pieces.deep_view();
    let mut out = String::new();
    let mut i: usize = from;
    assert(all.subrange(from as int, from as int) =~= Seq::<Seq<char>>::empty());
    assert(out@ =~= Seq::<char>::empty());
    while i < to
        invariant
            all == pieces.deep_view(),
            from <= i <= to <= all.len(),
            out@ == flat(all.subrange(from as int, i as int)),
        decreases to - i,
    {
        assert(all[i as int] == pieces@[i as int]@);
        assert(all.subrange(from as int, i + 1).drop_last() =~= all.subrange(from as int, i as int));
        out.append(&pieces[i]);
        i += 1;
    }
    out
}

/// The daily note with a timestamped entry appended under a `## Log` section, which is put at the
/// end of the note where there is none. `existing` is its text where the note is there already;
/// `date` and `time` are those of the entry.
pub fn append_log(existing: Option<&str>, date: &str, time: &str, text: &str) -> (r: String)
    ensures
        r@ == logged(
            match existing {
                Some(body) => body@,
                None => new_note(date@),
            },
            time@,
            text@,
        ),
{
    let body = match existing {
        Some(body) => body.to_owned(),
        None => cat3("# ", date, "\n"),
    };
    let all_lines = lines_of(&body);
    proof {
        lemma_lines_have_no_newline(body@);
    }
    let found = find_log(&all_lines);
    let mut entry = "- ".to_owned();
    entry.append(time);
    entry.append(" ");
    entry.append(text);
    if let Some(l) = found {
        if let Some(e) = find_section(&all_lines, l + 1) {
            let p = find_filled_end(&all_lines, l + 1, e);
            let pieces = segments_of(&chars_of(&body));
            let n = pieces.len();
            let ghost all = pieces.deep_view();
            assert(all.len() == all_lines.deep_view().len());
            let mut out = put_together(&pieces, 0, p);
            let rest = put_together(&pieces, p, n);
            assert(all.subrange(0, p as int) =~= all.take(p as int));
            assert(all.subrange(p as int, n as int) =~= all.skip(p as int));
            out.append(&entry);
            out.append("\n");
            out.append(&rest);
            return out;
        }
    }
    let mut out = text_of(&trim_end_of(&chars_of(&body), CharClass::White));
    if found.is_none() {
        out.append("\n\n## Log");
    }
    out.append("\n");
    out.append(&entry);
    out.append("\n");
    out
}

pub proof fn lemma_log_line(lines: Seq<Seq<char>>, from: int)
    requires
        0 <= from,
    ensures
        match log_line(lines, from) {
            Some(l) => from <= l < lines.len() && is_log_heading(lines[l]) && forall|i: int|
                from <= i < l ==> !is_log_heading(#[trigger] lines[i]),
            None => forall|i: int|
                from <= i < lines.len() ==> !is_log_heading(#[trigger] lines[i]),
        },
    decreases lines.len() - from,
{
    if from < lines.len() && !is_log_heading(lines[from]) {
        lemma_log_line(lines, from + 1);
    }
}

proof fn lemma_log_line_unique(lines: Seq<Seq<char>>, l: int)
    requires
        0 <= l < lines.len(),
        is_log_heading(lines[l]),
        forall|i: int| 0 <= i < l ==> !is_log_heading(#[trigger] lines[i]),
    ensures
        log_line(lines, 0) == Some(l),
{
    lemma_log_line(lines, 0);
    let k = log_line(lines, 0)->0;
    if k < l {
        assert(!is_log_heading(lines[k]));
    }
}

pub proof fn lemma_next_section(lines: Seq<Seq<char>>, from: int)
    requires
        0 <= from,
    ensures
        match next_section(lines, from) {
            Some(e) => from <= e < lines.len() && starts_section(lines, e) && forall|i: int|
                from <= i < e ==> !#[trigger] starts_section(lines, i),
            None => forall|i: int|
                from <= i < lines.len() ==> !#[trigger] starts_section(lines, i),
        },
    decreases lines.len() - from,
{
    if from < lines.len() && !starts_section(lines, from) {
        lemma_next_section(lines, from + 1);
    }
}

proof fn lemma_filled_end(lines: Seq<Seq<char>>, from: int, to: int)
    requires
        from <= to,
    ensures
        from <= filled_end(lines, from, to) <= to,
    decreases to - from,
{
    if from < to {
        lemma_filled_end(lines, from, to - 1);
    }
}

/// Where the entry is put when another section follows, that place lies within the note.
pub proof fn lemma_log_end(lines: Seq<Seq<char>>)
    ensures
        log_end(lines) matches Some(p) ==> {
            let l = log_line(lines, 0)->0;
            &&& log_line(lines, 0) is Some
            &&& 0 <= l < p < lines.len()
            &&& forall|i: int| l < i < p ==> !#[trigger] starts_section(lines, i)
        },
{
    lemma_log_line(lines, 0);
    if let Some(l) = log_line(lines, 0) {
        lemma_next_section(lines, l + 1);
        if let Some(e) = next_section(lines, l + 1) {
            lemma_filled_end(lines, l + 1, e);
        }
    }
}

/// Logging keeps the note: its lines stand unchanged round the new entry where another section
/// follows the log section, and else its text, but for trailing white space, stands unchanged
/// before it.
pub proof fn law_log_keeps_the_note(existing: Seq<char>, time: Seq<char>, text: Seq<char>)
    ensures
        match log_end(lines(existing)) {
            Some(p) => {
                let before = flat(segments(existing).take(p));
                let behind = flat(segments(existing).skip(p));
                &&& before + behind == existing
                &&& lines(before) == lines(existing).take(p)
                &&& lines(behind) == lines(existing).skip(p)
                &&& logged(existing, time, text) == before + log_entry(time, text) + "\n"@ + behind
            },
            None => has_prefix(
                logged(existing, time, text),
                trimmed_end(existing, CharClass::White),
            ),
        },
{
    lemma_log_end(lines(existing));
    match log_end(lines(existing)) {
        Some(p) => {
            lemma_segments_at(existing, p);
        },
        None => {
            lemma_tail_len(existing, CharClass::White);
            let bare = trimmed_end(existing, CharClass::White);
            assert(logged(existing, time, text).take(bare.len() as int) =~= bare);
        },
    }
}

/// How many of the lines are headings of a log section.
pub open spec fn log_count(lines: Seq<Seq<char>>) -> nat
    decreases lines.len(),
{
    if lines.len() == 0 {
        0
    } else {
        log_count(lines.drop_last()) + if is_log_heading(lines.last()) {
            1nat
        } else {
            0
        }
    }
}

proof fn lemma_log_count_concat(a: Seq<Seq<char>>, b: Seq<Seq<char>>)
    ensures
        log_count(a + b) == log_count(a) + log_count(b),
    decreases b.len(),
{
    if b.len() == 0 {
        assert(a + b =~= a);
    } else {
        lemma_log_count_concat(a, b.drop_last());
        assert((a + b).drop_last() =~= a + b.drop_last());
    }
}

proof fn lemma_log_count_same(a: Seq<Seq<char>>, b: Seq<Seq<char>>)
    requires
        a.len() == b.len(),
        forall|i: int| 0 <= i < a.len() ==> is_log_heading(#[trigger] a[i]) == is_log_heading(b[i]),
    ensures
        log_count(a) == log_count(b),
    decreases a.len(),
{
    if a.len() > 0 {
        assert(is_log_heading(a[a.len() - 1]) == is_log_heading(b[b.len() - 1]));
        lemma_log_count_same(a.drop_last(), b.drop_last());
    }
}

proof fn lemma_log_count_none(a: Seq<Seq<char>>)
    requires
        forall|i: int| 0 <= i < a.len() ==> !is_log_heading(#[trigger] a[i]),
    ensures
        log_count(a) == 0,
    decreases a.len(),
{
    if a.len() > 0 {
        assert(!is_log_heading(a[a.len() - 1]));
        lemma_log_count_none(a.drop_last());
    }
}

/// Whether all characters are white space.
spec fn all_white(s: Seq<char>) -> bool {
    forall|i: int| 0 <= i < s.len() ==> is_white(#[trigger] s[i])
}

/// Whether a line is another one with white space behind it.
spec fn padded(short: Seq<char>, long: Seq<char>) -> bool {
    &&& 0 < short.len() <= long.len()
    &&& !is_white(short.last())
    &&& forall|j: int| 0 <= j < short.len() ==> long[j] == #[trigger] short[j]
    &&& forall|j: int| short.len() <= j < long.len() ==> is_white(#[trigger] long[j])
}

proof fn lemma_white_lines(s: Seq<char>)
    requires
        all_white(s),
    ensures
        forall|i: int| 0 <= i < lines(s).len() ==> all_white(#[trigger] lines(s)[i]),
    decreases s.len(),
{
    lemma_place_of(s, '\n');
    let n = place_of(s, '\n') as int;
    if s.len() > 0 {
        if n < s.len() {
            let rest = s.skip(n + 1);
            assert(all_white(rest)) by {
                assert forall|i: int| 0 <= i < rest.len() implies is_white(#[trigger] rest[i]) by {
                    assert(rest[i] == s[n + 1 + i]);
                }
            }
            lemma_white_lines(rest);
            assert forall|i: int| 0 <= i < lines(s).len() implies all_white(
                #[trigger] lines(s)[i],
            ) by {
                if i == 0 {
                    assert(segments(s)[0] == s.take(n + 1));
                    assert forall|j: int| 0 <= j < lines(s)[0].len() implies is_white(
                        #[trigger] lines(s)[0][j],
                    ) by {
                        assert(lines(s)[0][j] == s[j]);
                    }
                } else {
                    assert(segments(s)[i] == segments(rest)[i - 1]);
                    assert(lines(s)[i] == lines(rest)[i - 1]);
                }
            }
        } else {
            assert(segments(s) == seq![s]);
            assert(without_ending(s) == s) by {
                if s.last() == '\n' {
                    assert(s[s.len() - 1] != '\n');
                }
            }
            assert(lines(s)[0] == s);
        }
    }
}

/// The lines of a text with its trailing white space cut off: the last one loses white space, and
/// blank lines behind it are gone.
proof fn lemma_trimmed_lines(bare: Seq<char>, white: Seq<char>)
    requires
        bare.len() > 0,
        !is_white(bare.last()),
        all_white(white),
    ensures
        ({
            let a = lines(bare.push('\n'));
            let b = lines(bare + white);
            &&& 0 < a.len() <= b.len()
            &&& forall|i: int| 0 <= i < a.len() - 1 ==> #[trigger] a[i] == b[i]
            &&& padded(a[a.len() - 1], b[a.len() - 1])
            &&& forall|i: int| a.len() <= i < b.len() ==> all_white(#[trigger] b[i])
        }),
    decreases bare.len(),
{
    lemma_place_of(bare, '\n');
    let n = place_of(bare, '\n') as int;
    let ended = bare.push('\n');
    let s = bare + white;
    let a = lines(ended);
    let b = lines(s);
    if n < bare.len() {
        let first = bare.take(n + 1);
        let rest = bare.skip(n + 1);
        assert(rest.len() > 0) by {
            if n + 1 == bare.len() {
                assert(bare.last() == '\n');
            }
        }
        assert(rest.last() == bare.last());
        lemma_trimmed_lines(rest, white);
        lemma_segments_concat(first, rest.push('\n'));
        lemma_segments_concat(first, rest + white);
        assert(first + rest.push('\n') =~= ended);
        assert(first + (rest + white) =~= s);
        assert(!bare.take(n).contains('\n')) by {
            if bare.take(n).contains('\n') {
                let j = choose|j: int| 0 <= j < n && bare.take(n)[j] == '\n';
                assert(bare[j] == '\n');
            }
        }
        lemma_one_line(bare.take(n));
        assert(bare.take(n).push('\n') =~= first);
        let ra = lines(rest.push('\n'));
        let rb = lines(rest + white);
        assert(lines(first).len() == 1);
        assert(a.len() == ra.len() + 1 && b.len() == rb.len() + 1);
        assert forall|i: int| 0 <= i < a.len() - 1 implies #[trigger] a[i] == b[i] by {
            if i > 0 {
                assert(a[i] == ra[i - 1]);
                assert(b[i] == rb[i - 1]);
            }
        }
        assert(a[a.len() - 1] == ra[ra.len() - 1]);
        assert(b[a.len() - 1] == rb[ra.len() - 1]);
        assert forall|i: int| a.len() <= i < b.len() implies all_white(#[trigger] b[i]) by {
            assert(b[i] == rb[i - 1]);
        }
    } else {
        assert(!bare.contains('\n')) by {
            if bare.contains('\n') {
                let j = choose|j: int| 0 <= j < bare.len() && bare[j] == '\n';
                assert(bare[j] != '\n');
            }
        }
        lemma_one_line(bare);
        assert(ended[ended.len() - 2] == bare.last());
        assert(is_white('\r'));
        assert(without_ending(ended) =~= bare);
        lemma_place_of(s, '\n');
        let q = place_of(s, '\n') as int;
        if q < bare.len() {
            assert(s[q] == bare[q]);
            assert(bare[q] != '\n');
        }
        if q < s.len() {
            let rest = s.skip(q + 1);
            assert(all_white(rest)) by {
                assert forall|i: int| 0 <= i < rest.len() implies is_white(#[trigger] rest[i]) by {
                    assert(rest[i] == white[q + 1 + i - bare.len()]);
                }
            }
            lemma_white_lines(rest);
            assert(segments(s)[0] == s.take(q + 1));
            assert forall|i: int| 1 <= i < b.len() implies all_white(#[trigger] b[i]) by {
                assert(segments(s)[i] == segments(rest)[i - 1]);
                assert(b[i] == lines(rest)[i - 1]);
            }
        } else {
            assert(segments(s) == seq![s]);
        }
        let long = b[0];
        let piece = segments(s)[0];
        assert(piece.len() > bare.len() || piece =~= s);
        if piece.last() == '\n' && piece.len() > 1 && piece[piece.len() - 2] == '\r' {
            assert(piece.len() - 2 >= bare.len()) by {
                if piece.len() - 2 < bare.len() {
                    assert(piece[piece.len() - 2] == bare.last());
                }
            }
        }
        assert forall|j: int| 0 <= j < bare.len() implies long[j] == #[trigger] bare[j] by {
            assert(s[j] == bare[j]);
        }
        assert forall|j: int| bare.len() <= j < long.len() implies is_white(#[trigger] long[j]) by {
            assert(long[j] == s[j]);
            assert(s[j] == white[j - bare.len()]);
        }
    }
}

proof fn lemma_padded(short: Seq<char>, long: Seq<char>)
    requires
        padded(short, long),
    ensures
        is_log_heading(short) == is_log_heading(long),
        is_fence(short) == is_fence(long),
        is_header(short) ==> is_header(long),
        lead_len(short, CharClass::Hash) == lead_len(long, CharClass::Hash),
{
    reveal_strlit("## Log");
    reveal_strlit("```");
    if has_prefix(short, "## Log"@) {
        assert(long.take(6) =~= short.take(6));
    }
    if has_prefix(long, "## Log"@) {
        assert(long.take(6)[5] == long[5]);
        if short.len() < 6 {
            assert(is_white(long[5]));
        }
        assert(long.take(6) =~= short.take(6));
    }
    if short.len() == 6 && long.len() > 6 {
        assert(is_white(long[6]));
    }
    if short.len() > 6 {
        assert(long[6] == short[6]);
    }
    let class = CharClass::White;
    lemma_lead_len(short, class);
    let k = lead_len(short, class);
    if k == short.len() {
        assert(class.holds(short[short.len() - 1]));
    }
    assert forall|j: int| 0 <= j < k implies class.holds(#[trigger] long[j]) by {
        assert(long[j] == short[j]);
    }
    assert(long[k as int] == short[k as int]);
    lemma_lead_len_unique(long, class, k);
    let a = short.skip(k as int);
    let b = long.skip(k as int);
    if has_prefix(a, "```"@) {
        assert(b.take(3) =~= a.take(3)) by {
            assert forall|j: int| 0 <= j < 3 implies b.take(3)[j] == #[trigger] a.take(3)[j] by {
                assert(long[k + j] == short[k + j]);
            }
        }
    }
    if has_prefix(b, "```"@) {
        assert(b.take(3)[2] == long[k as int + 2]);
        if a.len() < 3 {
            assert(is_white(long[k as int + 2]));
        }
        assert(b.take(3) =~= a.take(3)) by {
            assert forall|j: int| 0 <= j < 3 implies #[trigger] b.take(3)[j] == a.take(3)[j] by {
                assert(long[k + j] == short[k + j]);
            }
        }
    }
    let hash = CharClass::Hash;
    lemma_lead_len(short, hash);
    let h = lead_len(short, hash);
    assert forall|j: int| 0 <= j < h implies hash.holds(#[trigger] long[j]) by {
        assert(long[j] == short[j]);
    }
    if h < long.len() {
        if h < short.len() {
            assert(long[h as int] == short[h as int]);
        } else {
            assert(is_white(long[h as int]));
        }
    }
    lemma_lead_len_unique(long, hash, h);
}

/// Lines that are the same up to line `n` are fenced in the same places up to there.
proof fn lemma_fenced_same(a: Seq<Seq<char>>, b: Seq<Seq<char>>, n: int)
    requires
        forall|i: int| 0 <= i < n ==> is_fence(#[trigger] a[i]) == is_fence(b[i]),
    ensures
        fenced_at(a, n) == fenced_at(b, n),
    decreases n,
{
    if n > 0 {
        assert(is_fence(a[n - 1]) == is_fence(b[n - 1]));
        lemma_fenced_same(a, b, n - 1);
    }
}

/// Whether line `p` stands in the log section: behind its heading, with no other section between
/// them.
pub open spec fn in_log(lines: Seq<Seq<char>>, p: int) -> bool {
    log_line(lines, 0) matches Some(l) && l < p < lines.len() && forall|i: int|
        l < i <= p ==> !#[trigger] starts_section(lines, i)
}

/// The place of a new entry among the lines of a note that it was logged to.
pub open spec fn entry_place(existing: Seq<char>, time: Seq<char>, text: Seq<char>) -> int {
    match log_end(lines(existing)) {
        Some(p) => p,
        None => lines(logged(existing, time, text)).len() - 1,
    }
}

pub proof fn lemma_entry(time: Seq<char>, text: Seq<char>)
    requires
        !time.contains('\n'),
        !text.contains('\n'),
    ensures
        ({
            let entry = log_entry(time, text);
            let line = without_ending(entry.push('\n'));
            &&& !entry.contains('\n')
            &&& lines(entry.push('\n')) == seq![line]
            &&& !is_header(line)
            &&& !is_fence(line)
            &&& !is_log_heading(line)
        }),
{
    reveal_strlit("- ");
    reveal_strlit(" ");
    reveal_strlit("## Log");
    reveal_strlit("```");
    let entry = log_entry(time, text);
    if entry.contains('\n') {
        let j = choose|j: int| 0 <= j < entry.len() && entry[j] == '\n';
        if 2 <= j < 2 + time.len() {
            assert(time[j - 2] == '\n');
            assert(time.contains('\n'));
        } else if j > 2 + time.len() {
            assert(text[j - 3 - time.len()] == '\n');
            assert(text.contains('\n'));
        }
    }
    lemma_one_line(entry);
    let line = without_ending(entry.push('\n'));
    assert(entry[0] == '-' && entry.len() >= 3);
    assert(line.len() >= 2);
    assert(line[0] == '-');
    assert(lead_len(line, CharClass::Hash) == 0);
    assert(lead_len(line, CharClass::White) == 0);
    assert(line.skip(0) =~= line);
    if is_fence(line) {
        assert(line.take(3)[0] == line[0]);
    }
    if has_prefix(line, "## Log"@) {
        assert(line.take(6)[0] == line[0]);
    }
}

/// Whether the lines behind a log entry of one line are as they should be: the entry is line `p`,
/// stands in the log section, and there are `count` headings of a log section.
spec fn well_logged(after: Seq<Seq<char>>, p: int, line: Seq<char>, count: nat) -> bool {
    in_log(after, p) && after[p] == line && log_count(after) == count
}

proof fn lemma_entry_between(existing: Seq<char>, time: Seq<char>, text: Seq<char>, p: int)
    requires
        !time.contains('\n'),
        !text.contains('\n'),
        log_end(lines(existing)) == Some(p),
    ensures
        well_logged(
            lines(logged(existing, time, text)),
            p,
            without_ending(log_entry(time, text).push('\n')),
            log_count(lines(existing)),
        ),
{
    let all = lines(existing);
    let entry = log_entry(time, text);
    let line = without_ending(entry.push('\n'));
    let after = lines(logged(existing, time, text));
    lemma_entry(time, text);
    lemma_log_line(all, 0);
    lemma_log_end(all);
    reveal_strlit("\n");
    let l = log_line(all, 0)->0;
    lemma_segments_at(existing, p);
    let a = flat(segments(existing).take(p));
    let b = flat(segments(existing).skip(p));
    lemma_segments_concat(entry.push('\n'), b);
    lemma_segments_concat(a, entry.push('\n') + b);
    assert(logged(existing, time, text) =~= a + (entry.push('\n') + b));
    assert(after =~= all.take(p) + (seq![line] + all.skip(p)));
    assert forall|i: int| 0 <= i < p implies #[trigger] after[i] == all[i] by {}
    assert(after[p] == line);
    lemma_log_line_unique(after, l);
    assert forall|i: int| l < i <= p implies !#[trigger] starts_section(after, i) by {
        if i < p {
            lemma_fenced_same(after, all, i);
            assert(!starts_section(all, i));
        }
    }
    lemma_log_count_concat(all.take(p), seq![line] + all.skip(p));
    lemma_log_count_concat(seq![line], all.skip(p));
    lemma_log_count_concat(all.take(p), all.skip(p));
    lemma_log_count_none(seq![line]);
    assert(all.take(p) + all.skip(p) =~= all);
}

/// How many lines of a note are left when its trailing white space is cut off.
spec fn lines_kept(existing: Seq<char>) -> int {
    let bare = trimmed_end(existing, CharClass::White);
    if bare.len() > 0 {
        lines(bare.push('\n')).len() as int
    } else {
        0
    }
}

/// What is left of a note's lines when its trailing white space is cut off.
proof fn lemma_bare_lines(existing: Seq<char>)
    ensures
        ({
            let all = lines(existing);
            let a = lines(trimmed_end(existing, CharClass::White).push('\n'));
            let kept = lines_kept(existing);
            &&& 0 <= kept <= all.len()
            &&& kept <= a.len()
            &&& kept == a.len() || a == seq![Seq::<char>::empty()]
            &&& forall|i: int|
                0 <= i < kept ==> {
                    &&& is_log_heading(#[trigger] a[i]) == is_log_heading(all[i])
                    &&& is_fence(a[i]) == is_fence(all[i])
                    &&& is_header(a[i]) ==> is_header(all[i])
                    &&& lead_len(a[i], CharClass::Hash) == lead_len(all[i], CharClass::Hash)
                }
            &&& forall|i: int| kept <= i < all.len() ==> !is_log_heading(#[trigger] all[i])
            &&& log_count(all) == log_count(all.take(kept))
        }),
{
    let all = lines(existing);
    lemma_tail_len(existing, CharClass::White);
    let bare = trimmed_end(existing, CharClass::White);
    let white = existing.skip(bare.len() as int);
    assert(bare + white =~= existing);
    assert(all_white(white)) by {
        assert forall|j: int| 0 <= j < white.len() implies is_white(#[trigger] white[j]) by {
            assert(white[j] == existing[bare.len() + j]);
            assert(CharClass::White.holds(existing[bare.len() + j]));
        }
    }
    let a = lines(bare.push('\n'));
    let kept = lines_kept(existing);
    if bare.len() > 0 {
        lemma_trimmed_lines(bare, white);
        lemma_padded(a[a.len() - 1], all[a.len() - 1]);
    } else {
        assert(existing =~= white);
        lemma_white_lines(white);
        assert(!bare.contains('\n'));
        lemma_one_line(bare);
        assert(without_ending(bare.push('\n')) =~= Seq::<char>::empty());
        assert(a =~= seq![Seq::<char>::empty()]);
    }
    // Blank lines are no headings.
    reveal_strlit("## Log");
    assert forall|i: int| kept <= i < all.len() implies !is_log_heading(#[trigger] all[i]) by {
        assert(all_white(all[i]));
        if has_prefix(all[i], "## Log"@) {
            assert(all[i].take(6)[0] == all[i][0]);
            assert(is_white(all[i][0]));
        }
    }
    assert(all =~= all.take(kept) + all.skip(kept));
    lemma_log_count_concat(all.take(kept), all.skip(kept));
    lemma_log_count_none(all.skip(kept));
}

proof fn lemma_entry_at_end(existing: Seq<char>, time: Seq<char>, text: Seq<char>)
    requires
        !time.contains('\n'),
        !text.contains('\n'),
        log_end(lines(existing)) is None,
        has_log(existing),
    ensures
        well_logged(
            lines(logged(existing, time, text)),
            lines(logged(existing, time, text)).len() - 1,
            without_ending(log_entry(time, text).push('\n')),
            log_count(lines(existing)),
        ),
{
    let all = lines(existing);
    let entry = log_entry(time, text);
    let line = without_ending(entry.push('\n'));
    let after = lines(logged(existing, time, text));
    let p = after.len() - 1;
    lemma_entry(time, text);
    lemma_log_line(all, 0);
    lemma_bare_lines(existing);
    reveal_strlit("\n");
    let bare = trimmed_end(existing, CharClass::White);
    let a = lines(bare.push('\n'));
    let kept = lines_kept(existing);
    lemma_segments_concat(bare.push('\n'), entry.push('\n'));
    let l = log_line(all, 0)->0;
    assert(l < kept);
    assert(logged(existing, time, text) =~= bare.push('\n') + entry.push('\n'));
    assert(after =~= a + seq![line]);
    assert forall|i: int| 0 <= i < a.len() implies #[trigger] after[i] == a[i] by {}
    assert forall|i: int| 0 <= i < l implies !is_log_heading(#[trigger] after[i]) by {
        assert(is_log_heading(a[i]) == is_log_heading(all[i]));
    }
    assert(is_log_heading(a[l]) == is_log_heading(all[l]));
    assert(kept == a.len()) by {
        if kept != a.len() {
            assert(is_log_heading(a[0]) == is_log_heading(all[0]));
        }
    }
    lemma_log_line_unique(after, l);
    lemma_next_section(all, l + 1);
    assert forall|i: int| l < i <= p implies !#[trigger] starts_section(after, i) by {
        if i < p {
            assert forall|j: int| 0 <= j < i implies is_fence(#[trigger] after[j]) == is_fence(
                all[j],
            ) by {
                assert(is_fence(a[j]) == is_fence(all[j]));
            }
            lemma_fenced_same(after, all, i);
            assert(!starts_section(all, i));
            assert(after[i] == a[i]);
            assert(is_fence(a[i]) == is_fence(all[i]));
        }
    }
    lemma_log_count_concat(a, seq![line]);
    lemma_log_count_none(seq![line]);
    assert forall|i: int| 0 <= i < a.len() implies is_log_heading(#[trigger] a[i])
        == is_log_heading(all.take(kept)[i]) by {}
    lemma_log_count_same(a, all.take(kept));
}

proof fn lemma_entry_with_heading(existing: Seq<char>, time: Seq<char>, text: Seq<char>)
    requires
        !time.contains('\n'),
        !text.contains('\n'),
        !has_log(existing),
    ensures
        well_logged(
            lines(logged(existing, time, text)),
            lines(logged(existing, time, text)).len() - 1,
            without_ending(log_entry(time, text).push('\n')),
            1,
        ),
{
    let all = lines(existing);
    let entry = log_entry(time, text);
    let line = without_ending(entry.push('\n'));
    let after = lines(logged(existing, time, text));
    lemma_entry(time, text);
    lemma_log_line(all, 0);
    lemma_bare_lines(existing);
    reveal_strlit("\n");
    reveal_strlit("## Log");
    reveal_strlit("\n\n## Log");
    let bare = trimmed_end(existing, CharClass::White);
    let a = lines(bare.push('\n'));
    let head = "## Log"@;
    let blank = Seq::<char>::empty();
    assert(!head.contains('\n'));
    assert(!blank.contains('\n'));
    lemma_one_line(head);
    lemma_one_line(blank);
    assert(without_ending(blank.push('\n')) =~= blank);
    assert(head.push('\n')[5] == 'g');
    assert(without_ending(head.push('\n')) =~= head);
    lemma_segments_concat(head.push('\n'), entry.push('\n'));
    lemma_segments_concat(blank.push('\n'), head.push('\n') + entry.push('\n'));
    let more = blank.push('\n') + (head.push('\n') + entry.push('\n'));
    lemma_segments_concat(bare.push('\n'), more);
    assert(logged(existing, time, text) =~= bare.push('\n') + more);
    let l = a.len() as int + 1;
    assert(after =~= a + (seq![blank] + (seq![head] + seq![line])));
    assert(after[l] == head);
    assert(head.take(6) =~= head);
    assert(after[l - 1] == blank);
    assert forall|i: int| 0 <= i < l implies !is_log_heading(#[trigger] after[i]) by {
        if i < a.len() {
            assert(after[i] == a[i]);
            if i < lines_kept(existing) {
                assert(is_log_heading(a[i]) == is_log_heading(all[i]));
            }
        }
    }
    lemma_log_line_unique(after, l);
    lemma_log_count_concat(after.take(l), seq![head] + seq![line]);
    lemma_log_count_concat(seq![head], seq![line]);
    assert(after =~= after.take(l) + (seq![head] + seq![line]));
    lemma_log_count_none(after.take(l));
    lemma_log_count_none(seq![line]);
    assert(log_count(seq![head].drop_last()) == 0);
    assert(seq![head].last() == head);
    assert(log_count(seq![head]) == 1);
}

/// There is one log section, and the entry stands in it: an entry of one line stands, as that
/// line, behind the heading of the log section and before any other section, and no heading is
/// added where there was a log section.
pub proof fn law_one_log_section(existing: Seq<char>, time: Seq<char>, text: Seq<char>)
    requires
        !time.contains('\n'),
        !text.contains('\n'),
    ensures
        ({
            let after = lines(logged(existing, time, text));
            let p = entry_place(existing, time, text);
            &&& in_log(after, p)
            &&& after[p] == without_ending(log_entry(time, text).push('\n'))
            &&& log_count(after) == if has_log(existing) {
                log_count(lines(existing))
            } else {
                1
            }
        }),
{
    match log_end(lines(existing)) {
        Some(p) => {
            lemma_log_end(lines(existing));
            lemma_entry_between(existing, time, text, p);
        },
        None => {
            if has_log(existing) {
                lemma_entry_at_end(existing, time, text);
            } else {
                lemma_entry_with_heading(existing, time, text);
            }
        },
    }
}

/// A line with its first empty box checked.
pub open spec fn closed_line(line: Seq<char>) -> Seq<char> {
    match find_from(line, "[ ]"@, 0) {
        Some(i) => line.take(i) + "[x]"@ + line.skip(i + 3),
        None => line,
    }
}

fn close_line(line: &str) -> (r: String)
    ensures
        r@ == closed_line(line@),
{
    let chars = chars_of(line);
    let empty = chars_of("[ ]");
    proof {
        reveal_strlit("[ ]");
        lemma_find_from(chars@, empty@, 0);
    }
    match find_text(&chars, &empty, 0) {
        Some(i) => {
            let n = chars.len();
            let left = part_of(&chars, 0, i);
            let right = part_of(&chars, i + 3, n);
            assert(left@ =~= line@.take(i as int));
            assert(right@ =~= line@.skip(i + 3));
            cat3(&text_of(&left), "[x]", &text_of(&right))
        },
        None => line.to_owned(),
    }
}

/// The place of the first loop with a text.
pub open spec fn loop_with_text(loops: Seq<LoopModel>, text: Seq<char>, from: int) -> Option<int>
    decreases loops.len() - from,
{
    if from < 0 || from >= loops.len() {
        None
    } else if loops[from].text == text {
        Some(from)
    } else {
        loop_with_text(loops, text, from + 1)
    }
}

/// The text that lines make, with a line feed at the end where `ended` says so.
pub open spec fn text_of_lines(lines: Seq<Seq<char>>, ended: bool) -> Seq<char> {
    if ended {
        joined(lines, "\n"@) + "\n"@
    } else {
        joined(lines, "\n"@)
    }
}

/// Whether a text ends in a line feed.
pub open spec fn ends_line(s: Seq<char>) -> bool {
    s.len() > 0 && s.last() == '\n'
}

/// A note with a line closed.
pub open spec fn with_line_closed(body: Seq<char>, line: int) -> Seq<char> {
    text_of_lines(lines(body).update(line, closed_line(lines(body)[line])), ends_line(body))
}

/// A note with its first open loop of a text closed, where it has one.
pub open spec fn done_in(body: Seq<char>, text: Seq<char>) -> Option<Seq<char>> {
    match loop_with_text(loops_of(body), text, 0) {
        Some(k) => Some(with_line_closed(body, loops_of(body)[k].line)),
        None => None,
    }
}

/// Every open loop stands at a line of the note.
pub proof fn lemma_loop_lines(lines: Seq<Seq<char>>, n: int)
    requires
        0 <= n <= lines.len(),
    ensures
        forall|k: int|
            0 <= k < loops_upto(lines, n).len() ==> 0 <= (#[trigger] loops_upto(lines, n)[k]).line
                < n && is_prose_line(lines, loops_upto(lines, n)[k].line) && !is_header(
                lines[loops_upto(lines, n)[k].line],
            ) && is_checkbox(lines[loops_upto(lines, n)[k].line]) && checkbox_mark(
                lines[loops_upto(lines, n)[k].line],
            ) == ' ',
        item_open_at(lines, n) ==> loops_upto(lines, n).len() > 0,
    decreases n,
{
    if n > 0 {
        lemma_loop_lines(lines, n - 1);
        let before = loops_upto(lines, n - 1);
        let all = loops_upto(lines, n);
        assert forall|k: int| 0 <= k < all.len() implies 0 <= (#[trigger] all[k]).line < n
            && is_prose_line(lines, all[k].line) && !is_header(lines[all[k].line]) && is_checkbox(
            lines[all[k].line],
        ) && checkbox_mark(lines[all[k].line]) == ' ' by {
            if k < before.len() {
                assert(all[k].line == before[k].line);
            }
        }
    }
}

fn find_loop(loops: &Vec<Loop>, text: &str) -> (r: Option<usize>)
    ensures
        match r {
            Some(k) => loop_with_text(loops.deep_view(), text@, 0) == Some(k as int) && k
                < loops@.len(),
            None => loop_with_text(loops.deep_view(), text@, 0) is None,
        },
{
    let ghost all = loops.deep_view();
    let mut k: usize = 0;
    while k < loops.len()
        invariant
            all == loops.deep_view(),
            k <= all.len(),
            loop_with_text(all, text@, 0) == loop_with_text(all, text@, k as int),
        decreases all.len() - k,
    {
        assert(all[k as int] == loops@[k as int].deep_view());
        if same_text(&loops[k].text, text) {
            return Some(k);
        }
        k += 1;
    }
    None
}

/// A note with its first open loop of the text closed: its checkbox flips to `[x]`. `None` where
/// the loop is already closed or edited away.
pub fn close_loop(body: &str, loop_text: &str) -> (r: Option<String>)
    ensures
        r.deep_view() == done_in(body@, loop_text@),
{
    let loops = extract_loops(body);
    let k = match find_loop(&loops, loop_text) {
        None => {
            return None;
        },
        Some(k) => k,
    };
    let ghost all = lines(body@);
    proof {
        lemma_loop_lines(all, all.len() as int);
        assert(loops.deep_view()[k as int] == loops@[k as int].deep_view());
    }
    let target = loops[k].line;
    let mut all_lines = lines_of(body);
    assert(all[target as int] == all_lines@[target as int]@);
    let closed = close_line(&all_lines[target]);
    let ghost closed_text = closed@;
    all_lines.set(target, closed);
    assert(all_lines.deep_view() =~= all.update(target as int, closed_text));
    let mut out = join_texts(&all_lines, "\n");
    let chars = chars_of(body);
    if chars.len() > 0 && chars[chars.len() - 1] == '\n' {
        out.append("\n");
    }
    Some(out)
}

/// A note and its text.
pub struct NoteText {
    pub path: String,
    pub body: String,
}

/// The value of a `NoteText`.
pub struct NoteTextModel {
    pub path: Seq<char>,
    pub body: Seq<char>,
}

impl DeepView for NoteText {
    type V = NoteTextModel;

    open spec fn deep_view(&self) -> NoteTextModel {
        NoteTextModel { path: self.path@, body: self.body@ }
    }
}

/// The notes among the first `n` that closing a loop changes, with their new texts.
pub open spec fn done_upto(notes: Seq<NoteTextModel>, text: Seq<char>, n: int) -> Seq<NoteTextModel>
    decreases n,
{
    if n <= 0 {
        Seq::empty()
    } else {
        match done_in(notes[n - 1].body, text) {
            Some(body) => done_upto(notes, text, n - 1).push(
                NoteTextModel { path: notes[n - 1].path, body },
            ),
            None => done_upto(notes, text, n - 1),
        }
    }
}

/// Mark an open loop done in every note that contains it. Returns the notes that change, with
/// their new texts.
pub fn mark_done(loop_text: &str, notes: &Vec<NoteText>) -> (r: Vec<NoteText>)
    ensures
        r.deep_view() == done_upto(notes.deep_view(), loop_text@, notes@.len() as int),
{
    let ghost all = notes.deep_view();
    let mut out: Vec<NoteText> = Vec::new();
    let mut i: usize = 0;
    assert(out.deep_view() =~= Seq::<NoteTextModel>::empty());
    while i < notes.len()
        invariant
            all == notes.deep_view(),
            i <= all.len(),
            out.deep_view() == done_upto(all, loop_text@, i as int),
        decreases all.len() - i,
    {
        let ghost before = out.deep_view();
        assert(all[i as int] == notes@[i as int].deep_view());
        if let Some(body) = close_loop(&notes[i].body, loop_text) {
            let item = NoteText { path: notes[i].path.clone(), body };
            out.push(item);
            assert(out.deep_view() =~= before.push(item.deep_view()));
        }
        i += 1;
    }
    out
}

/// Where the box of a task item stands: behind the indent, the bullet, and the space behind it.
pub open spec fn box_place(line: Seq<char>) -> int {
    let indent = lead_len(line, CharClass::White) as int;
    indent + 1 + lead_len(line.skip(indent).skip(1), CharClass::White)
}

pub proof fn lemma_box_place(line: Seq<char>)
    requires
        is_checkbox(line),
    ensures
        ({
            let indent = lead_len(line, CharClass::White) as int;
            let at = box_place(line);
            &&& 0 <= indent
            &&& indent + 1 < at
            &&& at + 5 <= line.len()
            &&& line[indent] == '-' || line[indent] == '*'
            &&& is_white(line[indent + 1])
            &&& forall|j: int| 0 <= j < indent ==> is_white(#[trigger] line[j])
            &&& forall|j: int| indent < j < at ==> is_white(#[trigger] line[j])
            &&& behind_bullet(line) == line.skip(at)
            &&& trimmed_start(line, CharClass::White) == line.skip(indent)
        }),
{
    let indent = lead_len(line, CharClass::White) as int;
    lemma_lead_len(line, CharClass::White);
    let a = line.skip(indent);
    let rest = a.skip(1);
    lemma_lead_len(rest, CharClass::White);
    let k = lead_len(rest, CharClass::White) as int;
    let at = box_place(line);
    assert(behind_bullet(line) =~= line.skip(at));
    assert(a[0] == line[indent]);
    assert(a[1] == line[indent + 1]);
    assert(rest[0] == a[1]);
    if k == 0 {
        assert(!CharClass::White.holds(rest[0]));
    }
    assert forall|j: int| indent < j < at implies is_white(#[trigger] line[j]) by {
        assert(line[j] == rest[j - indent - 1]);
        assert(CharClass::White.holds(rest[j - indent - 1]));
    }
    assert forall|j: int| 0 <= j < indent implies is_white(#[trigger] line[j]) by {
        assert(CharClass::White.holds(line[j]));
    }
}

/// Closing an open task item checks its box and changes nothing else.
pub proof fn lemma_closed_item(line: Seq<char>)
    requires
        is_checkbox(line),
        checkbox_mark(line) == ' ',
    ensures
        closed_line(line) == line.update(box_place(line) + 1, 'x'),
        is_checkbox(closed_line(line)),
        checkbox_mark(closed_line(line)) == 'x',
        !is_header(closed_line(line)),
        is_fence(closed_line(line)) == is_fence(line),
{
    reveal_strlit("[ ]");
    reveal_strlit("[x]");
    reveal_strlit("```");
    lemma_box_place(line);
    let indent = lead_len(line, CharClass::White) as int;
    let at = box_place(line);
    let b = behind_bullet(line);
    assert(b[0] == line[at] && b[1] == line[at + 1] && b[2] == line[at + 2] && b[3] == line[at + 3]);
    assert(line.subrange(at, at + 3) =~= "[ ]"@);
    assert(occurs_at(line, "[ ]"@, at));
    lemma_find_from(line, "[ ]"@, 0);
    let i = find_from(line, "[ ]"@, 0)->0;
    if i < at {
        assert(line.subrange(i, i + 3)[0] == line[i]);
        assert(line[i] == '[');
    }
    assert(i == at);
    let closed = closed_line(line);
    assert(closed =~= line.update(at + 1, 'x'));
    assert forall|j: int| 0 <= j < indent implies CharClass::White.holds(#[trigger] closed[j]) by {
        assert(is_white(line[j]));
    }
    lemma_lead_len_unique(closed, CharClass::White, indent as nat);
    let ca = closed.skip(indent);
    let crest = ca.skip(1);
    assert forall|j: int| 0 <= j < at - indent - 1 implies CharClass::White.holds(
        #[trigger] crest[j],
    ) by {
        assert(crest[j] == closed[indent + 1 + j]);
        assert(is_white(line[indent + 1 + j]));
    }
    assert(crest[at - indent - 1] == closed[at]);
    lemma_lead_len_unique(crest, CharClass::White, (at - indent - 1) as nat);
    assert(behind_bullet(closed) =~= closed.skip(at));
    let cb = behind_bullet(closed);
    assert(cb[0] == '[' && cb[1] == 'x' && cb[2] == ']' && cb[3] == line[at + 3]);
    assert(ca[0] == line[indent] && ca[1] == line[indent + 1]);
    assert(trimmed_start(closed, CharClass::White) == ca);
    // Neither a heading nor a fence starts with a bullet.
    assert(closed[0] == line[0]);
    assert(is_white(line[0]) || line[0] == '-' || line[0] == '*') by {
        if indent > 0 {
            assert(is_white(line[0]));
        }
    }
    assert(lead_len(closed, CharClass::Hash) == 0);
    if is_fence(line) {
        assert(line.skip(indent).take(3)[0] == line[indent]);
    }
    if is_fence(closed) {
        assert(ca.take(3)[0] == ca[0]);
    }
}

/// Lines that differ in a place where neither version is a fence or a heading.
spec fn like_lines(old_lines: Seq<Seq<char>>, new_lines: Seq<Seq<char>>, t: int) -> bool {
    &&& 0 <= t < old_lines.len()
    &&& new_lines == old_lines.update(t, new_lines[t])
    &&& is_fence(new_lines[t]) == is_fence(old_lines[t])
    &&& is_header(new_lines[t]) == is_header(old_lines[t])
    &&& !is_header(old_lines[t])
}

proof fn lemma_like_lines(old_lines: Seq<Seq<char>>, new_lines: Seq<Seq<char>>, t: int, n: int)
    requires
        like_lines(old_lines, new_lines, t),
        0 <= n <= old_lines.len(),
    ensures
        fenced_at(new_lines, n) == fenced_at(old_lines, n),
        section_at(new_lines, n) == section_at(old_lines, n),
    decreases n,
{
    if n > 0 {
        lemma_like_lines(old_lines, new_lines, t, n - 1);
        if n - 1 != t {
            assert(new_lines[n - 1] == old_lines[n - 1]);
        }
    }
}

proof fn lemma_loops_without(old_lines: Seq<Seq<char>>, new_lines: Seq<Seq<char>>, t: int, n: int)
    requires
        like_lines(old_lines, new_lines, t),
        is_prose_line(old_lines, t),
        is_checkbox(old_lines[t]),
        checkbox_mark(old_lines[t]) == ' ',
        is_checkbox(new_lines[t]),
        checkbox_mark(new_lines[t]) == 'x',
        0 <= n <= old_lines.len(),
    ensures
        n <= t ==> loops_upto(new_lines, n) == loops_upto(old_lines, n) && item_open_at(
            new_lines,
            n,
        ) == item_open_at(old_lines, n),
        n > t ==> ({
            let k = loops_upto(old_lines, t).len() as int;
            &&& k < loops_upto(old_lines, n).len()
            &&& loops_upto(old_lines, n)[k].line == t
            &&& loops_upto(new_lines, n) == loops_upto(old_lines, n).remove(k)
            &&& item_open_at(new_lines, n) == (item_open_at(old_lines, n) && loops_upto(
                old_lines,
                n,
            ).len() > k + 1)
        }),
    decreases n,
{
    if n > 0 {
        lemma_loops_without(old_lines, new_lines, t, n - 1);
        lemma_like_lines(old_lines, new_lines, t, n - 1);
        lemma_loop_lines(old_lines, n - 1);
        lemma_loop_lines(new_lines, n - 1);
        let k = loops_upto(old_lines, t).len() as int;
        let old_before = loops_upto(old_lines, n - 1);
        let new_before = loops_upto(new_lines, n - 1);
        let old_all = loops_upto(old_lines, n);
        let new_all = loops_upto(new_lines, n);
        assert(is_prose_line(new_lines, n - 1) == is_prose_line(old_lines, n - 1)) by {
            if n - 1 != t {
                assert(new_lines[n - 1] == old_lines[n - 1]);
            }
        }
        if n - 1 < t {
            assert(new_lines[n - 1] == old_lines[n - 1]);
        } else if n - 1 == t {
            assert(old_all.remove(k) =~= old_before);
        } else {
            let line = old_lines[n - 1];
            assert(new_lines[n - 1] == line);
            if !is_prose_line(old_lines, n - 1) || is_header(line) {
            } else if is_checkbox(line) {
                if checkbox_mark(line) == ' ' {
                    assert(old_all.remove(k) =~= new_all);
                }
            } else if item_open_at(old_lines, n - 1) && is_continuation(line) {
                let more = with_continuation(old_before, line);
                assert(old_all == more);
                if old_before.len() > k + 1 {
                    assert(new_before.last() == old_before.last());
                    assert(more.remove(k) =~= with_continuation(new_before, line));
                } else {
                    assert(more.remove(k) =~= old_before.remove(k));
                    assert(more[k].line == old_before[k].line);
                }
            }
        }
    }
}

/// The lines, each with a line feed behind it.
spec fn glued(lines: Seq<Seq<char>>) -> Seq<char>
    decreases lines.len(),
{
    if lines.len() == 0 {
        Seq::empty()
    } else {
        lines[0].push('\n') + glued(lines.skip(1))
    }
}

proof fn lemma_glued_push(lines: Seq<Seq<char>>, line: Seq<char>)
    ensures
        glued(lines.push(line)) == glued(lines) + line.push('\n'),
    decreases lines.len(),
{
    let all = lines.push(line);
    if lines.len() == 0 {
        assert(all.skip(1) =~= Seq::<Seq<char>>::empty());
        assert(glued(all.skip(1)) =~= Seq::<char>::empty());
        assert(glued(all) =~= glued(lines) + line.push('\n'));
    } else {
        lemma_glued_push(lines.skip(1), line);
        assert(all.skip(1) =~= lines.skip(1).push(line));
        assert(glued(all) =~= glued(lines) + line.push('\n'));
    }
}

proof fn lemma_joined_is_glued(lines: Seq<Seq<char>>)
    requires
        lines.len() > 0,
    ensures
        joined(lines, "\n"@) == glued(lines.drop_last()) + lines.last(),
        joined(lines, "\n"@) + "\n"@ == glued(lines),
    decreases lines.len(),
{
    reveal_strlit("\n");
    let rest = lines.drop_last();
    lemma_glued_push(rest, lines.last());
    assert(rest.push(lines.last()) =~= lines);
    if lines.len() == 1 {
        assert(glued(rest) =~= Seq::<char>::empty());
        assert(joined(lines, "\n"@) =~= glued(rest) + lines.last());
    } else {
        lemma_joined_is_glued(rest);
        assert(joined(lines, "\n"@) =~= glued(rest) + lines.last());
    }
    assert(joined(lines, "\n"@) + "\n"@ =~= glued(lines));
}

/// Whether lines have no line feed in them and no carriage return at their end.
pub open spec fn plain_lines(lines: Seq<Seq<char>>) -> bool {
    forall|i: int|
        0 <= i < lines.len() ==> !(#[trigger] lines[i]).contains('\n') && !(lines[i].len() > 0
            && lines[i].last() == '\r')
}

proof fn lemma_lines_of_glued(lines: Seq<Seq<char>>, rest: Seq<char>)
    requires
        plain_lines(lines),
    ensures
        crate::text::lines(glued(lines) + rest) == lines + crate::text::lines(rest),
    decreases lines.len(),
{
    let all = glued(lines) + rest;
    if lines.len() == 0 {
        assert(all =~= rest);
        assert(lines + crate::text::lines(rest) =~= crate::text::lines(rest));
    } else {
        let first = lines[0];
        let tail = lines.skip(1);
        assert(plain_lines(tail)) by {
            assert forall|i: int| 0 <= i < tail.len() implies !(#[trigger] tail[i]).contains('\n')
                && !(tail[i].len() > 0 && tail[i].last() == '\r') by {
                assert(tail[i] == lines[i + 1]);
            }
        }
        lemma_lines_of_glued(tail, rest);
        let n = first.len();
        assert forall|i: int| 0 <= i < n implies #[trigger] all[i] != '\n' by {
            assert(all[i] == first[i]);
            if first[i] == '\n' {
                assert(first.contains('\n'));
            }
        }
        assert(all[n as int] == '\n');
        lemma_place_of_unique(all, '\n', n);
        assert(all.take(n as int + 1) =~= first.push('\n'));
        assert(all.skip(n as int + 1) =~= glued(tail) + rest);
        let pieces = segments(all);
        assert(pieces == seq![first.push('\n')] + segments(glued(tail) + rest));
        let piece = first.push('\n');
        assert(!first.contains('\n'));
        assert(without_ending(piece) =~= first) by {
            if n > 0 {
                assert(piece[n - 1] == first.last());
            }
        }
        let got = crate::text::lines(all);
        let want = lines + crate::text::lines(rest);
        assert(pieces.len() == 1 + crate::text::lines(glued(tail) + rest).len());
        assert(got.len() == want.len());
        assert forall|i: int| 0 <= i < got.len() implies #[trigger] got[i] == want[i] by {
            if i > 0 {
                assert(pieces[i] == segments(glued(tail) + rest)[i - 1]);
                assert(got[i] == crate::text::lines(glued(tail) + rest)[i - 1]);
                assert((tail + crate::text::lines(rest))[i - 1] == want[i]);
            }
        }
        assert(got =~= want);
    }
}

/// Lines put together are read back as they were.
proof fn lemma_lines_read_back(lines: Seq<Seq<char>>, ended: bool)
    requires
        plain_lines(lines),
        lines.len() > 0,
        !ended ==> lines.last().len() > 0,
    ensures
        crate::text::lines(text_of_lines(lines, ended)) == lines,
{
    lemma_joined_is_glued(lines);
    if ended {
        assert(glued(lines) + Seq::<char>::empty() =~= glued(lines));
        lemma_lines_of_glued(lines, Seq::empty());
        assert(segments(Seq::<char>::empty()) =~= Seq::<Seq<char>>::empty());
        assert(crate::text::lines(Seq::<char>::empty()) =~= Seq::<Seq<char>>::empty());
        assert(lines + Seq::<Seq<char>>::empty() =~= lines);
    } else {
        let rest = lines.drop_last();
        let last = lines.last();
        assert(plain_lines(rest)) by {
            assert forall|i: int| 0 <= i < rest.len() implies !(#[trigger] rest[i]).contains('\n')
                && !(rest[i].len() > 0 && rest[i].last() == '\r') by {
                assert(rest[i] == lines[i]);
            }
        }
        lemma_lines_of_glued(rest, last);
        lemma_place_of(last, '\n');
        assert(lines[lines.len() - 1] == last);
        if place_of(last, '\n') < last.len() {
            assert(last.contains('\n'));
        }
        assert(segments(last) =~= seq![last]);
        assert(last.last() != '\n') by {
            if last.last() == '\n' {
                assert(last.contains('\n'));
            }
        }
        assert(crate::text::lines(last) =~= seq![last]);
        assert(rest + seq![last] =~= lines);
    }
}

pub proof fn lemma_last_line(body: Seq<char>)
    requires
        body.len() > 0,
    ensures
        segments(body).len() > 0,
        segments(body).last().len() > 0,
        segments(body).last().last() == body.last(),
    decreases body.len(),
{
    lemma_place_of(body, '\n');
    let n = place_of(body, '\n') as int;
    if n < body.len() {
        let rest = body.skip(n + 1);
        if rest.len() > 0 {
            lemma_last_line(rest);
            assert(segments(body).last() == segments(rest).last());
            assert(rest.last() == body.last());
        } else {
            assert(segments(rest) =~= Seq::<Seq<char>>::empty());
            assert(segments(body) =~= seq![body.take(n + 1)]);
            assert(body.take(n + 1) =~= body);
        }
    }
}

/// Whether some line of a note ends in a carriage return that is not part of its line ending.
pub open spec fn stray_return(body: Seq<char>) -> bool {
    exists|i: int|
        0 <= i < lines(body).len() && (#[trigger] lines(body)[i]).len() > 0 && lines(body)[i].last()
            == '\r'
}

/// Marking a loop done closes it and nothing else: of the note's lines only the one of the loop
/// changes, the loop is no longer open, and the other open loops are the same as before. (A stray
/// carriage return at the end of a line would be taken for a part of the line ending when the note
/// is read again.)
pub proof fn law_done_closes_the_loop(body: Seq<char>, text: Seq<char>)
    requires
        done_in(body, text) is Some,
        !stray_return(body),
    ensures
        ({
            let k = loop_with_text(loops_of(body), text, 0)->0;
            let line = loops_of(body)[k].line;
            let done = done_in(body, text)->0;
            &&& lines(done) == lines(body).update(line, closed_line(lines(body)[line]))
            &&& loops_of(body)[k].text == text
            &&& loops_of(done) == loops_of(body).remove(k)
        }),
{
    let all = lines(body);
    let loops = loops_of(body);
    let k = loop_with_text(loops, text, 0)->0;
    lemma_loop_with_text(loops, text, 0);
    lemma_loop_lines(all, all.len() as int);
    let t = loops[k].line;
    let closed = closed_line(all[t]);
    let done = all.update(t, closed);
    lemma_closed_item(all[t]);
    lemma_box_place(all[t]);
    lemma_lines_have_no_newline(body);
    assert(plain_lines(done)) by {
        assert forall|i: int| 0 <= i < done.len() implies !(#[trigger] done[i]).contains('\n') && !(
        done[i].len() > 0 && done[i].last() == '\r') by {
            assert(!all[i].contains('\n'));
            assert(!(all[i].len() > 0 && all[i].last() == '\r'));
            if i == t {
                assert(closed.last() == all[t].last());
                if closed.contains('\n') {
                    let j = choose|j: int| 0 <= j < closed.len() && closed[j] == '\n';
                    assert(all[t][j] == '\n');
                    assert(all[t].contains('\n'));
                }
            }
        }
    }
    assert(body.len() > 0) by {
        if body.len() == 0 {
            assert(segments(body) =~= Seq::<Seq<char>>::empty());
        }
    }
    lemma_last_line(body);
    if !ends_line(body) {
        assert(without_ending(segments(body).last()) == segments(body).last());
        assert(all.last() == segments(body).last());
        if t == all.len() - 1 {
            assert(closed.len() == all[t].len());
        }
        assert(done.last().len() > 0);
    }
    lemma_lines_read_back(done, ends_line(body));
    assert(like_lines(all, done, t));
    lemma_loops_without(all, done, t, all.len() as int);
    // The loop at line `t` is the one that the loops before that line are followed by.
    lemma_loop_order(all, all.len() as int);
    let j = loops_upto(all, t).len() as int;
    if j < k {
        assert(loops[j].line < loops[k].line);
    }
    if k < j {
        assert(loops[k].line < loops[j].line);
    }
    assert(j == k);
}

pub proof fn lemma_loop_with_text(loops: Seq<LoopModel>, text: Seq<char>, from: int)
    requires
        0 <= from,
    ensures
        loop_with_text(loops, text, from) matches Some(k) ==> from <= k < loops.len()
            && loops[k].text == text,
    decreases loops.len() - from,
{
    if from < loops.len() && loops[from].text != text {
        lemma_loop_with_text(loops, text, from + 1);
    }
}

proof fn lemma_loop_order(lines: Seq<Seq<char>>, n: int)
    requires
        0 <= n <= lines.len(),
    ensures
        forall|a: int, b: int|
            0 <= a < b < loops_upto(lines, n).len() ==> (#[trigger] loops_upto(lines, n)[a]).line
                < (#[trigger] loops_upto(lines, n)[b]).line,
    decreases n,
{
    if n > 0 {
        lemma_loop_order(lines, n - 1);
        lemma_loop_lines(lines, n - 1);
        let before = loops_upto(lines, n - 1);
        let all = loops_upto(lines, n);
        assert forall|a: int, b: int| 0 <= a < b < all.len() implies (#[trigger] all[a]).line < (
        #[trigger] all[b]).line by {
            assert(a < before.len());
            assert(all[a].line == before[a].line);
            if b < before.len() {
                assert(all[b].line == before[b].line);
            }
        }
    }
}

} // verus!
