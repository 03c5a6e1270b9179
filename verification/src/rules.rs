//! What linting promises: each breach of the note format is reported, on its line and under its
//! rule, and nothing else is.

use vstd::prelude::*;

use crate::config::{Source, SourceKind};
use crate::consent::{
    is_block_end, is_rule, lemma_block_end, lemma_says, lemma_speaks, says_of_publish,
    speaks_of_publish,
};
use crate::extract::{fenced_at, frontmatter_opening, is_fence};
use crate::lint::{
    all_issues, closing_line, declares_publish, fence_issues, frontmatter_end, frontmatter_issues,
    issue_keys, issues_of, issues_of_line, line_issues, note_issues, publish_issues, source_issues,
    title_issues, title_line, IssueModel,
};
use crate::paths::file_stem;
use crate::patterns::{is_malformed_checkbox, is_match_of, is_toml_table, DAILY_STEM};
use crate::scan::NoteFileModel;
use crate::select::{lemma_ordered, lemma_picked_count, picked};
use crate::text::{has_prefix, lines, trim};

verus! {

/// Whether an issue is of a note, under a rule and on a line; line 0 stands for the whole note.
pub open spec fn is_report(item: IssueModel, rule: Seq<char>, line: int) -> bool {
    item.rule == rule && item.line == line
}

/// Whether issues report a breach of a rule on a line.
pub open spec fn reports(issues: Seq<IssueModel>, rule: Seq<char>, line: int) -> bool {
    exists|k: int| 0 <= k < issues.len() && is_report(#[trigger] issues[k], rule, line)
}

/// The places of the fence lines before line `n`.
pub open spec fn fences(all: Seq<Seq<char>>, n: int) -> Set<int> {
    Set::new(|i: int| 0 <= i < n && is_fence(all[i]))
}

proof fn lemma_fence_parity(all: Seq<Seq<char>>, n: int)
    requires
        0 <= n <= all.len(),
    ensures
        fenced_at(all, n) <==> picked(Seq::new(n as nat, |i: int| is_fence(all[i]))).len() % 2 == 1,
    decreases n,
{
    let flags = Seq::new(n as nat, |i: int| is_fence(all[i]));
    if n > 0 {
        lemma_fence_parity(all, n - 1);
        assert(flags.drop_last() =~= Seq::new((n - 1) as nat, |i: int| is_fence(all[i])));
    }
}

/// A line is inside a fenced block where an odd number of fence lines stands before it.
pub proof fn law_fences_open_and_close_in_turn(all: Seq<Seq<char>>, n: int)
    requires
        0 <= n <= all.len(),
    ensures
        fenced_at(all, n) <==> fences(all, n).len() % 2 == 1,
        fences(all, n).finite(),
{
    lemma_fence_parity(all, n);
    lemma_picked_count(Seq::new(n as nat, |i: int| is_fence(all[i])), fences(all, n));
}

/// Whether line `i` starts with `# ` and no line from `from` on does before it.
pub open spec fn is_first_heading(all: Seq<Seq<char>>, from: int, i: int) -> bool {
    &&& from <= i < all.len()
    &&& has_prefix(all[i], "# "@)
    &&& forall|k: int| from <= k < i ==> !has_prefix(#[trigger] all[k], "# "@)
}

proof fn lemma_first_heading(all: Seq<Seq<char>>, from: int, at: int)
    requires
        0 <= from <= at,
        forall|k: int| from <= k < at && k < all.len() ==> !has_prefix(#[trigger] all[k], "# "@),
    ensures
        match title_line(all, at) {
            Some(i) => is_first_heading(all, from, i),
            None => forall|i: int| !is_first_heading(all, from, i),
        },
    decreases all.len() - at,
{
    if at < all.len() && !has_prefix(all[at], "# "@) {
        lemma_first_heading(all, from, at + 1);
    }
}

/// Where the frontmatter block of a note ends, if it has one: behind its closing line.
pub open spec fn is_body_start(body: Seq<char>, from: int) -> bool {
    let all = lines(body);
    ||| frontmatter_opening(body) is Some && is_block_end(all, from - 1)
    ||| from == 0 && (frontmatter_opening(body) is None || forall|e: int| !is_block_end(all, e))
}

/// Whether line `i` of a note is prose behind line `from`: no fence, and not between fences.
pub open spec fn is_prose_from(all: Seq<Seq<char>>, from: int, i: int) -> bool {
    &&& from <= i < all.len()
    &&& !is_fence(all[i])
    &&& Set::new(|k: int| from <= k < i && is_fence(all[k])).len() % 2 == 0
}

/// The rules differ.
proof fn lemma_rule_names()
    ensures
        "frontmatter-missing"@.len() == 19 && "frontmatter-missing"@[0] == 'f',
        "frontmatter-unterminated"@.len() == 24,
        "publish-missing"@.len() == 15 && "publish-missing"@[0] == 'p',
        "publish-not-boolean"@.len() == 19 && "publish-not-boolean"@[0] == 'p',
        "daily-h1-missing"@.len() == 16,
        "daily-h1-mismatch"@.len() == 17,
        "unfenced-config"@.len() == 15 && "unfenced-config"@[0] == 'u',
        "malformed-checkbox"@.len() == 18 && "malformed-checkbox"@[0] == 'm',
        "unterminated-fence"@.len() == 18 && "unterminated-fence"@[0] == 'u',
{
    reveal_strlit("frontmatter-missing");
    reveal_strlit("frontmatter-unterminated");
    reveal_strlit("publish-missing");
    reveal_strlit("publish-not-boolean");
    reveal_strlit("daily-h1-missing");
    reveal_strlit("daily-h1-mismatch");
    reveal_strlit("unfenced-config");
    reveal_strlit("malformed-checkbox");
    reveal_strlit("unterminated-fence");
}

proof fn lemma_reports_concat(a: Seq<IssueModel>, b: Seq<IssueModel>, rule: Seq<char>, line: int)
    ensures
        reports(a + b, rule, line) <==> reports(a, rule, line) || reports(b, rule, line),
{
    let c = a + b;
    if reports(a, rule, line) {
        let k = choose|k: int| 0 <= k < a.len() && is_report(#[trigger] a[k], rule, line);
        assert(c[k] == a[k]);
    }
    if reports(b, rule, line) {
        let k = choose|k: int| 0 <= k < b.len() && is_report(#[trigger] b[k], rule, line);
        assert(c[a.len() + k] == b[k]);
    }
    if reports(c, rule, line) {
        let k = choose|k: int| 0 <= k < c.len() && is_report(#[trigger] c[k], rule, line);
        if k < a.len() {
            assert(a[k] == c[k]);
        } else {
            assert(b[k - a.len()] == c[k]);
        }
    }
}

proof fn lemma_reports_push(a: Seq<IssueModel>, item: IssueModel, rule: Seq<char>, line: int)
    ensures
        reports(a.push(item), rule, line) <==> reports(a, rule, line) || is_report(item, rule, line),
{
    let one = seq![item];
    assert(a.push(item) =~= a + one);
    lemma_reports_concat(a, one, rule, line);
    lemma_reports_one(item, rule, line);
}

proof fn lemma_reports_one(item: IssueModel, rule: Seq<char>, line: int)
    ensures
        reports(seq![item], rule, line) <==> is_report(item, rule, line),
{
    let one = seq![item];
    assert(one[0] == item);
}

/// Whether line `i`, between the first line and line `n`, says something else of publishing than
/// `true` or `false`.
pub open spec fn says_otherwise(all: Seq<Seq<char>>, n: int, i: int) -> bool {
    &&& 1 <= i < n
    &&& speaks_of_publish(all[i])
    &&& !says_of_publish(all[i], "true"@)
    &&& !says_of_publish(all[i], "false"@)
}

proof fn lemma_publish_reports(
    path: Seq<char>,
    all: Seq<Seq<char>>,
    n: int,
    rule: Seq<char>,
    line: int,
)
    requires
        n <= all.len(),
    ensures
        reports(publish_issues(path, all, n), rule, line) <==> rule == "publish-not-boolean"@
            && says_otherwise(all, n, line - 1),
    decreases n,
{
    if n > 1 {
        lemma_publish_reports(path, all, n - 1, rule, line);
        let text = all[n - 1];
        lemma_speaks(text);
        lemma_says(text, "true"@);
        lemma_says(text, "false"@);
        let issues = publish_issues(path, all, n - 1);
        if publish_issues(path, all, n) != issues {
            lemma_reports_push(issues, publish_issues(path, all, n).last(), rule, line);
            assert(issues.push(publish_issues(path, all, n).last()) =~= publish_issues(
                path,
                all,
                n,
            ));
        }
    } else {
        assert(publish_issues(path, all, n) =~= Seq::<IssueModel>::empty());
    }
}

/// What is reported of the frontmatter.
pub open spec fn frontmatter_breach(body: Seq<char>, rule: Seq<char>, line: int) -> bool {
    let all = lines(body);
    let opened = frontmatter_opening(body) is Some;
    let closed = exists|e: int| is_block_end(all, e);
    ||| rule == "frontmatter-missing"@ && line == 1 && !opened
    ||| rule == "frontmatter-unterminated"@ && line == 1 && opened && !closed
    ||| rule == "publish-missing"@ && line == 1 && opened && exists|e: int|
        is_block_end(all, e) && forall|i: int| 1 <= i < e ==> !speaks_of_publish(#[trigger] all[i])
    ||| rule == "publish-not-boolean"@ && opened && exists|n: int| #[trigger]
        says_otherwise(all, n, line - 1) && (is_block_end(all, n) || n == all.len() && !closed)
}

proof fn lemma_block_end_once(all: Seq<Seq<char>>, d: int, e: int)
    requires
        is_block_end(all, d),
        is_block_end(all, e),
    ensures
        d == e,
{
    if d < e {
        assert(!is_rule(all[d]));
    }
    if e < d {
        assert(!is_rule(all[e]));
    }
}

proof fn lemma_frontmatter_reports(path: Seq<char>, body: Seq<char>, rule: Seq<char>, line: int)
    ensures
        reports(frontmatter_issues(path, body), rule, line) <==> frontmatter_breach(
            body,
            rule,
            line,
        ),
{
    lemma_rule_names();
    let all = lines(body);
    let issues = frontmatter_issues(path, body);
    lemma_block_end(all, 1);
    if frontmatter_opening(body) is None {
        lemma_reports_one(issues[0], rule, line);
        assert(issues =~= seq![issues[0]]);
    } else {
        match closing_line(all, 1) {
            None => {
                let n = all.len() as int;
                lemma_publish_reports(path, all, n, rule, line);
                lemma_reports_push(publish_issues(path, all, n), issues.last(), rule, line);
                assert(publish_issues(path, all, n).push(issues.last()) =~= issues);
            },
            Some(end) => {
                lemma_publish_reports(path, all, end, rule, line);
                assert forall|e: int| is_block_end(all, e) implies e == end by {
                    lemma_block_end_once(all, e, end);
                }
                let none = forall|i: int| 1 <= i < end ==> !speaks_of_publish(#[trigger] all[i]);
                assert(none <==> !declares_publish(all, end)) by {
                    assert forall|i: int| #![trigger all[i]] speaks_of_publish(all[i])
                        <==> crate::lint::line_key(all[i]) == "publish"@ by {
                        lemma_speaks(all[i]);
                    }
                }
                if !declares_publish(all, end) {
                    lemma_reports_push(publish_issues(path, all, end), issues.last(), rule, line);
                    assert(publish_issues(path, all, end).push(issues.last()) =~= issues);
                }
            },
        }
    }
}

/// What is reported of the title of a note whose text starts at line `from`.
pub open spec fn title_breach(
    path: Seq<char>,
    body: Seq<char>,
    from: int,
    rule: Seq<char>,
    line: int,
) -> bool {
    let all = lines(body);
    let stem = file_stem(path);
    &&& is_match_of(DAILY_STEM@, stem)
    &&& {
        ||| rule == "daily-h1-missing"@ && line == 0 && forall|i: int|
            !is_first_heading(all, from, i)
        ||| rule == "daily-h1-mismatch"@ && is_first_heading(all, from, line - 1) && trim(
            all[line - 1],
        ) != "# "@ + stem
    }
}

proof fn lemma_title_reports(path: Seq<char>, body: Seq<char>, rule: Seq<char>, line: int)
    ensures
        reports(title_issues(path, body), rule, line) <==> title_breach(
            path,
            body,
            frontmatter_end(body),
            rule,
            line,
        ),
{
    lemma_rule_names();
    let all = lines(body);
    let from = frontmatter_end(body);
    let issues = title_issues(path, body);
    lemma_block_end(all, 1);
    lemma_first_heading(all, from, from);
    if is_match_of(DAILY_STEM@, file_stem(path)) {
        match title_line(all, from) {
            None => {
                lemma_reports_one(issues[0], rule, line);
                assert(issues =~= seq![issues[0]]);
            },
            Some(i) => {
                if is_first_heading(all, from, line - 1) {
                    if i < line - 1 {
                        assert(!has_prefix(all[i], "# "@));
                    }
                    if line - 1 < i {
                        assert(!has_prefix(all[line - 1], "# "@));
                    }
                }
                if trim(all[i]) != "# "@ + file_stem(path) {
                    lemma_reports_one(issues[0], rule, line);
                    assert(issues =~= seq![issues[0]]);
                }
            },
        }
    }
}

proof fn lemma_one_line_reports(
    path: Seq<char>,
    text: Seq<char>,
    number: int,
    rule: Seq<char>,
    line: int,
)
    ensures
        reports(issues_of_line(path, text, number), rule, line) <==> line == number && (rule
            == "unfenced-config"@ && is_toml_table(text) || rule == "malformed-checkbox"@
            && is_malformed_checkbox(text)),
{
    lemma_rule_names();
    let issues = issues_of_line(path, text, number);
    if is_toml_table(text) && is_malformed_checkbox(text) {
        assert(issues =~= seq![issues[0]] + seq![issues[1]]);
        lemma_reports_concat(seq![issues[0]], seq![issues[1]], rule, line);
        lemma_reports_one(issues[0], rule, line);
        lemma_reports_one(issues[1], rule, line);
    } else if is_toml_table(text) || is_malformed_checkbox(text) {
        assert(issues =~= seq![issues[0]]);
        lemma_reports_one(issues[0], rule, line);
    } else {
        assert(issues =~= Seq::<IssueModel>::empty());
    }
}

/// What is reported of the prose lines before line `n`, counted from line `base` on.
pub open spec fn line_breach(
    tail: Seq<Seq<char>>,
    base: int,
    n: int,
    rule: Seq<char>,
    line: int,
) -> bool {
    let i = line - base - 1;
    &&& 0 <= i < n
    &&& !is_fence(tail[i])
    &&& !fenced_at(tail, i)
    &&& (rule == "unfenced-config"@ && is_toml_table(tail[i]) || rule == "malformed-checkbox"@
        && is_malformed_checkbox(tail[i]))
}

proof fn lemma_line_reports(
    path: Seq<char>,
    tail: Seq<Seq<char>>,
    base: int,
    n: int,
    rule: Seq<char>,
    line: int,
)
    requires
        n <= tail.len(),
    ensures
        reports(line_issues(path, tail, base, n), rule, line) <==> line_breach(
            tail,
            base,
            n,
            rule,
            line,
        ),
    decreases n,
{
    if n > 0 {
        lemma_line_reports(path, tail, base, n - 1, rule, line);
        if !(is_fence(tail[n - 1]) || fenced_at(tail, n - 1)) {
            lemma_one_line_reports(path, tail[n - 1], base + n, rule, line);
            lemma_reports_concat(
                line_issues(path, tail, base, n - 1),
                issues_of_line(path, tail[n - 1], base + n),
                rule,
                line,
            );
        }
    } else {
        assert(line_issues(path, tail, base, n) =~= Seq::<IssueModel>::empty());
    }
}

proof fn lemma_tail_parity(all: Seq<Seq<char>>, from: int, i: int)
    requires
        0 <= from <= i <= all.len(),
    ensures
        fenced_at(all.skip(from), i - from) <==> Set::new(
            |k: int| from <= k < i && is_fence(all[k]),
        ).len() % 2 == 1,
{
    let tail = all.skip(from);
    let here = fences(tail, i - from);
    law_fences_open_and_close_in_turn(tail, i - from);
    let there = Set::new(|k: int| from <= k < i && is_fence(all[k]));
    let moved = here.map(|k: int| k + from);
    assert forall|k: int| there.contains(k) <==> #[trigger] moved.contains(k) by {
        if there.contains(k) {
            assert(tail[k - from] == all[k]);
            assert(here.contains(k - from));
        }
        if moved.contains(k) {
            let j = choose|j: int| here.contains(j) && j + from == k;
            assert(tail[j] == all[k]);
        }
    }
    assert(moved =~= there);
    vstd::set_lib::lemma_map_size(here, moved, |k: int| k + from);
}

/// Whether line `line` of a note, behind line `from`, breaks a rule on prose.
pub open spec fn prose_breach(body: Seq<char>, from: int, rule: Seq<char>, line: int) -> bool {
    let all = lines(body);
    &&& is_prose_from(all, from, line - 1)
    &&& (rule == "unfenced-config"@ && is_toml_table(all[line - 1]) || rule
        == "malformed-checkbox"@ && is_malformed_checkbox(all[line - 1]))
}

/// Whether the last fence of a note whose text starts at line `from` is not closed.
pub open spec fn fence_breach(body: Seq<char>, from: int, rule: Seq<char>, line: int) -> bool {
    let all = lines(body);
    &&& rule == "unterminated-fence"@
    &&& line == 0
    &&& Set::new(|k: int| from <= k < all.len() && is_fence(all[k])).len() % 2 == 1
}

/// Each breach of the note format is reported under its rule and on its line, and nothing else is:
/// a frontmatter block that is missing, never closes or does not say whether to publish; a line of
/// it that says of publishing neither `true` nor `false`; a daily note without a heading or with
/// one that is not its date; a prose line that is a table header or almost a task item; and an odd
/// number of fences. What stands before line `from` is the frontmatter block.
pub proof fn law_breaches_are_reported(
    path: Seq<char>,
    body: Seq<char>,
    from: int,
    rule: Seq<char>,
    line: int,
)
    requires
        is_body_start(body, from),
    ensures
        reports(issues_of(path, body), rule, line) <==> {
            ||| frontmatter_breach(body, rule, line)
            ||| title_breach(path, body, from, rule, line)
            ||| prose_breach(body, from, rule, line)
            ||| fence_breach(body, from, rule, line)
        },
{
    let all = lines(body);
    let end = frontmatter_end(body);
    lemma_block_end(all, 1);
    if frontmatter_opening(body) is Some && is_block_end(all, from - 1) {
        lemma_block_end_once(all, from - 1, closing_line(all, 1)->0);
    }
    assert(end == from);
    let tail = all.skip(end);
    let front = frontmatter_issues(path, body);
    let title = title_issues(path, body);
    let prose = line_issues(path, tail, end, tail.len() as int);
    let fence = fence_issues(path, tail);
    lemma_reports_concat(front + title + prose, fence, rule, line);
    lemma_reports_concat(front + title, prose, rule, line);
    lemma_reports_concat(front, title, rule, line);
    lemma_frontmatter_reports(path, body, rule, line);
    lemma_title_reports(path, body, rule, line);
    lemma_line_reports(path, tail, end, tail.len() as int, rule, line);
    if end <= line - 1 < all.len() {
        lemma_tail_parity(all, end, line - 1);
        assert(tail[line - 1 - end] == all[line - 1]);
    }
    lemma_tail_parity(all, end, all.len() as int);
    if fenced_at(tail, tail.len() as int) {
        lemma_reports_one(fence[0], rule, line);
        assert(fence =~= seq![fence[0]]);
    } else {
        assert(fence =~= Seq::<IssueModel>::empty());
    }
}

/// Every issue of a note names the note.
pub proof fn law_issues_name_their_note(path: Seq<char>, body: Seq<char>)
    ensures
        forall|k: int|
            0 <= k < issues_of(path, body).len() ==> (#[trigger] issues_of(path, body)[k]).path
                == path,
{
    let all = lines(body);
    let end = frontmatter_end(body);
    let tail = all.skip(end);
    lemma_block_end(all, 1);
    lemma_publish_paths(path, all, all.len() as int);
    if let Some(e) = closing_line(all, 1) {
        lemma_publish_paths(path, all, e);
    }
    lemma_line_paths(path, tail, end, tail.len() as int);
    let front = frontmatter_issues(path, body);
    let title = title_issues(path, body);
    let prose = line_issues(path, tail, end, tail.len() as int);
    let fence = fence_issues(path, tail);
    let issues = issues_of(path, body);
    assert forall|k: int| 0 <= k < front.len() implies (#[trigger] front[k]).path == path by {}
    assert forall|k: int| 0 <= k < issues.len() implies (#[trigger] issues[k]).path == path by {
        let a = front.len() as int;
        let b = a + title.len();
        let c = b + prose.len();
        if k < a {
            assert(issues[k] == front[k]);
        } else if k < b {
            assert(issues[k] == title[k - a]);
        } else if k < c {
            assert(issues[k] == prose[k - b]);
        } else {
            assert(issues[k] == fence[k - c]);
        }
    }
}

proof fn lemma_publish_paths(path: Seq<char>, all: Seq<Seq<char>>, n: int)
    ensures
        forall|k: int|
            0 <= k < publish_issues(path, all, n).len() ==> (#[trigger] publish_issues(
                path,
                all,
                n,
            )[k]).path == path,
    decreases n,
{
    let issues = publish_issues(path, all, n);
    if n > 1 {
        lemma_publish_paths(path, all, n - 1);
        let before = publish_issues(path, all, n - 1);
        assert forall|k: int| 0 <= k < issues.len() implies (#[trigger] issues[k]).path == path by {
            if k < before.len() {
                assert(issues[k] == before[k]);
            }
        }
    }
}

proof fn lemma_line_paths(path: Seq<char>, tail: Seq<Seq<char>>, base: int, n: int)
    ensures
        forall|k: int|
            0 <= k < line_issues(path, tail, base, n).len() ==> (#[trigger] line_issues(
                path,
                tail,
                base,
                n,
            )[k]).path == path,
    decreases n,
{
    if n > 0 {
        lemma_line_paths(path, tail, base, n - 1);
        let before = line_issues(path, tail, base, n - 1);
        let more = issues_of_line(path, tail[n - 1], base + n);
        assert forall|k: int| 0 <= k < (before + more).len() implies (#[trigger] (before
            + more)[k]).path == path by {
            if k < before.len() {
                assert((before + more)[k] == before[k]);
            } else {
                assert((before + more)[k] == more[k - before.len()]);
            }
        }
    }
}

proof fn lemma_note_lints(notes: Seq<NoteFileModel>, n: int)
    requires
        0 <= n <= notes.len(),
    ensures
        forall|x: IssueModel| #[trigger]
            note_issues(notes, n).contains(x) <==> exists|r: int|
                0 <= r < n && issues_of((#[trigger] notes[r]).path, notes[r].body).contains(x),
    decreases n,
{
    if n > 0 {
        lemma_note_lints(notes, n - 1);
        let before = note_issues(notes, n - 1);
        let more = issues_of(notes[n - 1].path, notes[n - 1].body);
        assert forall|x: IssueModel| #[trigger] note_issues(notes, n).contains(x) <==> exists|r: int|
            0 <= r < n && issues_of((#[trigger] notes[r]).path, notes[r].body).contains(x) by {
            lemma_concat_contains(before, more, x);
            if more.contains(x) {
                assert(issues_of(notes[n - 1].path, notes[n - 1].body).contains(x));
            }
        }
    }
}

proof fn lemma_concat_contains<T>(a: Seq<T>, b: Seq<T>, x: T)
    ensures
        (a + b).contains(x) <==> a.contains(x) || b.contains(x),
{
    if a.contains(x) {
        let k = choose|k: int| 0 <= k < a.len() && a[k] == x;
        assert((a + b)[k] == x);
    }
    if b.contains(x) {
        let k = choose|k: int| 0 <= k < b.len() && b[k] == x;
        assert((a + b)[a.len() + k] == x);
    }
    if (a + b).contains(x) {
        let k = choose|k: int| 0 <= k < (a + b).len() && (a + b)[k] == x;
        if k < a.len() {
            assert(a[k] == x);
        } else {
            assert(b[k - a.len()] == x);
        }
    }
}

/// Whether an issue is one of a note of a source of notes.
pub open spec fn is_issue_of(
    sources: Seq<Source>,
    notes: Seq<Seq<NoteFileModel>>,
    x: IssueModel,
    i: int,
    r: int,
) -> bool {
    &&& 0 <= i < sources.len()
    &&& sources[i].kind == SourceKind::Notes
    &&& 0 <= r < notes[i].len()
    &&& issues_of(notes[i][r].path, notes[i][r].body).contains(x)
}

proof fn lemma_source_lints(
    sources: Seq<Source>,
    notes: Seq<Seq<NoteFileModel>>,
    n: int,
    x: IssueModel,
)
    requires
        0 <= n <= sources.len(),
    ensures
        source_issues(sources, notes, n).contains(x) <==> exists|i: int, r: int|
            i < n && #[trigger] is_issue_of(sources, notes, x, i, r),
    decreases n,
{
    if n > 0 {
        let less = n - 1;
        lemma_source_lints(sources, notes, less, x);
        let last = notes[n - 1];
        let before = source_issues(sources, notes, n - 1);
        let more = note_issues(last, last.len() as int);
        lemma_note_lints(last, last.len() as int);
        lemma_concat_contains(before, more, x);
        if sources[n - 1].kind == SourceKind::Notes && more.contains(x) {
            let r = choose|r: int|
                0 <= r < last.len() && issues_of((#[trigger] last[r]).path, last[r].body).contains(
                    x,
                );
            assert(is_issue_of(sources, notes, x, n - 1, r));
        }
        if before.contains(x) {
            let (i, r) = choose|i: int, r: int|
                i < less && #[trigger] is_issue_of(sources, notes, x, i, r);
            assert(i < n && is_issue_of(sources, notes, x, i, r));
        }
        if exists|i: int, r: int| i < n && #[trigger] is_issue_of(sources, notes, x, i, r) {
            let (i, r) = choose|i: int, r: int|
                i < n && #[trigger] is_issue_of(sources, notes, x, i, r);
            if i < less {
                assert(before.contains(x));
            } else {
                assert(issues_of(last[r].path, last[r].body).contains(x));
                assert(more.contains(x));
            }
        }
    }
}

/// Linting gives the issues of every note of every source of notes, and no others.
pub proof fn law_every_note_is_linted(
    sources: Seq<Source>,
    notes: Seq<Seq<NoteFileModel>>,
    x: IssueModel,
)
    ensures
        all_issues(sources, notes).contains(x) <==> exists|i: int, r: int| #[trigger]
            is_issue_of(sources, notes, x, i, r),
{
    let n = sources.len() as int;
    let issues = source_issues(sources, notes, n);
    lemma_source_lints(sources, notes, n, x);
    lemma_ordered(issues, issue_keys(issues));
    if exists|i: int, r: int| #[trigger] is_issue_of(sources, notes, x, i, r) {
        let (i, r) = choose|i: int, r: int| #[trigger] is_issue_of(sources, notes, x, i, r);
        assert(i < n && is_issue_of(sources, notes, x, i, r));
    }
}

} // verus!
