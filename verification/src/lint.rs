//! Enforce the strict note format. Every rule here is a contract that extraction and publishing
//! rely on; a note that fails is a note whose extraction is guesswork.

use vstd::prelude::*;

use crate::config::{Config, Source, SourceKind};
use crate::extract::{
    closes_frontmatter, closing_end, fence_line, fenced_at, frontmatter_opening, is_fence,
    law_loops_are_unchecked_boxes, lemma_closes_without_ending, lemma_closing_end_fits, loops_of,
    without_frontmatter,
};
use crate::order::{
    before, is_order, key_le, keys_ok, lemma_text_le_total, order_of, ordered, places, stable_order,
    text_le, KeyModel, KeyPart, PartModel, SortKey,
};
use crate::paths::{file_stem, file_stem_of};
use crate::patterns::{
    behind_bullet, is_checkbox, is_malformed_checkbox, is_match_of, is_toml_table, matches_per_line,
    DAILY_STEM, MALFORMED_CHECKBOX, TOML_TABLE,
};
use crate::scan::{NoteFile, NoteFileModel};
use crate::select::lemma_ordered;
use crate::text::{
    cat3, cat5, chars_of, find_char, has_prefix, lemma_lead_len_unique, lemma_lines_have_no_newline,
    lemma_one_line, lemma_segments_concat, lemma_tail_len, lines, lines_of, part_of, place_of,
    same_text, segments, starts_with, text_of, trim, trim_end_of, trim_of, trim_text, trimmed_end,
    CharClass,
};

verus! {

/// A breach of the note format.
#[derive(Debug)]
pub struct LintIssue {
    pub path: String,
    /// 1-based line number, 0 for whole-file issues.
    pub line: usize,
    pub rule: &'static str,
    pub message: String,
}

/// The value of a `LintIssue`.
pub struct IssueModel {
    pub path: Seq<char>,
    pub line: int,
    pub rule: Seq<char>,
    pub message: Seq<char>,
}

impl DeepView for LintIssue {
    type V = IssueModel;

    open spec fn deep_view(&self) -> IssueModel {
        IssueModel {
            path: self.path@,
            line: self.line as int,
            rule: self.rule@,
            message: self.message@,
        }
    }
}

/// The key of a `key: value` line.
pub open spec fn line_key(line: Seq<char>) -> Seq<char> {
    trim(line.take(place_of(line, ':') as int))
}

/// The value of a `key: value` line; empty where the line has no colon.
pub open spec fn line_value(line: Seq<char>) -> Seq<char> {
    if place_of(line, ':') < line.len() {
        trim(line.skip(place_of(line, ':') as int + 1))
    } else {
        ""@
    }
}

/// The key and the value of a `key: value` line.
pub fn key_and_value(line: &str) -> (r: (String, String))
    ensures
        r.0@ == line_key(line@),
        r.1@ == line_value(line@),
{
    let chars = chars_of(line);
    let n = find_char(&chars, ':');
    let total = chars.len();
    let left = part_of(&chars, 0, n);
    assert(left@ =~= line@.take(n as int));
    let key = text_of(&trim_of(&left, CharClass::White));
    if n < total {
        let right = part_of(&chars, n + 1, total);
        assert(right@ =~= line@.skip(n as int + 1));
        (key, text_of(&trim_of(&right, CharClass::White)))
    } else {
        (key, "".to_owned())
    }
}

/// The first line at or behind `from` that closes a frontmatter block.
pub open spec fn closing_line(lines: Seq<Seq<char>>, from: int) -> Option<int>
    decreases lines.len() - from,
{
    if from < 0 || from >= lines.len() {
        None
    } else if closes_frontmatter(lines[from]) {
        Some(from)
    } else {
        closing_line(lines, from + 1)
    }
}

/// Whether a value is `true` or `false`.
pub open spec fn is_boolean(value: Seq<char>) -> bool {
    value == "true"@ || value == "false"@
}

/// The issues of the `publish` lines among lines 1 up to `n`.
pub open spec fn publish_issues(path: Seq<char>, lines: Seq<Seq<char>>, n: int) -> Seq<IssueModel>
    decreases n,
{
    if n <= 1 {
        Seq::empty()
    } else {
        let before = publish_issues(path, lines, n - 1);
        let line = lines[n - 1];
        if line_key(line) == "publish"@ && !is_boolean(line_value(line)) {
            before.push(
                IssueModel {
                    path,
                    line: n,
                    rule: "publish-not-boolean"@,
                    message: "`publish: "@ + line_value(line)
                        + "` - must be literally true or false"@,
                },
            )
        } else {
            before
        }
    }
}

/// Whether one of the lines 1 up to `n` has the key `publish`.
pub open spec fn declares_publish(lines: Seq<Seq<char>>, n: int) -> bool {
    exists|i: int| 1 <= i < n && line_key(#[trigger] lines[i]) == "publish"@
}

/// The line behind the frontmatter block, 0 where there is no closed block.
pub open spec fn frontmatter_end(body: Seq<char>) -> int {
    match frontmatter_opening(body) {
        None => 0,
        Some(_) => match closing_line(lines(body), 1) {
            Some(i) => i + 1,
            None => 0,
        },
    }
}

/// The frontmatter must be there, be closed, and declare a boolean `publish` key.
pub open spec fn frontmatter_issues(path: Seq<char>, body: Seq<char>) -> Seq<IssueModel> {
    let all = lines(body);
    if frontmatter_opening(body) is None {
        seq![
            IssueModel {
                path,
                line: 1,
                rule: "frontmatter-missing"@,
                message: "note must start with a closed frontmatter block declaring `publish:`"@,
            },
        ]
    } else {
        match closing_line(all, 1) {
            None => publish_issues(path, all, all.len() as int).push(
                IssueModel {
                    path,
                    line: 1,
                    rule: "frontmatter-unterminated"@,
                    message: "frontmatter block never closes with `---`"@,
                },
            ),
            Some(end) => if declares_publish(all, end) {
                publish_issues(path, all, end)
            } else {
                publish_issues(path, all, end).push(
                    IssueModel {
                        path,
                        line: 1,
                        rule: "publish-missing"@,
                        message: "frontmatter must declare `publish: true` or `publish: false`"@,
                    },
                )
            },
        }
    }
}

/// The first line at or behind `from` that starts with `# `.
pub open spec fn title_line(lines: Seq<Seq<char>>, from: int) -> Option<int>
    decreases lines.len() - from,
{
    if from < 0 || from >= lines.len() {
        None
    } else if has_prefix(lines[from], "# "@) {
        Some(from)
    } else {
        title_line(lines, from + 1)
    }
}

/// A daily note must have a title that is the date of its file name.
pub open spec fn title_issues(path: Seq<char>, body: Seq<char>) -> Seq<IssueModel> {
    let all = lines(body);
    let stem = file_stem(path);
    if !is_match_of(DAILY_STEM@, stem) {
        Seq::empty()
    } else {
        match title_line(all, frontmatter_end(body)) {
            None => seq![
                IssueModel {
                    path,
                    line: 0,
                    rule: "daily-h1-missing"@,
                    message: "daily note has no `# "@ + stem + "` heading"@,
                },
            ],
            Some(i) => if trim(all[i]) == "# "@ + stem {
                Seq::empty()
            } else {
                seq![
                    IssueModel {
                        path,
                        line: i + 1,
                        rule: "daily-h1-mismatch"@,
                        message: "daily note H1 is '"@ + trim(all[i]) + "', expected '# "@ + stem
                            + "'"@,
                    },
                ]
            },
        }
    }
}

/// The issues of one prose line with the given number.
pub open spec fn issues_of_line(path: Seq<char>, line: Seq<char>, number: int) -> Seq<IssueModel> {
    let config = if is_toml_table(line) {
        seq![
            IssueModel {
                path,
                line: number,
                rule: "unfenced-config"@,
                message: "'"@ + trim(line)
                    + "' looks like a TOML table header, which parses as a wiki link; fence the config snippet"@,
            },
        ]
    } else {
        Seq::empty()
    };
    let checkbox = if is_malformed_checkbox(line) {
        seq![
            IssueModel {
                path,
                line: number,
                rule: "malformed-checkbox"@,
                message: "'"@ + trim(line) + "' is almost a checkbox; the loop syntax is `- [ ]`"@,
            },
        ]
    } else {
        Seq::empty()
    };
    config + checkbox
}

/// The issues of the first `n` lines behind line `base`.
pub open spec fn line_issues(
    path: Seq<char>,
    lines: Seq<Seq<char>>,
    base: int,
    n: int,
) -> Seq<IssueModel>
    decreases n,
{
    if n <= 0 {
        Seq::empty()
    } else {
        let before = line_issues(path, lines, base, n - 1);
        if is_fence(lines[n - 1]) || fenced_at(lines, n - 1) {
            before
        } else {
            before + issues_of_line(path, lines[n - 1], base + n)
        }
    }
}

/// The issue of a fence that is never closed.
pub open spec fn fence_issues(path: Seq<char>, lines: Seq<Seq<char>>) -> Seq<IssueModel> {
    if fenced_at(lines, lines.len() as int) {
        seq![
            IssueModel {
                path,
                line: 0,
                rule: "unterminated-fence"@,
                message: "odd number of ``` fences; the rest of the note is swallowed during extraction"@,
            },
        ]
    } else {
        Seq::empty()
    }
}

/// All issues of a note: of its frontmatter, its title, its lines, and its fences.
pub open spec fn issues_of(path: Seq<char>, body: Seq<char>) -> Seq<IssueModel> {
    let end = frontmatter_end(body);
    let tail = lines(body).skip(end);
    frontmatter_issues(path, body) + title_issues(path, body) + line_issues(
        path,
        tail,
        end,
        tail.len() as int,
    ) + fence_issues(path, tail)
}

fn issue(path: &str, line: usize, rule: &'static str, message: String) -> (r: LintIssue)
    ensures
        r.deep_view() == (IssueModel { path: path@, line: line as int, rule: rule@, message: message@ }),
{
    LintIssue { path: path.to_owned(), line, rule, message }
}

fn push_issue(issues: &mut Vec<LintIssue>, item: LintIssue)
    ensures
        final(issues).deep_view() == old(issues).deep_view().push(item.deep_view()),
{
    let ghost before = issues.deep_view();
    issues.push(item);
    assert(issues.deep_view() =~= before.push(item.deep_view()));
}

/// The line of the `---` that closes a frontmatter block opened on the first line.
pub fn closing_line_of(all_lines: &Vec<String>) -> (r: Option<usize>)
    ensures
        match r {
            Some(i) => closing_line(all_lines.deep_view(), 1) == Some(i as int) && 1 <= i
                < all_lines@.len(),
            None => closing_line(all_lines.deep_view(), 1) is None,
        },
{
    let ghost all = all_lines.deep_view();
    let mut i: usize = 1;
    while i < all_lines.len()
        invariant
            1 <= i,
            all == all_lines.deep_view(),
            closing_line(all, 1) == closing_line(all, i as int),
        decreases all.len() - i,
    {
        assert(all[i as int] == all_lines@[i as int]@);
        let bare = text_of(&trim_end_of(&chars_of(&all_lines[i]), CharClass::White));
        if same_text(&bare, "---") {
            return Some(i);
        }
        i += 1;
    }
    None
}

/// The issues of the frontmatter, and the line behind it.
fn check_frontmatter(path: &str, body: &str, all_lines: &Vec<String>) -> (r: (Vec<LintIssue>, usize))
    requires
        all_lines.deep_view() == lines(body@),
    ensures
        r.0.deep_view() == frontmatter_issues(path@, body@),
        r.1 == frontmatter_end(body@),
        r.1 <= all_lines@.len(),
{
    let ghost all = lines(body@);
    let mut issues: Vec<LintIssue> = Vec::new();
    assert(issues.deep_view() =~= Seq::<IssueModel>::empty());
    if !(starts_with(body, "---\n") || starts_with(body, "---\r\n")) {
        push_issue(
            &mut issues,
            issue(
                path,
                1,
                "frontmatter-missing",
                "note must start with a closed frontmatter block declaring `publish:`".to_owned(),
            ),
        );
        assert(issues.deep_view() =~= frontmatter_issues(path@, body@));
        return (issues, 0);
    }
    let closing = closing_line_of(all_lines);
    let stop: usize = match closing {
        Some(i) => i,
        None => all_lines.len(),
    };
    let mut publish_seen = false;
    let mut i: usize = 1;
    while i < stop
        invariant
            1 <= i,
            stop <= all.len(),
            i <= stop || i == 1,
            all == all_lines.deep_view(),
            publish_seen == declares_publish(all, i as int),
            issues.deep_view() == publish_issues(path@, all, i as int),
        decreases stop - i,
    {
        assert(all[i as int] == all_lines@[i as int]@);
        let (key, value) = key_and_value(&all_lines[i]);
        let ghost seen = publish_seen;
        if same_text(&key, "publish") {
            publish_seen = true;
            if !same_text(&value, "true") && !same_text(&value, "false") {
                push_issue(
                    &mut issues,
                    issue(
                        path,
                        i + 1,
                        "publish-not-boolean",
                        cat3("`publish: ", &value, "` - must be literally true or false"),
                    ),
                );
            }
        }
        proof {
            if seen {
                let k = choose|k: int| 1 <= k < i && line_key(#[trigger] all[k]) == "publish"@;
                assert(line_key(all[k]) == "publish"@);
            }
            if publish_seen && !seen {
                assert(line_key(all[i as int]) == "publish"@);
            }
        }
        i += 1;
    }
    proof {
        // Without a line behind the first, there is nothing to declare.
        if i > stop {
            assert(publish_issues(path@, all, stop as int) =~= Seq::<IssueModel>::empty());
            assert(!declares_publish(all, stop as int));
        }
    }
    match closing {
        None => {
            push_issue(
                &mut issues,
                issue(
                    path,
                    1,
                    "frontmatter-unterminated",
                    "frontmatter block never closes with `---`".to_owned(),
                ),
            );
            (issues, 0)
        },
        Some(end) => {
            let total = all_lines.len();
            assert(end < total);
            if !publish_seen {
                push_issue(
                    &mut issues,
                    issue(
                        path,
                        1,
                        "publish-missing",
                        "frontmatter must declare `publish: true` or `publish: false`".to_owned(),
                    ),
                );
            }
            (issues, end + 1)
        },
    }
}

fn title_line_of(all_lines: &Vec<String>, from: usize) -> (r: Option<usize>)
    ensures
        match r {
            Some(i) => title_line(all_lines.deep_view(), from as int) == Some(i as int) && i
                < all_lines@.len(),
            None => title_line(all_lines.deep_view(), from as int) is None,
        },
{
    let ghost all = all_lines.deep_view();
    let mut i: usize = from;
    while i < all_lines.len()
        invariant
            from <= i,
            all == all_lines.deep_view(),
            title_line(all, from as int) == title_line(all, i as int),
        decreases all.len() - i,
    {
        assert(all[i as int] == all_lines@[i as int]@);
        if starts_with(&all_lines[i], "# ") {
            return Some(i);
        }
        i += 1;
    }
    None
}

fn check_title(path: &str, body: &str, all_lines: &Vec<String>, end: usize) -> (r: Vec<LintIssue>)
    requires
        all_lines.deep_view() == lines(body@),
        end == frontmatter_end(body@),
    ensures
        r.deep_view() == title_issues(path@, body@),
{
    let ghost all = lines(body@);
    let mut issues: Vec<LintIssue> = Vec::new();
    assert(issues.deep_view() =~= Seq::<IssueModel>::empty());
    let stem = file_stem_of(path);
    let mut stems: Vec<String> = Vec::new();
    stems.push(stem.clone());
    let daily = matches_per_line(DAILY_STEM, &stems);
    assert(daily@[0] == is_match_of(DAILY_STEM@, stems@[0]@));
    if !daily[0] {
        return issues;
    }
    match title_line_of(all_lines, end) {
        None => {
            push_issue(
                &mut issues,
                issue(
                    path,
                    0,
                    "daily-h1-missing",
                    cat3("daily note has no `# ", &stem, "` heading"),
                ),
            );
            assert(issues.deep_view() =~= title_issues(path@, body@));
        },
        Some(i) => {
            assert(all[i as int] == all_lines@[i as int]@);
            let title = trim_text(&all_lines[i]);
            let total = all_lines.len();
            assert(i < total);
            let expected = cat3("# ", &stem, "");
            proof {
                reveal_strlit("");
                assert(expected@ =~= "# "@ + stem@);
            }
            if !same_text(&title, &expected) {
                push_issue(
                    &mut issues,
                    issue(
                        path,
                        i + 1,
                        "daily-h1-mismatch",
                        cat5("daily note H1 is '", &title, "', expected '# ", &stem, "'"),
                    ),
                );
                assert(issues.deep_view() =~= title_issues(path@, body@));
            }
        },
    }
    issues
}

fn check_lines(path: &str, tail_lines: &Vec<String>, base: usize) -> (r: Vec<LintIssue>)
    requires
        base + tail_lines@.len() <= usize::MAX,
        forall|i: int|
            0 <= i < tail_lines@.len() ==> !(#[trigger] tail_lines.deep_view()[i]).contains('\n'),
    ensures
        r.deep_view() == line_issues(
            path@,
            tail_lines.deep_view(),
            base as int,
            tail_lines@.len() as int,
        ) + fence_issues(path@, tail_lines.deep_view()),
{
    let ghost all = tail_lines.deep_view();
    assert forall|i: int| 0 <= i < tail_lines@.len() implies !(
    #[trigger] tail_lines@[i]@).contains('\n') by {
        assert(all[i] == tail_lines@[i]@);
    }
    let tables = matches_per_line(TOML_TABLE, tail_lines);
    let boxes = matches_per_line(MALFORMED_CHECKBOX, tail_lines);
    let mut issues: Vec<LintIssue> = Vec::new();
    let mut in_fence = false;
    let mut i: usize = 0;
    assert(issues.deep_view() =~= Seq::<IssueModel>::empty());
    while i < tail_lines.len()
        invariant
            all == tail_lines.deep_view(),
            base + all.len() <= usize::MAX,
            i <= all.len(),
            tables@.len() == all.len(),
            boxes@.len() == all.len(),
            forall|k: int| 0 <= k < all.len() ==> #[trigger] tables@[k] == is_toml_table(all[k]),
            forall|k: int|
                0 <= k < all.len() ==> #[trigger] boxes@[k] == is_malformed_checkbox(all[k]),
            in_fence == fenced_at(all, i as int),
            issues.deep_view() == line_issues(path@, all, base as int, i as int),
        decreases all.len() - i,
    {
        let ghost before = issues.deep_view();
        assert(all[i as int] == tail_lines@[i as int]@);
        let line = &tail_lines[i];
        if fence_line(line) {
            in_fence = !in_fence;
        } else if !in_fence {
            let bare = trim_text(line);
            let number = base + i + 1;
            if tables[i] {
                push_issue(
                    &mut issues,
                    issue(
                        path,
                        number,
                        "unfenced-config",
                        cat3(
                            "'",
                            &bare,
                            "' looks like a TOML table header, which parses as a wiki link; fence the config snippet",
                        ),
                    ),
                );
            }
            if boxes[i] {
                push_issue(
                    &mut issues,
                    issue(
                        path,
                        number,
                        "malformed-checkbox",
                        cat3(
                            "'",
                            &bare,
                            "' is almost a checkbox; the loop syntax is `- [ ]`",
                        ),
                    ),
                );
            }
            assert(issues.deep_view() =~= before + issues_of_line(path@, line@, number as int));
        }
        i += 1;
    }
    let ghost before = issues.deep_view();
    if in_fence {
        push_issue(
            &mut issues,
            issue(
                path,
                0,
                "unterminated-fence",
                "odd number of ``` fences; the rest of the note is swallowed during extraction".to_owned(),
            ),
        );
    }
    assert(issues.deep_view() =~= before + fence_issues(path@, all));
    issues
}

fn skip_lines(all_lines: &Vec<String>, from: usize) -> (r: Vec<String>)
    requires
        from <= all_lines@.len(),
    ensures
        r.deep_view() == all_lines.deep_view().skip(from as int),
{
    let ghost all = all_lines.deep_view();
    let mut out: Vec<String> = Vec::new();
    let mut i: usize = from;
    while i < all_lines.len()
        invariant
            all == all_lines.deep_view(),
            from <= i <= all.len(),
            out.deep_view() == all.subrange(from as int, i as int),
        decreases all.len() - i,
    {
        let ghost before = out.deep_view();
        assert(all[i as int] == all_lines@[i as int]@);
        out.push(all_lines[i].clone());
        assert(out.deep_view() =~= before.push(all[i as int]));
        assert(all.subrange(from as int, i + 1) =~= before.push(all[i as int]));
        i += 1;
    }
    assert(all.subrange(from as int, all.len() as int) =~= all.skip(from as int));
    out
}

fn append_issues(issues: &mut Vec<LintIssue>, more: Vec<LintIssue>)
    ensures
        final(issues).deep_view() == old(issues).deep_view() + more.deep_view(),
{
    let ghost before = issues.deep_view();
    let ghost added = more.deep_view();
    let mut rest = more;
    issues.append(&mut rest);
    assert(issues.deep_view() =~= before + added);
}

/// Lint one note body. The file name of `path` without extension is used for the daily title rule.
pub fn lint_note(path: &str, body: &str) -> (r: Vec<LintIssue>)
    ensures
        r.deep_view() == issues_of(path@, body@),
{
    let all_lines = lines_of(body);
    proof {
        lemma_lines_have_no_newline(body@);
    }
    let (mut issues, end) = check_frontmatter(path, body, &all_lines);
    append_issues(&mut issues, check_title(path, body, &all_lines, end));
    let total = all_lines.len();
    let tail_lines = skip_lines(&all_lines, end);
    assert(tail_lines.deep_view().len() + end == total);
    append_issues(&mut issues, check_lines(path, &tail_lines, end));
    assert(issues.deep_view() =~= issues_of(path@, body@));
    issues
}

/// The issues of the first `n` notes of a source.
pub open spec fn note_issues(notes: Seq<NoteFileModel>, n: int) -> Seq<IssueModel>
    decreases n,
{
    if n <= 0 {
        Seq::empty()
    } else {
        note_issues(notes, n - 1) + issues_of(notes[n - 1].path, notes[n - 1].body)
    }
}

/// The issues of the first `n` sources; only sources of notes count.
pub open spec fn source_issues(
    sources: Seq<Source>,
    notes: Seq<Seq<NoteFileModel>>,
    n: int,
) -> Seq<IssueModel>
    decreases n,
{
    if n <= 0 {
        Seq::empty()
    } else if sources[n - 1].kind == SourceKind::Notes {
        source_issues(sources, notes, n - 1) + note_issues(
            notes[n - 1],
            notes[n - 1].len() as int,
        )
    } else {
        source_issues(sources, notes, n - 1)
    }
}

/// What issues are sorted by: the note, then the line.
pub open spec fn issue_keys(issues: Seq<IssueModel>) -> Seq<KeyModel> {
    Seq::new(
        issues.len(),
        |k: int| seq![PartModel::Text(issues[k].path), PartModel::Num(issues[k].line)],
    )
}

/// All issues of the notes sources, ordered by path then line.
pub open spec fn all_issues(sources: Seq<Source>, notes: Seq<Seq<NoteFileModel>>) -> Seq<IssueModel> {
    let issues = source_issues(sources, notes, sources.len() as int);
    ordered(issues, issue_keys(issues))
}

fn issue_key(item: &LintIssue) -> (r: SortKey)
    ensures
        r.deep_view() == seq![
            PartModel::Text(item.deep_view().path),
            PartModel::Num(item.deep_view().line),
        ],
{
    let mut parts: Vec<KeyPart> = Vec::new();
    parts.push(KeyPart::Text(item.path.clone()));
    parts.push(KeyPart::Num(item.line as i128));
    let key = SortKey { parts };
    assert(key.deep_view() =~= seq![
        PartModel::Text(item.deep_view().path),
        PartModel::Num(item.deep_view().line),
    ]);
    key
}

fn sort_issues(issues: &Vec<LintIssue>) -> (r: Vec<LintIssue>)
    ensures
        r.deep_view() == ordered(issues.deep_view(), issue_keys(issues.deep_view())),
{
    let ghost all = issues.deep_view();
    let ghost km = issue_keys(all);
    let mut keys: Vec<SortKey> = Vec::new();
    let mut i: usize = 0;
    assert(keys.deep_view() =~= Seq::<KeyModel>::empty());
    while i < issues.len()
        invariant
            all == issues.deep_view(),
            km == issue_keys(all),
            i <= all.len(),
            keys.deep_view() == km.take(i as int),
        decreases all.len() - i,
    {
        let ghost before = keys.deep_view();
        assert(all[i as int] == issues@[i as int].deep_view());
        let key = issue_key(&issues[i]);
        keys.push(key);
        assert(keys.deep_view() =~= before.push(key.deep_view()));
        assert(km.take(i + 1) =~= before.push(key.deep_view()));
        i += 1;
    }
    assert(km.take(all.len() as int) =~= km);
    assert(keys_ok(keys.deep_view()));
    let order = stable_order(&keys);
    let mut out: Vec<LintIssue> = Vec::new();
    let mut l: usize = 0;
    assert(out.deep_view() =~= Seq::<IssueModel>::empty());
    while l < order.len()
        invariant
            l <= order@.len(),
            all == issues.deep_view(),
            km.len() == all.len(),
            places(order@) == order_of(km),
            is_order(km, places(order@)),
            out.deep_view() == ordered(all, km).take(l as int),
        decreases order@.len() - l,
    {
        let ghost before = out.deep_view();
        let slot = order[l];
        assert(places(order@)[l as int] == slot as int);
        let item = &issues[slot];
        assert(all[slot as int] == item.deep_view());
        let copy = issue(&item.path, item.line, item.rule, item.message.clone());
        out.push(copy);
        assert(out.deep_view() =~= before.push(all[slot as int]));
        assert(ordered(all, km).take(l + 1) =~= before.push(all[slot as int]));
        l += 1;
    }
    assert(places(order@).len() == order@.len());
    assert(ordered(all, km).take(all.len() as int) =~= ordered(all, km));
    out
}

fn lint_notes(notes: &Vec<NoteFile>) -> (r: Vec<LintIssue>)
    ensures
        r.deep_view() == note_issues(notes.deep_view(), notes@.len() as int),
{
    let ghost all = notes.deep_view();
    let mut issues: Vec<LintIssue> = Vec::new();
    let mut i: usize = 0;
    assert(issues.deep_view() =~= Seq::<IssueModel>::empty());
    while i < notes.len()
        invariant
            all == notes.deep_view(),
            i <= all.len(),
            issues.deep_view() == note_issues(all, i as int),
        decreases all.len() - i,
    {
        assert(all[i as int] == notes@[i as int].deep_view());
        append_issues(&mut issues, lint_note(&notes[i].path, &notes[i].body));
        i += 1;
    }
    issues
}

/// Lint every note of the notes sources. `notes` holds what was found in each source. The issues
/// are ordered by path then line.
pub fn lint_all(cfg: &Config, notes: &Vec<Vec<NoteFile>>) -> (r: Vec<LintIssue>)
    requires
        notes@.len() == cfg.sources@.len(),
    ensures
        r.deep_view() == all_issues(cfg.sources@, notes.deep_view()),
{
    let ghost found = notes.deep_view();
    let mut issues: Vec<LintIssue> = Vec::new();
    let mut i: usize = 0;
    assert(issues.deep_view() =~= Seq::<IssueModel>::empty());
    while i < cfg.sources.len()
        invariant
            found == notes.deep_view(),
            notes@.len() == cfg.sources@.len(),
            i <= cfg.sources@.len(),
            issues.deep_view() == source_issues(cfg.sources@, found, i as int),
        decreases cfg.sources@.len() - i,
    {
        assert(found[i as int] == notes@[i as int].deep_view());
        if cfg.sources[i].kind == SourceKind::Notes {
            append_issues(&mut issues, lint_notes(&notes[i]));
        }
        i += 1;
    }
    sort_issues(&issues)
}

/// A note without issues is a note that extraction and publishing can rely on: it starts with a
/// closed frontmatter block with a `publish` line, every such line says `true` or `false`, every
/// fence is closed, and no prose line is a stray table header or almost a task item.
pub proof fn law_clean_note_is_reliable(path: Seq<char>, body: Seq<char>)
    requires
        issues_of(path, body) == Seq::<IssueModel>::empty(),
    ensures
        frontmatter_opening(body) is Some,
        closing_line(lines(body), 1) matches Some(end) && declares_publish(lines(body), end)
            && forall|i: int|
            1 <= i < end && line_key(#[trigger] lines(body)[i]) == "publish"@ ==> is_boolean(
                line_value(lines(body)[i]),
            ),
        ({
            let tail = lines(body).skip(frontmatter_end(body));
            &&& !fenced_at(tail, tail.len() as int)
            &&& forall|i: int|
                0 <= i < tail.len() && !is_fence(tail[i]) && !fenced_at(tail, i)
                    ==> !#[trigger] is_toml_table(tail[i]) && !is_malformed_checkbox(tail[i])
        }),
{
    let end = frontmatter_end(body);
    let tail = lines(body).skip(end);
    let a = frontmatter_issues(path, body);
    let b = title_issues(path, body);
    let c = line_issues(path, tail, end, tail.len() as int);
    let d = fence_issues(path, tail);
    assert(issues_of(path, body).len() == a.len() + b.len() + c.len() + d.len());
    lemma_no_line_issues(path, tail, end, tail.len() as int);
    if let Some(close) = closing_line(lines(body), 1) {
        lemma_publish_issues(path, lines(body), close);
    }
}

proof fn lemma_publish_issues(path: Seq<char>, lines: Seq<Seq<char>>, n: int)
    ensures
        forall|k: int|
            0 <= k < publish_issues(path, lines, n).len() ==> (#[trigger] publish_issues(
                path,
                lines,
                n,
            )[k]).rule == "publish-not-boolean"@,
        publish_issues(path, lines, n).len() == 0 ==> forall|i: int|
            1 <= i < n && line_key(#[trigger] lines[i]) == "publish"@ ==> is_boolean(
                line_value(lines[i]),
            ),
    decreases n,
{
    if n > 1 {
        lemma_publish_issues(path, lines, n - 1);
    }
}

/// The rules on the frontmatter block as a whole.
pub open spec fn is_block_rule(rule: Seq<char>) -> bool {
    rule == "frontmatter-missing"@ || rule == "frontmatter-unterminated"@ || rule
        == "publish-missing"@
}

proof fn lemma_rules()
    ensures
        !is_block_rule("publish-not-boolean"@),
        !is_block_rule("daily-h1-missing"@),
        !is_block_rule("daily-h1-mismatch"@),
        !is_block_rule("unfenced-config"@),
        !is_block_rule("malformed-checkbox"@),
        !is_block_rule("unterminated-fence"@),
        "frontmatter-missing"@ != "frontmatter-unterminated"@,
        "frontmatter-missing"@ != "publish-missing"@,
        "frontmatter-unterminated"@ != "publish-missing"@,
{
    reveal_strlit("frontmatter-missing");
    reveal_strlit("frontmatter-unterminated");
    reveal_strlit("publish-missing");
    reveal_strlit("publish-not-boolean");
    reveal_strlit("daily-h1-missing");
    reveal_strlit("daily-h1-mismatch");
    reveal_strlit("unfenced-config");
    reveal_strlit("malformed-checkbox");
    reveal_strlit("unterminated-fence");
    assert("frontmatter-missing"@.len() == 19 && "frontmatter-missing"@[0] == 'f');
    assert("frontmatter-unterminated"@.len() == 24);
    assert("publish-missing"@.len() == 15 && "publish-missing"@[0] == 'p');
    assert("publish-not-boolean"@.len() == 19 && "publish-not-boolean"@[0] == 'p');
    assert("daily-h1-missing"@.len() == 16);
    assert("daily-h1-mismatch"@.len() == 17);
    assert("unfenced-config"@.len() == 15 && "unfenced-config"@[0] == 'u');
    assert("malformed-checkbox"@.len() == 18);
    assert("unterminated-fence"@.len() == 18);
}

proof fn lemma_line_rules(path: Seq<char>, tail: Seq<Seq<char>>, base: int, n: int)
    ensures
        forall|k: int|
            0 <= k < line_issues(path, tail, base, n).len() ==> !is_block_rule(
                (#[trigger] line_issues(path, tail, base, n)[k]).rule,
            ),
    decreases n,
{
    lemma_rules();
    if n > 0 {
        lemma_line_rules(path, tail, base, n - 1);
        let before = line_issues(path, tail, base, n - 1);
        let more = issues_of_line(path, tail[n - 1], base + n);
        assert forall|k: int| 0 <= k < more.len() implies !is_block_rule(
            (#[trigger] more[k]).rule,
        ) by {}
        let all = line_issues(path, tail, base, n);
        assert forall|k: int| 0 <= k < all.len() implies !is_block_rule(
            (#[trigger] all[k]).rule,
        ) by {
            if k < before.len() {
                assert(all[k] == before[k]);
            } else {
                assert(all[k] == more[k - before.len()]);
            }
        }
    }
}

proof fn lemma_closing_line(lines: Seq<Seq<char>>, from: int)
    requires
        0 <= from,
    ensures
        match closing_line(lines, from) {
            Some(i) => from <= i < lines.len() && closes_frontmatter(lines[i]),
            None => forall|i: int|
                from <= i < lines.len() ==> !closes_frontmatter(#[trigger] lines[i]),
        },
    decreases lines.len() - from,
{
    if from < lines.len() && !closes_frontmatter(lines[from]) {
        lemma_closing_line(lines, from + 1);
    }
}

proof fn lemma_closing_end_there(pieces: Seq<Seq<char>>)
    ensures
        match closing_end(pieces) {
            Some(n) => n > 0 && exists|i: int|
                0 <= i < pieces.len() && closes_frontmatter(#[trigger] pieces[i]),
            None => forall|i: int|
                0 <= i < pieces.len() ==> !closes_frontmatter(#[trigger] pieces[i]),
        },
    decreases pieces.len(),
{
    if pieces.len() > 0 {
        if closes_frontmatter(pieces[0]) {
            reveal_strlit("---");
            lemma_tail_len(pieces[0], CharClass::White);
            assert(trimmed_end(pieces[0], CharClass::White).len() == 3);
        } else {
            let rest = pieces.skip(1);
            lemma_closing_end_there(rest);
            match closing_end(rest) {
                Some(n) => {
                    let i = choose|i: int|
                        0 <= i < rest.len() && closes_frontmatter(#[trigger] rest[i]);
                    assert(pieces[i + 1] == rest[i]);
                },
                None => {
                    assert forall|i: int| 0 <= i < pieces.len() implies !closes_frontmatter(
                        #[trigger] pieces[i],
                    ) by {
                        if i > 0 {
                            assert(pieces[i] == rest[i - 1]);
                        }
                    }
                },
            }
        }
    }
}

/// A block that lint takes for closed is one that is stripped.
proof fn lemma_closed_is_stripped(body: Seq<char>)
    ensures
        (frontmatter_opening(body) is Some && closing_line(lines(body), 1) is Some) <==> (
        without_frontmatter(body) != body),
{
    if let Some(k) = frontmatter_opening(body) {
        reveal_strlit("---\n");
        reveal_strlit("---\r\n");
        let first = body.take(k);
        let rest = body.skip(k);
        let line = body.take(k - 1);
        assert(first =~= line.push('\n')) by {
            if k == 4 {
                assert(body.take(4)[3] == '\n');
            } else {
                assert(body.take(5)[4] == '\n');
            }
        }
        assert(!line.contains('\n')) by {
            assert forall|j: int| 0 <= j < line.len() implies line[j] != '\n' by {
                assert(line[j] == first[j]);
            }
        }
        lemma_one_line(line);
        lemma_segments_concat(first, rest);
        assert(first + rest =~= body);
        let all = lines(body);
        let pieces = segments(rest);
        assert(all.len() == pieces.len() + 1);
        assert forall|i: int| 0 <= i < pieces.len() implies closes_frontmatter(all[i + 1])
            == closes_frontmatter(#[trigger] pieces[i]) by {
            lemma_closes_without_ending(pieces[i]);
            assert(all[i + 1] == lines(rest)[i]);
        }
        lemma_closing_line(all, 1);
        lemma_closing_end_there(pieces);
        match closing_end(pieces) {
            Some(n) => {
                let i = choose|i: int|
                    0 <= i < pieces.len() && closes_frontmatter(#[trigger] pieces[i]);
                assert(closes_frontmatter(all[i + 1]));
                lemma_closing_end_fits(rest);
                assert(without_frontmatter(body).len() < body.len());
            },
            None => {
                if let Some(i) = closing_line(all, 1) {
                    assert(closes_frontmatter(pieces[i - 1]));
                }
            },
        }
    }
}

/// Whether an issue of a rule is among the issues.
pub open spec fn has_rule(issues: Seq<IssueModel>, rule: Seq<char>) -> bool {
    exists|k: int| 0 <= k < issues.len() && (#[trigger] issues[k]).rule == rule
}

/// Lint and stripping agree on what frontmatter is: the block is neither missing nor unterminated
/// exactly where there is something to strip. At most one issue is about the block as a whole, at
/// line 1, and the `publish` key is missing exactly where a block is stripped that has none.
pub proof fn law_lint_agrees_with_stripping(path: Seq<char>, body: Seq<char>)
    ensures
        (!has_rule(issues_of(path, body), "frontmatter-missing"@) && !has_rule(
            issues_of(path, body),
            "frontmatter-unterminated"@,
        )) <==> without_frontmatter(body) != body,
        has_rule(issues_of(path, body), "publish-missing"@) <==> (without_frontmatter(body) != body
            && !declares_publish(lines(body), frontmatter_end(body) - 1)),
        forall|k: int|
            0 <= k < issues_of(path, body).len() && is_block_rule(
                (#[trigger] issues_of(path, body)[k]).rule,
            ) ==> issues_of(path, body)[k].line == 1,
        forall|k: int, l: int|
            0 <= k < issues_of(path, body).len() && 0 <= l < issues_of(path, body).len()
                && is_block_rule((#[trigger] issues_of(path, body)[k]).rule) && is_block_rule(
                (#[trigger] issues_of(path, body)[l]).rule,
            ) ==> k == l,
{
    let all = lines(body);
    let end = frontmatter_end(body);
    let tail = all.skip(end);
    let a = frontmatter_issues(path, body);
    let b = title_issues(path, body);
    let c = line_issues(path, tail, end, tail.len() as int);
    let d = fence_issues(path, tail);
    let issues = issues_of(path, body);
    lemma_rules();
    lemma_line_rules(path, tail, end, tail.len() as int);
    lemma_publish_issues(path, all, all.len() as int);
    if let Some(close) = closing_line(all, 1) {
        lemma_publish_issues(path, all, close);
    }
    lemma_closed_is_stripped(body);
    assert forall|k: int| a.len() <= k < issues.len() implies !is_block_rule(
        (#[trigger] issues[k]).rule,
    ) by {
        let i = k - a.len();
        if i < b.len() {
            assert(issues[k] == b[i]);
        } else if i < b.len() + c.len() {
            assert(issues[k] == c[i - b.len()]);
        } else {
            assert(issues[k] == d[i - b.len() - c.len()]);
        }
    }
    let last = a.len() - 1;
    assert forall|k: int| 0 <= k < a.len() && is_block_rule((#[trigger] issues[k]).rule) implies k
        == last by {
        assert(issues[k] == a[k]);
    }
    if a.len() > 0 {
        assert(issues[last] == a[last]);
    }
    assert forall|rule: Seq<char>| is_block_rule(rule) implies (#[trigger] has_rule(issues, rule)
        <==> a.len() > 0 && a[last].rule == rule) by {
        if has_rule(issues, rule) {
            let k = choose|k: int| 0 <= k < issues.len() && (#[trigger] issues[k]).rule == rule;
            assert(k == last);
        }
    }
    assert(is_block_rule("frontmatter-missing"@));
    assert(is_block_rule("frontmatter-unterminated"@));
    assert(is_block_rule("publish-missing"@));
}

proof fn lemma_no_line_issues(path: Seq<char>, tail: Seq<Seq<char>>, base: int, n: int)
    requires
        0 <= n <= tail.len(),
        line_issues(path, tail, base, n).len() == 0,
    ensures
        forall|i: int|
            0 <= i < n && !is_fence(tail[i]) && !fenced_at(tail, i) ==> !#[trigger] is_toml_table(
                tail[i],
            ) && !is_malformed_checkbox(tail[i]),
    decreases n,
{
    if n > 0 {
        let before = line_issues(path, tail, base, n - 1);
        if !(is_fence(tail[n - 1]) || fenced_at(tail, n - 1)) {
            assert(line_issues(path, tail, base, n).len() == before.len() + issues_of_line(
                path,
                tail[n - 1],
                base + n,
            ).len());
        }
        lemma_no_line_issues(path, tail, base, n - 1);
    }
}

proof fn lemma_malformed_is_no_checkbox(line: Seq<char>)
    ensures
        !(is_malformed_checkbox(line) && is_checkbox(line)),
{
    if is_checkbox(line) {
        let rest = behind_bullet(line).skip(1);
        lemma_lead_len_unique(
            rest,
            CharClass::Space,
            if rest[0] == ' ' {
                1
            } else {
                0
            },
        );
    }
}

proof fn lemma_box_rule()
    ensures
        "malformed-checkbox"@ != "frontmatter-missing"@,
        "malformed-checkbox"@ != "frontmatter-unterminated"@,
        "malformed-checkbox"@ != "publish-missing"@,
        "malformed-checkbox"@ != "publish-not-boolean"@,
        "malformed-checkbox"@ != "daily-h1-missing"@,
        "malformed-checkbox"@ != "daily-h1-mismatch"@,
        "malformed-checkbox"@ != "unfenced-config"@,
        "malformed-checkbox"@ != "unterminated-fence"@,
{
    reveal_strlit("malformed-checkbox");
    reveal_strlit("frontmatter-missing");
    reveal_strlit("frontmatter-unterminated");
    reveal_strlit("publish-missing");
    reveal_strlit("publish-not-boolean");
    reveal_strlit("daily-h1-missing");
    reveal_strlit("daily-h1-mismatch");
    reveal_strlit("unfenced-config");
    reveal_strlit("unterminated-fence");
    assert("malformed-checkbox"@[0] == 'm');
    assert("frontmatter-missing"@[0] == 'f');
    assert("frontmatter-unterminated"@[0] == 'f');
    assert("publish-missing"@[0] == 'p');
    assert("publish-not-boolean"@[0] == 'p');
    assert("daily-h1-missing"@[0] == 'd');
    assert("daily-h1-mismatch"@[0] == 'd');
    assert("unfenced-config"@[0] == 'u');
    assert("unterminated-fence"@[0] == 'u');
}

proof fn lemma_box_issues(path: Seq<char>, tail: Seq<Seq<char>>, base: int, n: int)
    requires
        n <= tail.len(),
    ensures
        forall|k: int|
            0 <= k < line_issues(path, tail, base, n).len() && (#[trigger] line_issues(
                path,
                tail,
                base,
                n,
            )[k]).rule == "malformed-checkbox"@ ==> {
                let i = line_issues(path, tail, base, n)[k].line - base - 1;
                0 <= i < n && is_malformed_checkbox(tail[i])
            },
    decreases n,
{
    lemma_box_rule();
    if n > 0 {
        lemma_box_issues(path, tail, base, n - 1);
        let before = line_issues(path, tail, base, n - 1);
        let more = issues_of_line(path, tail[n - 1], base + n);
        let all = line_issues(path, tail, base, n);
        assert forall|k: int|
            0 <= k < all.len() && (#[trigger] all[k]).rule == "malformed-checkbox"@ implies {
            let i = all[k].line - base - 1;
            0 <= i < n && is_malformed_checkbox(tail[i])
        } by {
            if k < before.len() {
                assert(all[k] == before[k]);
            } else {
                assert(all[k] == more[k - before.len()]);
            }
        }
    }
}

/// A line that is reported as a malformed checkbox is a line of the note that opens no loop.
pub proof fn law_malformed_checkbox_is_no_loop(path: Seq<char>, body: Seq<char>)
    ensures
        forall|k: int|
            0 <= k < issues_of(path, body).len() && (#[trigger] issues_of(path, body)[k]).rule
                == "malformed-checkbox"@ ==> {
                let at = issues_of(path, body)[k].line - 1;
                &&& 0 <= at < lines(body).len()
                &&& is_malformed_checkbox(lines(body)[at])
                &&& forall|l: int|
                    0 <= l < loops_of(body).len() ==> (#[trigger] loops_of(body)[l]).line != at
            },
{
    let all = lines(body);
    let end = frontmatter_end(body);
    let tail = all.skip(end);
    let a = frontmatter_issues(path, body);
    let b = title_issues(path, body);
    let c = line_issues(path, tail, end, tail.len() as int);
    let d = fence_issues(path, tail);
    let issues = issues_of(path, body);
    lemma_box_rule();
    if let Some(close) = closing_line(all, 1) {
        lemma_closing_line(all, 1);
        lemma_publish_issues(path, all, close);
    }
    lemma_publish_issues(path, all, all.len() as int);
    lemma_box_issues(path, tail, end, tail.len() as int);
    law_loops_are_unchecked_boxes(body, all.len() as int);
    assert forall|k: int|
        0 <= k < issues.len() && (#[trigger] issues[k]).rule == "malformed-checkbox"@ implies {
        let at = issues[k].line - 1;
        &&& 0 <= at < all.len()
        &&& is_malformed_checkbox(all[at])
        &&& forall|l: int|
            0 <= l < loops_of(body).len() ==> (#[trigger] loops_of(body)[l]).line != at
    } by {
        let n = a.len() + b.len();
        if k < a.len() {
            assert(issues[k] == a[k]);
        } else if k < n {
            assert(issues[k] == b[k - a.len()]);
        } else if k < n + c.len() {
            assert(issues[k] == c[k - n]);
            let at = issues[k].line - 1;
            assert(tail[at - end] == all[at]);
            lemma_malformed_is_no_checkbox(all[at]);
        } else {
            assert(issues[k] == d[k - n - c.len()]);
        }
    }
}

/// The issues of all notes are ordered by path, and by line within a note; none is lost.
pub proof fn law_issues_are_ordered(sources: Seq<Source>, notes: Seq<Seq<NoteFileModel>>)
    ensures
        forall|k: int, l: int|
            0 <= k < l < all_issues(sources, notes).len() ==> {
                let a = #[trigger] all_issues(sources, notes)[k];
                let b = #[trigger] all_issues(sources, notes)[l];
                text_le(a.path, b.path) && (a.path == b.path ==> a.line <= b.line)
            },
        forall|x: IssueModel|
            source_issues(sources, notes, sources.len() as int).contains(x) ==> #[trigger] all_issues(
                sources,
                notes,
            ).contains(x),
{
    let issues = source_issues(sources, notes, sources.len() as int);
    let keys = issue_keys(issues);
    let list = all_issues(sources, notes);
    assert(keys_ok(keys));
    lemma_ordered(issues, keys);
    let order = order_of(keys);
    assert forall|k: int, l: int| 0 <= k < l < list.len() implies {
        let a = #[trigger] list[k];
        let b = #[trigger] list[l];
        text_le(a.path, b.path) && (a.path == b.path ==> a.line <= b.line)
    } by {
        let a = list[k];
        let b = list[l];
        assert(a == issues[order[k]] && b == issues[order[l]]);
        assert(before(keys, order[k], order[l]));
        reveal_with_fuel(key_le, 3);
        lemma_text_le_total(a.path, a.path);
        assert(keys[order[k]].skip(1)[0] == PartModel::Num(a.line));
        assert(keys[order[l]].skip(1)[0] == PartModel::Num(b.line));
    }
}

} // verus!
