//! The patterns of the note format and of source code, matched by the `regex` crate.

use vstd::prelude::*;

use crate::text::{is_white, lead_len, occurs_at, trim, trimmed_start, CharClass};

verus! {

/// A wiki link; the group is its target.
pub const WIKI_LINK: &'static str = r"\[\[([^\]\|#]+)(?:[#\|][^\]]*)?\]\]";

/// A backticked span; the group is its text.
pub const CODE_SPAN: &'static str = r"`([^`\n]{2,80})`";

/// A heading; the groups are its number signs and its text.
pub const HEADER: &'static str = r"^(#{1,6})\s+(.+)$";

/// A task item; the groups are its mark and its text.
pub const CHECKBOX: &'static str = r"^\s*[-*]\s+\[( |x|X)\]\s+(.+)$";

/// A line that is a TOML array-of-tables header.
pub const TOML_TABLE: &'static str = r"^\s*\[\[[a-z0-9_.-]+\]\]\s*$";

/// A task item whose box is written wrongly.
pub const MALFORMED_CHECKBOX: &'static str = r"^\s*[-*]\s*\[( {2,}|)\]|^\s*[-*]\[";

/// The file stem of a daily note.
pub const DAILY_STEM: &'static str = r"^\d{4}-\d{2}-\d{2}$";

/// Ruby: `class Foo` or `module Bar`.
pub const RUBY_DEF: &'static str = r"(?m)^\s*(?:class|module)\s+([A-Z][A-Za-z0-9_:]*)";

/// Python: `class Foo` or `def foo`.
pub const PYTHON_DEF: &'static str = r"(?m)^\s*(?:class|def)\s+([A-Za-z_][A-Za-z0-9_]*)";

/// JavaScript and TypeScript: classes, functions and bindings, exported or not.
pub const JS_DEF: &'static str =
    r"(?m)^\s*(?:export\s+(?:default\s+)?)?(?:class|function\*?|const|let|var)\s+([A-Za-z_$][A-Za-z0-9_$]*)";

/// Whether `p` is a pattern of this module; each of them is a valid regular expression.
pub open spec fn known_pattern(p: Seq<char>) -> bool {
    ||| p == WIKI_LINK@
    ||| p == CODE_SPAN@
    ||| p == HEADER@
    ||| p == CHECKBOX@
    ||| p == TOML_TABLE@
    ||| p == MALFORMED_CHECKBOX@
    ||| p == DAILY_STEM@
    ||| def_pattern(p)
}

/// Whether `p` is a pattern for the definitions of a programming language.
pub open spec fn def_pattern(p: Seq<char>) -> bool {
    p == RUBY_DEF@ || p == PYTHON_DEF@ || p == JS_DEF@
}

/// The groups of one match; the first is the whole match.
pub type Groups = Seq<Option<Seq<char>>>;

/// What `Regex::captures` finds first in a text.
pub uninterp spec fn captures_of(pattern: Seq<char>, text: Seq<char>) -> Option<Groups>;

/// What `Regex::is_match` answers for a text.
pub uninterp spec fn is_match_of(pattern: Seq<char>, text: Seq<char>) -> bool;

/// Whether the line is a heading: one to six number signs, white space, and something more.
pub open spec fn is_header(line: Seq<char>) -> bool {
    let n = lead_len(line, CharClass::Hash) as int;
    1 <= n <= 6 && n + 2 <= line.len() && is_white(line[n])
}

/// The text of a heading.
pub open spec fn header_text(line: Seq<char>) -> Seq<char> {
    trim(line.skip(lead_len(line, CharClass::Hash) as int))
}

/// What stands behind the bullet of a line and the white space round it.
pub open spec fn behind_bullet(line: Seq<char>) -> Seq<char> {
    trimmed_start(trimmed_start(line, CharClass::White).skip(1), CharClass::White)
}

/// Whether the first character of the line that is not white space is a bullet.
pub open spec fn has_bullet(line: Seq<char>) -> bool {
    let a = trimmed_start(line, CharClass::White);
    a.len() > 0 && (a[0] == '-' || a[0] == '*')
}

/// Whether the line is a bullet item: a bullet with white space behind it.
pub open spec fn is_bullet(line: Seq<char>) -> bool {
    let a = trimmed_start(line, CharClass::White);
    has_bullet(line) && a.len() > 1 && is_white(a[1])
}

/// Whether the line is a task item: a bullet, a box with a space or an `x`, and a text.
pub open spec fn is_checkbox(line: Seq<char>) -> bool {
    let a = trimmed_start(line, CharClass::White);
    let b = behind_bullet(line);
    &&& has_bullet(line)
    &&& a.len() > 1
    &&& is_white(a[1])
    &&& b.len() >= 5
    &&& b[0] == '['
    &&& b[1] == ' ' || b[1] == 'x' || b[1] == 'X'
    &&& b[2] == ']'
    &&& is_white(b[3])
}

/// The mark in the box of a task item.
pub open spec fn checkbox_mark(line: Seq<char>) -> char {
    behind_bullet(line)[1]
}

/// The text of a task item.
pub open spec fn checkbox_text(line: Seq<char>) -> Seq<char> {
    trim(behind_bullet(line).skip(3))
}

/// Whether `c` may stand in the name of a TOML table.
pub open spec fn is_table_char(c: char) -> bool {
    'a' <= c <= 'z' || '0' <= c <= '9' || c == '_' || c == '.' || c == '-'
}

/// Whether the line is a TOML array-of-tables header and nothing else.
pub open spec fn is_toml_table(line: Seq<char>) -> bool {
    let t = trim(line);
    &&& t.len() >= 5
    &&& t[0] == '[' && t[1] == '['
    &&& t[t.len() - 1] == ']' && t[t.len() - 2] == ']'
    &&& forall|i: int| 2 <= i < t.len() - 2 ==> is_table_char(#[trigger] t[i])
}

/// Whether the line is almost a task item: no space before the box, or an empty box, or a box
/// with more than one space.
pub open spec fn is_malformed_checkbox(line: Seq<char>) -> bool {
    let a = trimmed_start(line, CharClass::White);
    let b = behind_bullet(line);
    let k = lead_len(b.skip(1), CharClass::Space) as int;
    &&& has_bullet(line)
    &&& {
        ||| a.len() > 1 && a[1] == '['
        ||| b.len() > k + 1 && b[0] == '[' && k != 1 && b[k + 1] == ']'
    }
}

/// Whether the text is four digits, two digits and two digits with hyphens between them.
pub open spec fn is_date(s: Seq<char>) -> bool {
    &&& s.len() == 10
    &&& s[4] == '-'
    &&& s[7] == '-'
    &&& forall|i: int| 0 <= i < 10 && i != 4 && i != 7 ==> '0' <= #[trigger] s[i] <= '9'
}

/// The groups of `captures_of` where the text is one line.
pub open spec fn line_captures(pattern: Seq<char>, line: Seq<char>, found: Option<Groups>) -> bool {
    &&& pattern == HEADER@ ==> match found {
        Some(g) => is_header(line) && g.len() == 3 && g[2] is Some && trim(g[2]->0) == header_text(
            line,
        ),
        None => !is_header(line),
    }
    &&& pattern == CHECKBOX@ ==> match found {
        Some(g) => is_checkbox(line) && g.len() == 3 && g[1] == Some(seq![checkbox_mark(line)])
            && g[2] is Some && trim(g[2]->0) == checkbox_text(line),
        None => !is_checkbox(line),
    }
}

/// What a match on one line means.
pub open spec fn line_match(pattern: Seq<char>, line: Seq<char>, found: bool) -> bool {
    &&& pattern == TOML_TABLE@ ==> found == is_toml_table(line)
    &&& pattern == MALFORMED_CHECKBOX@ ==> found == is_malformed_checkbox(line)
    &&& pattern == DAILY_STEM@ && vstd::utf8::is_ascii_chars(line) ==> found == is_date(line)
}

/// A match in a text: where it ends, and where its group starts and ends.
pub struct Match {
    pub end: int,
    pub from: int,
    pub to: int,
}

/// The first place at or behind `i` that is the end of the text or holds a character for which
/// `within` does not hold.
pub open spec fn run_end(s: Seq<char>, i: int, within: spec_fn(char) -> bool) -> int
    decreases s.len() - i,
{
    if 0 <= i < s.len() && within(s[i]) {
        run_end(s, i + 1, within)
    } else {
        i
    }
}

/// The place behind the white space at `i`.
pub open spec fn behind_white(s: Seq<char>, i: int) -> int {
    run_end(s, i, |c: char| is_white(c))
}

/// Whether the character at `i` is `c`.
pub open spec fn char_at(s: Seq<char>, i: int, c: char) -> bool {
    0 <= i < s.len() && s[i] == c
}

/// A wiki link at `i`: two brackets, a target, perhaps an anchor or an alias, and two brackets.
pub open spec fn wiki_link_at(s: Seq<char>, i: int) -> Option<Match> {
    let from = i + 2;
    let to = run_end(s, from, |c: char| c != ']' && c != '|' && c != '#');
    let close = if char_at(s, to, '#') || char_at(s, to, '|') {
        run_end(s, to + 1, |c: char| c != ']')
    } else {
        to
    };
    if char_at(s, i, '[') && char_at(s, i + 1, '[') && from < to && char_at(s, close, ']')
        && char_at(s, close + 1, ']') {
        Some(Match { end: close + 2, from, to })
    } else {
        None
    }
}

/// A backticked span at `i`: two to eighty characters of one line between two backticks.
pub open spec fn code_span_at(s: Seq<char>, i: int) -> Option<Match> {
    let from = i + 1;
    let to = run_end(s, from, |c: char| c != '`' && c != '\n');
    if char_at(s, i, '`') && 2 <= to - from <= 80 && char_at(s, to, '`') {
        Some(Match { end: to + 1, from, to })
    } else {
        None
    }
}

/// The place behind the first of the words that stands at `i`, and behind the white space that must
/// follow it.
pub open spec fn behind_word(s: Seq<char>, i: int, words: Seq<Seq<char>>) -> Option<int>
    decreases words.len(),
{
    if words.len() == 0 {
        None
    } else {
        let w = i + words[0].len();
        if occurs_at(s, words[0], i) && behind_white(s, w) > w {
            Some(behind_white(s, w))
        } else {
            behind_word(s, i, words.skip(1))
        }
    }
}

/// The place behind a word and white space at `i` where they stand there, else `i`.
pub open spec fn past_word(s: Seq<char>, i: int, word: Seq<char>) -> int {
    match behind_word(s, i, seq![word]) {
        Some(k) => k,
        None => i,
    }
}

/// Whether `c` is an ASCII letter.
pub open spec fn is_letter(c: char) -> bool {
    'a' <= c <= 'z' || 'A' <= c <= 'Z'
}

/// Whether `c` is an ASCII letter or digit.
pub open spec fn is_alphanumeric(c: char) -> bool {
    is_letter(c) || '0' <= c <= '9'
}

/// The match of a definition whose name starts at `from`, where a name with this first character
/// and these further characters stands there.
pub open spec fn name_at(
    s: Seq<char>,
    from: Option<int>,
    first: spec_fn(char) -> bool,
    further: spec_fn(char) -> bool,
) -> Option<Match> {
    match from {
        Some(k) => if 0 <= k < s.len() && first(s[k]) {
            let to = run_end(s, k + 1, further);
            Some(Match { end: to, from: k, to })
        } else {
            None
        },
        None => None,
    }
}

/// A definition at the start of a line, behind white space, in the language of the pattern.
pub open spec fn definition_at(pattern: Seq<char>, s: Seq<char>, i: int) -> Option<Match> {
    let at = behind_white(s, i);
    if !(i == 0 || char_at(s, i - 1, '\n')) {
        None
    } else if pattern == RUBY_DEF@ {
        name_at(
            s,
            behind_word(s, at, seq!["class"@, "module"@]),
            |c: char| 'A' <= c <= 'Z',
            |c: char| is_alphanumeric(c) || c == '_' || c == ':',
        )
    } else if pattern == PYTHON_DEF@ {
        name_at(
            s,
            behind_word(s, at, seq!["class"@, "def"@]),
            |c: char| is_letter(c) || c == '_',
            |c: char| is_alphanumeric(c) || c == '_',
        )
    } else {
        let exported = past_word(s, at, "export"@);
        let start = if exported > at {
            past_word(s, exported, "default"@)
        } else {
            at
        };
        name_at(
            s,
            behind_word(
                s,
                start,
                seq!["class"@, "function"@, "function*"@, "const"@, "let"@, "var"@],
            ),
            |c: char| is_letter(c) || c == '_' || c == '$',
            |c: char| is_alphanumeric(c) || c == '_' || c == '$',
        )
    }
}

/// The match of a pattern that starts at `i`, if there is one.
pub open spec fn match_at(pattern: Seq<char>, s: Seq<char>, i: int) -> Option<Match> {
    if pattern == WIKI_LINK@ {
        wiki_link_at(s, i)
    } else if pattern == CODE_SPAN@ {
        code_span_at(s, i)
    } else {
        definition_at(pattern, s, i)
    }
}

/// The matches at or behind `i`, the leftmost first and none inside another.
pub open spec fn captures_from(pattern: Seq<char>, s: Seq<char>, i: int) -> Seq<Groups>
    decreases s.len() - i,
    via captures_from_decreases
{
    if i < 0 || i >= s.len() {
        Seq::empty()
    } else {
        match match_at(pattern, s, i) {
            Some(found) => seq![
                seq![Some(s.subrange(i, found.end)), Some(s.subrange(found.from, found.to))],
            ] + captures_from(pattern, s, found.end),
            None => captures_from(pattern, s, i + 1),
        }
    }
}

#[via_fn]
proof fn captures_from_decreases(pattern: Seq<char>, s: Seq<char>, i: int) {
    if 0 <= i < s.len() {
        lemma_match_at(pattern, s, i);
    }
}

/// All matches of a pattern in a text; the group takes part in every one.
pub open spec fn all_captures_of(pattern: Seq<char>, text: Seq<char>) -> Seq<Groups> {
    captures_from(pattern, text, 0)
}

proof fn lemma_run_end(s: Seq<char>, i: int, within: spec_fn(char) -> bool)
    requires
        0 <= i,
    ensures
        i <= run_end(s, i, within),
        i <= s.len() ==> run_end(s, i, within) <= s.len(),
        forall|k: int| i <= k < run_end(s, i, within) ==> within(#[trigger] s[k]),
    decreases s.len() - i,
{
    if i < s.len() && within(s[i]) {
        lemma_run_end(s, i + 1, within);
    }
}

proof fn lemma_behind_word(s: Seq<char>, i: int, words: Seq<Seq<char>>)
    requires
        0 <= i,
    ensures
        behind_word(s, i, words) matches Some(k) ==> i < k,
    decreases words.len(),
{
    if words.len() > 0 {
        lemma_behind_word(s, i, words.skip(1));
    }
}

/// A match ends behind its start, and its group lies in it.
pub proof fn lemma_match_at(pattern: Seq<char>, s: Seq<char>, i: int)
    requires
        0 <= i < s.len(),
    ensures
        match_at(pattern, s, i) matches Some(found) ==> i < found.end <= s.len() && i <= found.from
            < found.to <= found.end,
{
    if pattern == WIKI_LINK@ {
        let from = i + 2;
        lemma_run_end(s, from, |c: char| c != ']' && c != '|' && c != '#');
        let to = run_end(s, from, |c: char| c != ']' && c != '|' && c != '#');
        lemma_run_end(s, to + 1, |c: char| c != ']');
    } else if pattern == CODE_SPAN@ {
        lemma_run_end(s, i + 1, |c: char| c != '`' && c != '\n');
    } else {
        let at = behind_white(s, i);
        lemma_run_end(s, i, |c: char| is_white(c));
        lemma_behind_word(s, at, seq!["class"@, "module"@]);
        lemma_behind_word(s, at, seq!["class"@, "def"@]);
        lemma_behind_word(s, at, seq!["export"@]);
        let exported = past_word(s, at, "export"@);
        lemma_behind_word(s, exported, seq!["default"@]);
        let start = if exported > at {
            past_word(s, exported, "default"@)
        } else {
            at
        };
        lemma_behind_word(
            s,
            start,
            seq!["class"@, "function"@, "function*"@, "const"@, "let"@, "var"@],
        );
        if let Some(found) = definition_at(pattern, s, i) {
            lemma_run_end(
                s,
                found.from + 1,
                |c: char| is_alphanumeric(c) || c == '_' || c == ':',
            );
            lemma_run_end(s, found.from + 1, |c: char| is_alphanumeric(c) || c == '_');
            lemma_run_end(
                s,
                found.from + 1,
                |c: char| is_alphanumeric(c) || c == '_' || c == '$',
            );
        }
    }
}

/// Every match has its group.
pub proof fn lemma_captures_from(pattern: Seq<char>, s: Seq<char>, i: int)
    requires
        0 <= i,
    ensures
        forall|k: int|
            0 <= k < captures_from(pattern, s, i).len() ==> (#[trigger] captures_from(
                pattern,
                s,
                i,
            )[k]).len() == 2 && captures_from(pattern, s, i)[k][1] is Some,
    decreases s.len() - i,
{
    if i < s.len() {
        lemma_match_at(pattern, s, i);
        match match_at(pattern, s, i) {
            Some(found) => {
                lemma_captures_from(pattern, s, found.end);
                let rest = captures_from(pattern, s, found.end);
                let all = captures_from(pattern, s, i);
                assert forall|k: int| 0 <= k < all.len() implies (#[trigger] all[k]).len() == 2
                    && all[k][1] is Some by {
                    if k > 0 {
                        assert(all[k] == rest[k - 1]);
                    }
                }
            },
            None => {
                lemma_captures_from(pattern, s, i + 1);
            },
        }
    }
}

/// What holds of the group of every link and of every span.
pub open spec fn bare_group(pattern: Seq<char>, group: Seq<char>) -> bool {
    &&& pattern == WIKI_LINK@ ==> !group.contains(']') && !group.contains('|') && !group.contains(
        '#',
    )
    &&& pattern == CODE_SPAN@ ==> 2 <= group.len() <= 80 && !group.contains('`') && !group.contains(
        '\n',
    )
}

/// The target of a link holds no bracket, anchor or alias, and the text of a span is short and on
/// one line.
pub proof fn lemma_bare_groups(pattern: Seq<char>, s: Seq<char>, i: int)
    requires
        0 <= i,
    ensures
        forall|k: int|
            0 <= k < captures_from(pattern, s, i).len() ==> bare_group(
                pattern,
                (#[trigger] captures_from(pattern, s, i)[k])[1]->0,
            ),
    decreases s.len() - i,
{
    lemma_two_patterns();
    if i < s.len() {
        lemma_match_at(pattern, s, i);
        lemma_run_end(s, i + 2, |c: char| c != ']' && c != '|' && c != '#');
        lemma_run_end(s, i + 1, |c: char| c != '`' && c != '\n');
        match match_at(pattern, s, i) {
            Some(found) => {
                lemma_bare_groups(pattern, s, found.end);
                let rest = captures_from(pattern, s, found.end);
                let all = captures_from(pattern, s, i);
                let group = s.subrange(found.from, found.to);
                assert(forall|k: int|
                    0 <= k < group.len() ==> #[trigger] group[k] == s[found.from + k]);
                assert(bare_group(pattern, group));
                assert forall|k: int| 0 <= k < all.len() implies bare_group(
                    pattern,
                    (#[trigger] all[k])[1]->0,
                ) by {
                    if k > 0 {
                        assert(all[k] == rest[k - 1]);
                    }
                }
            },
            None => {
                lemma_bare_groups(pattern, s, i + 1);
            },
        }
    }
}

proof fn lemma_run_end_is(s: Seq<char>, i: int, within: spec_fn(char) -> bool, to: int)
    requires
        0 <= i <= to <= s.len(),
        forall|k: int| i <= k < to ==> within(#[trigger] s[k]),
        to < s.len() ==> !within(s[to]),
    ensures
        run_end(s, i, within) == to,
{
    lemma_run_end(s, i, within);
    lemma_run_end_stops(s, i, within);
    let end = run_end(s, i, within);
    if end < to {
        assert(within(s[end]));
    }
    if to < end {
        assert(within(s[to]));
    }
}

proof fn lemma_run_end_stops(s: Seq<char>, i: int, within: spec_fn(char) -> bool)
    requires
        0 <= i,
    ensures
        run_end(s, i, within) < s.len() ==> !within(s[run_end(s, i, within)]),
    decreases s.len() - i,
{
    if i < s.len() && within(s[i]) {
        lemma_run_end_stops(s, i + 1, within);
    }
}

proof fn lemma_run_end_shift(s: Seq<char>, n: int, i: int, within: spec_fn(char) -> bool)
    requires
        0 <= n <= s.len(),
        0 <= i,
    ensures
        run_end(s, n + i, within) == n + run_end(s.skip(n), i, within),
    decreases s.len() - n - i,
{
    if n + i < s.len() && within(s[n + i]) {
        lemma_run_end_shift(s, n, i + 1, within);
    }
}

/// What stands before a link or a span does not change which of them follow it.
proof fn lemma_captures_shift(pattern: Seq<char>, s: Seq<char>, n: int, i: int)
    requires
        pattern == WIKI_LINK@ || pattern == CODE_SPAN@,
        0 <= n <= s.len(),
        0 <= i,
    ensures
        captures_from(pattern, s, n + i) == captures_from(pattern, s.skip(n), i),
    decreases s.len() - n - i,
{
    let t = s.skip(n);
    if i < t.len() {
        lemma_match_at(pattern, s, n + i);
        lemma_match_at(pattern, t, i);
        lemma_run_end(t, i + 2, |c: char| c != ']' && c != '|' && c != '#');
        lemma_run_end_shift(s, n, i + 2, |c: char| c != ']' && c != '|' && c != '#');
        let to = run_end(t, i + 2, |c: char| c != ']' && c != '|' && c != '#');
        lemma_run_end_shift(s, n, to + 1, |c: char| c != ']');
        lemma_run_end(t, to + 1, |c: char| c != ']');
        lemma_run_end(t, i + 1, |c: char| c != '`' && c != '\n');
        lemma_run_end_shift(s, n, i + 1, |c: char| c != '`' && c != '\n');
        match match_at(pattern, t, i) {
            Some(found) => {
                assert(match_at(pattern, s, n + i) == Some(
                    Match { end: n + found.end, from: n + found.from, to: n + found.to },
                ));
                lemma_captures_shift(pattern, s, n, found.end);
                assert(s.subrange(n + i, n + found.end) =~= t.subrange(i, found.end));
                assert(s.subrange(n + found.from, n + found.to) =~= t.subrange(
                    found.from,
                    found.to,
                ));
            },
            None => {
                assert(match_at(pattern, s, n + i) is None);
                lemma_captures_shift(pattern, s, n, i + 1);
            },
        }
    }
}

/// No link starts without a bracket, and no span without a backtick.
proof fn lemma_captures_skip(pattern: Seq<char>, s: Seq<char>, n: int)
    requires
        pattern == WIKI_LINK@ || pattern == CODE_SPAN@,
        0 <= n <= s.len(),
        forall|k: int|
            0 <= k < n ==> #[trigger] s[k] != (if pattern == WIKI_LINK@ {
                '['
            } else {
                '`'
            }),
    ensures
        captures_from(pattern, s, 0) == captures_from(pattern, s, n),
    decreases n,
{
    lemma_two_patterns();
    if n > 0 {
        lemma_captures_skip(pattern, s, n - 1);
        assert(match_at(pattern, s, n - 1) is None);
    }
}

proof fn lemma_two_patterns()
    ensures
        WIKI_LINK@ != CODE_SPAN@,
{
    reveal_strlit(r"\[\[([^\]\|#]+)(?:[#\|][^\]]*)?\]\]");
    reveal_strlit(r"`([^`\n]{2,80})`");
    assert(WIKI_LINK@[0] == '\\');
    assert(CODE_SPAN@[0] == '`');
}

/// The first match, and those behind it.
proof fn lemma_captures_first(pattern: Seq<char>, s: Seq<char>, at: int, found: Match)
    requires
        pattern == WIKI_LINK@ || pattern == CODE_SPAN@,
        0 <= at < s.len(),
        forall|k: int|
            0 <= k < at ==> #[trigger] s[k] != (if pattern == WIKI_LINK@ {
                '['
            } else {
                '`'
            }),
        match_at(pattern, s, at) == Some(found),
    ensures
        all_captures_of(pattern, s) == seq![
            seq![Some(s.subrange(at, found.end)), Some(s.subrange(found.from, found.to))],
        ] + all_captures_of(pattern, s.skip(found.end)),
{
    lemma_match_at(pattern, s, at);
    lemma_captures_skip(pattern, s, at);
    lemma_captures_shift(pattern, s, found.end, 0);
}

proof fn lemma_wiki_link_there(s: Seq<char>, at: int, to: int, close: int)
    requires
        0 <= at,
        at + 2 < to <= close,
        close + 2 <= s.len(),
        s[at] == '[' && s[at + 1] == '[' && s[close] == ']' && s[close + 1] == ']',
        forall|k: int| at + 2 <= k < to ==> #[trigger] s[k] != ']' && s[k] != '|' && s[k] != '#',
        to < close ==> s[to] == '#' || s[to] == '|',
        forall|k: int| to < k < close ==> #[trigger] s[k] != ']',
    ensures
        wiki_link_at(s, at) == Some(Match { end: close + 2, from: at + 2, to }),
{
    lemma_run_end_is(s, at + 2, |c: char| c != ']' && c != '|' && c != '#', to);
    if to < close {
        lemma_run_end_is(s, to + 1, |c: char| c != ']', close);
    }
}

proof fn lemma_code_span_there(s: Seq<char>, at: int, to: int)
    requires
        0 <= at,
        at + 3 <= to <= at + 81,
        to < s.len(),
        s[at] == '`' && s[to] == '`',
        forall|k: int| at < k < to ==> #[trigger] s[k] != '`' && s[k] != '\n',
    ensures
        code_span_at(s, at) == Some(Match { end: to + 1, from: at + 1, to }),
{
    lemma_run_end_is(s, at + 1, |c: char| c != '`' && c != '\n', to);
}

proof fn lemma_link_parts(
    lead: Seq<char>,
    target: Seq<char>,
    more: Seq<char>,
    rest: Seq<char>,
)
    ensures
        ({
            let s = lead + ("[["@ + target + more + "]]"@) + rest;
            let at = lead.len() as int;
            let to = at + 2 + target.len();
            let close = to + more.len();
            &&& s.len() == close + 2 + rest.len()
            &&& s[at] == '[' && s[at + 1] == '[' && s[close] == ']' && s[close + 1] == ']'
            &&& forall|k: int| 0 <= k < at ==> #[trigger] s[k] == lead[k]
            &&& forall|k: int| at + 2 <= k < to ==> #[trigger] s[k] == target[k - at - 2]
            &&& forall|k: int| to <= k < close ==> #[trigger] s[k] == more[k - to]
            &&& s.subrange(at, close + 2) == "[["@ + target + more + "]]"@
            &&& s.subrange(at + 2, to) == target
            &&& s.skip(close + 2) == rest
        }),
{
    reveal_strlit("[[");
    reveal_strlit("]]");
    let whole = "[["@ + target + more + "]]"@;
    let s = lead + whole + rest;
    let at = lead.len() as int;
    let to = at + 2 + target.len();
    let close = to + more.len();
    assert(whole.len() == 4 + target.len() + more.len());
    assert(forall|k: int| 0 <= k < whole.len() ==> s[at + k] == #[trigger] whole[k]);
    assert(s[at] == whole[0] && s[at + 1] == whole[1]);
    assert(s[close] == whole[close - at] && s[close + 1] == whole[close + 1 - at]);
    assert forall|k: int| at + 2 <= k < to implies #[trigger] s[k] == target[k - at - 2] by {
        assert(s[at + (k - at)] == whole[k - at]);
    }
    assert forall|k: int| to <= k < close implies #[trigger] s[k] == more[k - to] by {
        assert(s[at + (k - at)] == whole[k - at]);
    }
    assert(s.subrange(at, close + 2) =~= whole);
    assert(s.subrange(at + 2, to) =~= target);
    assert(s.skip(close + 2) =~= rest);
}

proof fn lemma_link_found(lead: Seq<char>, target: Seq<char>, more: Seq<char>, s: Seq<char>)
    requires
        !lead.contains('['),
        target.len() > 0,
        !target.contains(']') && !target.contains('|') && !target.contains('#'),
        more.len() > 0 ==> (more[0] == '#' || more[0] == '|') && !more.contains(']'),
        ({
            let at = lead.len() as int;
            let to = at + 2 + target.len();
            let close = to + more.len();
            &&& s.len() >= close + 2
            &&& s[at] == '[' && s[at + 1] == '[' && s[close] == ']' && s[close + 1] == ']'
            &&& forall|k: int| 0 <= k < at ==> #[trigger] s[k] == lead[k]
            &&& forall|k: int| at + 2 <= k < to ==> #[trigger] s[k] == target[k - at - 2]
            &&& forall|k: int| to <= k < close ==> #[trigger] s[k] == more[k - to]
        }),
    ensures
        ({
            let at = lead.len() as int;
            let to = at + 2 + target.len();
            let close = to + more.len();
            all_captures_of(WIKI_LINK@, s) == seq![
                seq![Some(s.subrange(at, close + 2)), Some(s.subrange(at + 2, to))],
            ] + all_captures_of(WIKI_LINK@, s.skip(close + 2))
        }),
{
    let at = lead.len() as int;
    let to = at + 2 + target.len();
    let close = to + more.len();
    assert forall|k: int| 0 <= k < at implies #[trigger] s[k] != '[' by {
        assert(lead.contains(lead[k]));
    }
    assert forall|k: int| at + 2 <= k < to implies #[trigger] s[k] != ']' && s[k] != '|' && s[k]
        != '#' by {
        assert(target.contains(target[k - at - 2]));
    }
    assert forall|k: int| to < k < close implies #[trigger] s[k] != ']' by {
        assert(more.contains(more[k - to]));
    }
    lemma_wiki_link_there(s, at, to, close);
    lemma_captures_first(WIKI_LINK@, s, at, Match { end: close + 2, from: at + 2, to });
}

/// A wiki link is found with its bare target, whatever anchor or alias stands in it, and so are the
/// links behind it.
#[verifier::spinoff_prover]
pub proof fn law_wiki_link_is_found(
    lead: Seq<char>,
    target: Seq<char>,
    more: Seq<char>,
    rest: Seq<char>,
)
    requires
        !lead.contains('['),
        target.len() > 0,
        !target.contains(']') && !target.contains('|') && !target.contains('#'),
        more.len() > 0 ==> (more[0] == '#' || more[0] == '|') && !more.contains(']'),
    ensures
        all_captures_of(WIKI_LINK@, lead + ("[["@ + target + more + "]]"@) + rest) == seq![
            seq![Some("[["@ + target + more + "]]"@), Some(target)],
        ] + all_captures_of(WIKI_LINK@, rest),
{
    let s = lead + ("[["@ + target + more + "]]"@) + rest;
    let at = lead.len() as int;
    let to = at + 2 + target.len();
    let close = to + more.len();
    assert(all_captures_of(WIKI_LINK@, s) == seq![
        seq![Some(s.subrange(at, close + 2)), Some(s.subrange(at + 2, to))],
    ] + all_captures_of(WIKI_LINK@, s.skip(close + 2))) by {
        lemma_link_parts(lead, target, more, rest);
        lemma_link_found(lead, target, more, s);
    }
    assert(s.subrange(at, close + 2) == "[["@ + target + more + "]]"@ && s.subrange(at + 2, to)
        == target && s.skip(close + 2) == rest) by {
        lemma_link_parts(lead, target, more, rest);
    }
}

/// A backticked span of two to eighty characters on one line is found, and so are the spans behind
/// it.
#[verifier::spinoff_prover]
pub proof fn law_code_span_is_found(lead: Seq<char>, span: Seq<char>, rest: Seq<char>)
    requires
        !lead.contains('`'),
        2 <= span.len() <= 80,
        !span.contains('`') && !span.contains('\n'),
    ensures
        all_captures_of(CODE_SPAN@, lead + ("`"@ + span + "`"@) + rest) == seq![
            seq![Some("`"@ + span + "`"@), Some(span)],
        ] + all_captures_of(CODE_SPAN@, rest),
{
    reveal_strlit("`");
    let whole = "`"@ + span + "`"@;
    let s = lead + whole + rest;
    let at = lead.len() as int;
    let to = at + 1 + span.len();
    lemma_two_patterns();
    assert forall|k: int| 0 <= k < at implies #[trigger] s[k] != '`' by {
        assert(lead.contains(lead[k]));
    }
    assert forall|k: int| at < k < to implies #[trigger] s[k] != '`' && s[k] != '\n' by {
        assert(s[k] == span[k - at - 1]);
        assert(span.contains(span[k - at - 1]));
    }
    lemma_code_span_there(s, at, to);
    assert(s.subrange(at, to + 1) =~= whole);
    assert(s.subrange(at + 1, to) =~= span);
    assert(s.skip(to + 1) =~= rest);
    lemma_captures_first(CODE_SPAN@, s, at, Match { end: to + 1, from: at + 1, to });
}

/// `Regex::new` on the pattern, then `Regex::captures` on each line: the groups of the leftmost
/// match, if there is one. For a heading and a task item the contract also says which lines match
/// and what the groups hold: `\s` is Unicode white space, `.` is any character but a line feed,
/// `^` and `$` are the ends of the line.
#[verifier::external_body]
pub(crate) fn captures_per_line(pattern: &str, lines: &Vec<String>) -> (r: Vec<
    Option<Vec<Option<String>>>,
>)
    requires
        known_pattern(pattern@),
    ensures
        r@.len() == lines@.len(),
        forall|i: int|
            0 <= i < lines@.len() ==> (#[trigger] r@[i]).deep_view() == captures_of(
                pattern@,
                lines@[i]@,
            ),
        forall|i: int|
            0 <= i < lines@.len() && !lines@[i]@.contains('\n') ==> line_captures(
                pattern@,
                lines@[i]@,
                (#[trigger] r@[i]).deep_view(),
            ),
{
    let re = regex::Regex::new(pattern).unwrap();
    lines.iter().map(
        |line| re.captures(line).map(
            |c| c.iter().map(|m| m.map(|m| m.as_str().to_string())).collect(),
        ),
    ).collect()
}

/// `Regex::new` on the pattern, then `Regex::captures_iter` on the text: the groups of the
/// leftmost match, then of the leftmost match behind it, and so on. Which matches there are is
/// spelled out for each pattern: `\s` is Unicode white space, a negated class takes line feeds too,
/// a repetition takes as much as it can, and `^` stands at the start of a line.
#[verifier::external_body]
pub(crate) fn captures_in_text(pattern: &str, text: &str) -> (r: Vec<Vec<Option<String>>>)
    requires
        pattern@ == WIKI_LINK@ || pattern@ == CODE_SPAN@ || def_pattern(pattern@),
    ensures
        r.deep_view() == all_captures_of(pattern@, text@),
{
    let re = regex::Regex::new(pattern).unwrap();
    re.captures_iter(text).map(
        |c| c.iter().map(|m| m.map(|m| m.as_str().to_string())).collect(),
    ).collect()
}

/// `Regex::new` on the pattern, then `Regex::is_match` on each line. For the line patterns the
/// contract also says which lines match. `\d` is any Unicode decimal digit, so the pattern of a
/// daily stem is spelled out for ASCII stems only.
#[verifier::external_body]
pub(crate) fn matches_per_line(pattern: &str, lines: &Vec<String>) -> (r: Vec<bool>)
    requires
        known_pattern(pattern@),
    ensures
        r@.len() == lines@.len(),
        forall|i: int|
            0 <= i < lines@.len() ==> #[trigger] r@[i] == is_match_of(pattern@, lines@[i]@),
        forall|i: int|
            0 <= i < lines@.len() && !lines@[i]@.contains('\n') ==> line_match(
                pattern@,
                lines@[i]@,
                #[trigger] r@[i],
            ),
{
    let re = regex::Regex::new(pattern).unwrap();
    lines.iter().map(|line| re.is_match(line)).collect()
}

} // verus!
