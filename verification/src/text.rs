//! Text as sequences of characters: trimming, lines, searching, ordering, decimal numerals.

use vstd::prelude::*;

verus! {

/// Whether `c` has the Unicode `White_Space` property.
pub open spec fn is_white(c: char) -> bool {
    let n = c as u32;
    ||| 9 <= n <= 13
    ||| n == 0x20
    ||| n == 0x85
    ||| n == 0xa0
    ||| n == 0x1680
    ||| 0x2000 <= n <= 0x200a
    ||| n == 0x2028
    ||| n == 0x2029
    ||| n == 0x202f
    ||| n == 0x205f
    ||| n == 0x3000
}

/// `char::is_whitespace` answers whether the character has the Unicode `White_Space` property;
/// the members of that property are the ones that `is_white` lists.
pub assume_specification[ char::is_whitespace ](c: char) -> (r: bool)
    ensures
        r == is_white(c),
;

/// `String::push` appends one character to the end of the string.
pub assume_specification[ String::push ](s: &mut String, c: char)
    ensures
        final(s)@ == old(s)@.push(c),
;

/// The text that `str::to_lowercase` returns for `s`.
pub uninterp spec fn lowercase(s: Seq<char>) -> Seq<char>;

/// `str::to_lowercase` maps every character to one or more characters by the Unicode lowercase
/// mapping. On ASCII text that is the ASCII letter mapping, which changes nothing when it is applied
/// again.
pub assume_specification[ str::to_lowercase ](s: &str) -> (r: String)
    ensures
        r@ == lowercase(s@),
        s@.len() <= r@.len(),
        vstd::utf8::is_ascii_chars(s@) ==> r@ == ascii_lowercase(s@) && lowercase(r@) == r@,
;

/// The ASCII lowercase form of one character; other characters stay as they are.
pub open spec fn ascii_lower(c: char) -> char {
    if 'A' <= c <= 'Z' {
        ((c as u32) + 32) as char
    } else {
        c
    }
}

/// The ASCII uppercase form of one character; other characters stay as they are.
pub open spec fn ascii_upper(c: char) -> char {
    if 'a' <= c <= 'z' {
        ((c as u32) - 32) as char
    } else {
        c
    }
}

/// The text with every small ASCII letter replaced by its capital.
pub open spec fn ascii_uppercase(s: Seq<char>) -> Seq<char> {
    Seq::new(s.len(), |i: int| ascii_upper(s[i]))
}

/// The text with every ASCII capital replaced by its small letter.
pub open spec fn ascii_lowercase(s: Seq<char>) -> Seq<char> {
    Seq::new(s.len(), |i: int| ascii_lower(s[i]))
}

/// The characters of a text.
pub fn chars_of(s: &str) -> (r: Vec<char>)
    ensures
        r@ == s@,
{
    let mut out: Vec<char> = Vec::new();
    for c in it: s.chars()
        invariant
            out@ == s@.take(it.index() as int),
            it.seq() == s@,
    {
        out.push(c);
        assert(s@.take(it.index() as int + 1) =~= s@.take(it.index() as int).push(c));
    }
    assert(s@.take(s@.len() as int) =~= s@);
    out
}

/// The text made of the given characters.
pub fn text_of(chars: &Vec<char>) -> (r: String)
    ensures
        r@ == chars@,
{
    let mut out = String::new();
    let mut i: usize = 0;
    while i < chars.len()
        invariant
            i <= chars@.len(),
            out@ == chars@.take(i as int),
        decreases chars@.len() - i,
    {
        out.push(chars[i]);
        assert(chars@.take(i + 1) =~= chars@.take(i as int).push(chars@[i as int]));
        i += 1;
    }
    assert(chars@.take(chars@.len() as int) =~= chars@);
    out
}

/// The part of `chars` from `lo` up to `hi`.
pub fn part_of(chars: &Vec<char>, lo: usize, hi: usize) -> (r: Vec<char>)
    requires
        lo <= hi <= chars@.len(),
    ensures
        r@ == chars@.subrange(lo as int, hi as int),
{
    let mut out: Vec<char> = Vec::new();
    let mut i: usize = lo;
    while i < hi
        invariant
            lo <= i <= hi <= chars@.len(),
            out@ == chars@.subrange(lo as int, i as int),
        decreases hi - i,
    {
        out.push(chars[i]);
        assert(chars@.subrange(lo as int, i + 1) =~= chars@.subrange(lo as int, i as int).push(
            chars@[i as int],
        ));
        i += 1;
    }
    out
}

/// Whether two texts hold the same characters.
pub fn same_text(a: &str, b: &str) -> (r: bool)
    ensures
        r == (a@ == b@),
{
    let x = a.to_owned();
    let y = b.to_owned();
    x == y
}

/// A set of characters that trimming removes.
#[derive(Clone, Copy, PartialEq, Eq, Structural)]
pub enum CharClass {
    /// White space.
    White,
    /// White space and the punctuation that may stand round a name.
    Edge,
    /// The space character alone.
    Space,
    /// The number sign alone.
    Hash,
}

impl CharClass {
    /// Whether the class holds `c`.
    pub open spec fn holds(self, c: char) -> bool {
        match self {
            CharClass::White => is_white(c),
            CharClass::Edge => is_white(c) || is_edge_punctuation(c),
            CharClass::Space => c == ' ',
            CharClass::Hash => c == '#',
        }
    }

    /// Whether the class holds `c`.
    pub fn has(self, c: char) -> (r: bool)
        ensures
            r == self.holds(c),
    {
        match self {
            CharClass::White => c.is_whitespace(),
            CharClass::Edge => c.is_whitespace() || edge_punctuation(c),
            CharClass::Space => c == ' ',
            CharClass::Hash => c == '#',
        }
    }
}

/// The punctuation `.,:;!?'"()[]{}`.
pub open spec fn is_edge_punctuation(c: char) -> bool {
    ||| c == '.'
    ||| c == ','
    ||| c == ':'
    ||| c == ';'
    ||| c == '!'
    ||| c == '?'
    ||| c == '\''
    ||| c == '"'
    ||| c == '('
    ||| c == ')'
    ||| c == '['
    ||| c == ']'
    ||| c == '{'
    ||| c == '}'
}

fn edge_punctuation(c: char) -> (r: bool)
    ensures
        r == is_edge_punctuation(c),
{
    c == '.' || c == ',' || c == ':' || c == ';' || c == '!' || c == '?' || c == '\'' || c == '"'
        || c == '(' || c == ')' || c == '[' || c == ']' || c == '{' || c == '}'
}

/// How many characters at the start of `s` belong to `class`.
pub open spec fn lead_len(s: Seq<char>, class: CharClass) -> nat
    decreases s.len(),
{
    if s.len() > 0 && class.holds(s[0]) {
        1 + lead_len(s.skip(1), class)
    } else {
        0
    }
}

/// How many characters at the end of `s` belong to `class`.
pub open spec fn tail_len(s: Seq<char>, class: CharClass) -> nat
    decreases s.len(),
{
    if s.len() > 0 && class.holds(s.last()) {
        1 + tail_len(s.drop_last(), class)
    } else {
        0
    }
}

/// `s` without the leading characters of `class`.
pub open spec fn trimmed_start(s: Seq<char>, class: CharClass) -> Seq<char> {
    s.skip(lead_len(s, class) as int)
}

/// `s` without the trailing characters of `class`.
pub open spec fn trimmed_end(s: Seq<char>, class: CharClass) -> Seq<char> {
    s.take(s.len() - tail_len(s, class))
}

/// `s` without the leading and trailing characters of `class`.
pub open spec fn trimmed(s: Seq<char>, class: CharClass) -> Seq<char> {
    trimmed_end(trimmed_start(s, class), class)
}

/// The white-space trim of `s`.
pub open spec fn trim(s: Seq<char>) -> Seq<char> {
    trimmed(s, CharClass::White)
}

/// What `lead_len` counts: all of the first characters, and not the next one.
pub proof fn lemma_lead_len(s: Seq<char>, class: CharClass)
    ensures
        lead_len(s, class) <= s.len(),
        forall|i: int| 0 <= i < lead_len(s, class) ==> class.holds(#[trigger] s[i]),
        lead_len(s, class) < s.len() ==> !class.holds(s[lead_len(s, class) as int]),
    decreases s.len(),
{
    if s.len() > 0 && class.holds(s[0]) {
        lemma_lead_len(s.skip(1), class);
        let n = lead_len(s.skip(1), class);
        assert forall|i: int| 0 <= i < lead_len(s, class) implies class.holds(#[trigger] s[i]) by {
            if i > 0 {
                assert(s[i] == s.skip(1)[i - 1]);
            }
        }
        if n + 1 < s.len() {
            assert(s[n as int + 1] == s.skip(1)[n as int]);
        }
    }
}

/// A count with the properties of `lead_len` is `lead_len`.
pub proof fn lemma_lead_len_unique(s: Seq<char>, class: CharClass, n: nat)
    requires
        n <= s.len(),
        forall|i: int| 0 <= i < n ==> class.holds(#[trigger] s[i]),
        n < s.len() ==> !class.holds(s[n as int]),
    ensures
        lead_len(s, class) == n,
{
    lemma_lead_len(s, class);
    let m = lead_len(s, class);
    if m < n {
        assert(class.holds(s[m as int]));
    }
    if n < m {
        assert(class.holds(s[n as int]));
    }
}

/// What `tail_len` counts: all of the last characters, and not the one before them.
pub proof fn lemma_tail_len(s: Seq<char>, class: CharClass)
    ensures
        tail_len(s, class) <= s.len(),
        forall|i: int| s.len() - tail_len(s, class) <= i < s.len() ==> class.holds(#[trigger] s[i]),
        tail_len(s, class) < s.len() ==> !class.holds(s[s.len() - tail_len(s, class) - 1]),
    decreases s.len(),
{
    if s.len() > 0 && class.holds(s.last()) {
        lemma_tail_len(s.drop_last(), class);
        assert forall|i: int|
            s.len() - tail_len(s, class) <= i < s.len() implies class.holds(#[trigger] s[i]) by {
            if i < s.len() - 1 {
                assert(s[i] == s.drop_last()[i]);
            }
        }
    }
}

/// A count with the properties of `tail_len` is `tail_len`.
pub proof fn lemma_tail_len_unique(s: Seq<char>, class: CharClass, n: nat)
    requires
        n <= s.len(),
        forall|i: int| s.len() - n <= i < s.len() ==> class.holds(#[trigger] s[i]),
        n < s.len() ==> !class.holds(s[s.len() - n - 1]),
    ensures
        tail_len(s, class) == n,
{
    lemma_tail_len(s, class);
    let m = tail_len(s, class);
    if m < n {
        assert(class.holds(s[s.len() - m - 1]));
    }
    if n < m {
        assert(class.holds(s[s.len() - n - 1]));
    }
}

/// The length of the leading run of `class`.
pub fn lead_run(chars: &Vec<char>, class: CharClass) -> (r: usize)
    ensures
        r == lead_len(chars@, class),
        r <= chars@.len(),
{
    let mut i: usize = 0;
    while i < chars.len() && class.has(chars[i])
        invariant
            i <= chars@.len(),
            forall|j: int| 0 <= j < i ==> class.holds(#[trigger] chars@[j]),
        decreases chars@.len() - i,
    {
        i += 1;
    }
    proof {
        lemma_lead_len_unique(chars@, class, i as nat);
    }
    i
}

/// The length of the trailing run of `class`.
pub fn tail_run(chars: &Vec<char>, class: CharClass) -> (r: usize)
    ensures
        r == tail_len(chars@, class),
        r <= chars@.len(),
{
    let mut i: usize = 0;
    while i < chars.len() && class.has(chars[chars.len() - 1 - i])
        invariant
            i <= chars@.len(),
            forall|j: int| chars@.len() - i <= j < chars@.len() ==> class.holds(#[trigger] chars@[j]),
        decreases chars@.len() - i,
    {
        i += 1;
    }
    proof {
        lemma_tail_len_unique(chars@, class, i as nat);
    }
    i
}

/// The text without its leading characters of `class`.
pub fn trim_start_of(chars: &Vec<char>, class: CharClass) -> (r: Vec<char>)
    ensures
        r@ == trimmed_start(chars@, class),
{
    let n = lead_run(chars, class);
    let r = part_of(chars, n, chars.len());
    assert(chars@.subrange(n as int, chars@.len() as int) =~= chars@.skip(n as int));
    r
}

/// The text without its trailing characters of `class`.
pub fn trim_end_of(chars: &Vec<char>, class: CharClass) -> (r: Vec<char>)
    ensures
        r@ == trimmed_end(chars@, class),
{
    let n = tail_run(chars, class);
    let r = part_of(chars, 0, chars.len() - n);
    assert(chars@.subrange(0, chars@.len() - n) =~= chars@.take(chars@.len() - n));
    r
}

/// The text without its leading and trailing characters of `class`.
pub fn trim_of(chars: &Vec<char>, class: CharClass) -> (r: Vec<char>)
    ensures
        r@ == trimmed(chars@, class),
{
    trim_end_of(&trim_start_of(chars, class), class)
}

/// The white-space trim of a text.
pub fn trim_text(s: &str) -> (r: String)
    ensures
        r@ == trim(s@),
{
    text_of(&trim_of(&chars_of(s), CharClass::White))
}

/// The index of the first `c` in `s`, or the length of `s` where it has none.
pub open spec fn place_of(s: Seq<char>, c: char) -> nat
    decreases s.len(),
{
    if s.len() == 0 || s[0] == c {
        0
    } else {
        1 + place_of(s.skip(1), c)
    }
}

/// What `place_of` is: no `c` before it, and one at it unless it is the end.
pub proof fn lemma_place_of(s: Seq<char>, c: char)
    ensures
        place_of(s, c) <= s.len(),
        forall|i: int| 0 <= i < place_of(s, c) ==> #[trigger] s[i] != c,
        place_of(s, c) < s.len() ==> s[place_of(s, c) as int] == c,
    decreases s.len(),
{
    if s.len() > 0 && s[0] != c {
        lemma_place_of(s.skip(1), c);
        assert forall|i: int| 0 <= i < place_of(s, c) implies #[trigger] s[i] != c by {
            if i > 0 {
                assert(s[i] == s.skip(1)[i - 1]);
            }
        }
        if place_of(s, c) < s.len() {
            assert(s[place_of(s, c) as int] == s.skip(1)[place_of(s, c) - 1]);
        }
    }
}

/// An index with the properties of `place_of` is `place_of`.
pub proof fn lemma_place_of_unique(s: Seq<char>, c: char, n: nat)
    requires
        n <= s.len(),
        forall|i: int| 0 <= i < n ==> #[trigger] s[i] != c,
        n < s.len() ==> s[n as int] == c,
    ensures
        place_of(s, c) == n,
{
    lemma_place_of(s, c);
    let m = place_of(s, c);
    if m < n {
        assert(s[m as int] != c);
    }
    if n < m {
        assert(s[n as int] != c);
    }
}

/// The index of the first `c`, or the length of the text where it has none.
pub fn find_char(chars: &Vec<char>, c: char) -> (r: usize)
    ensures
        r == place_of(chars@, c),
        r <= chars@.len(),
{
    let mut i: usize = 0;
    while i < chars.len() && chars[i] != c
        invariant
            i <= chars@.len(),
            forall|j: int| 0 <= j < i ==> #[trigger] chars@[j] != c,
        decreases chars@.len() - i,
    {
        i += 1;
    }
    proof {
        lemma_place_of_unique(chars@, c, i as nat);
    }
    i
}

/// `s` cut behind every line feed; the pieces keep their line feeds.
pub open spec fn segments(s: Seq<char>) -> Seq<Seq<char>>
    decreases s.len(),
    via segments_decreases
{
    if s.len() == 0 {
        Seq::empty()
    } else if place_of(s, '\n') < s.len() {
        seq![s.take(place_of(s, '\n') as int + 1)] + segments(s.skip(place_of(s, '\n') as int + 1))
    } else {
        seq![s]
    }
}

#[via_fn]
proof fn segments_decreases(s: Seq<char>) {
    lemma_place_of(s, '\n');
}

/// A piece of `segments` without its line ending: a line feed, with the carriage return before it.
pub open spec fn without_ending(s: Seq<char>) -> Seq<char> {
    if s.len() > 0 && s.last() == '\n' {
        if s.len() > 1 && s[s.len() - 2] == '\r' {
            s.take(s.len() - 2)
        } else {
            s.take(s.len() - 1)
        }
    } else {
        s
    }
}

/// The lines of `s`, without their endings.
pub open spec fn lines(s: Seq<char>) -> Seq<Seq<char>> {
    let pieces = segments(s);
    Seq::new(pieces.len(), |i: int| without_ending(pieces[i]))
}

/// The pieces of a text that end behind each line feed.
pub fn segments_of(chars: &Vec<char>) -> (r: Vec<String>)
    ensures
        r.deep_view() == segments(chars@),
{
    let mut out: Vec<String> = Vec::new();
    let mut start: usize = 0;
    let mut i: usize = 0;
    assert(chars@.skip(0) =~= chars@);
    assert(out.deep_view() + segments(chars@) =~= segments(chars@));
    while i < chars.len()
        invariant
            start <= i <= chars@.len(),
            forall|j: int| start <= j < i ==> #[trigger] chars@[j] != '\n',
            out.deep_view() + segments(chars@.skip(start as int)) == segments(chars@),
        decreases chars@.len() - i,
    {
        if chars[i] == '\n' {
            let ghost rest = chars@.skip(start as int);
            let ghost before = out.deep_view();
            let piece = text_of(&part_of(chars, start, i + 1));
            proof {
                assert forall|j: int| 0 <= j < i - start implies #[trigger] rest[j] != '\n' by {
                    assert(rest[j] == chars@[start + j]);
                }
                lemma_place_of_unique(rest, '\n', (i - start) as nat);
                assert(rest.take(i - start + 1) =~= piece@);
                assert(rest.skip(i - start + 1) =~= chars@.skip(i + 1));
            }
            out.push(piece);
            start = i + 1;
            proof {
                assert(out.deep_view() =~= before.push(piece@));
                assert(before.push(piece@) + segments(chars@.skip(start as int)) =~= before + (
                seq![piece@] + segments(chars@.skip(start as int))));
            }
        }
        i += 1;
    }
    if start < chars.len() {
        let ghost rest = chars@.skip(start as int);
        let ghost before = out.deep_view();
        let piece = text_of(&part_of(chars, start, chars.len()));
        proof {
            assert forall|j: int| 0 <= j < rest.len() implies #[trigger] rest[j] != '\n' by {
                assert(rest[j] == chars@[start + j]);
            }
            lemma_place_of_unique(rest, '\n', rest.len());
            assert(piece@ =~= rest);
        }
        out.push(piece);
        proof {
            assert(out.deep_view() =~= before.push(piece@));
            assert(before.push(piece@) =~= before + seq![piece@]);
        }
    } else {
        assert(out.deep_view() + Seq::<Seq<char>>::empty() =~= out.deep_view());
    }
    out
}

/// The lines of a text, without their endings.
pub fn lines_of(s: &str) -> (r: Vec<String>)
    ensures
        r.deep_view() == lines(s@),
{
    let pieces = segments_of(&chars_of(s));
    let mut out: Vec<String> = Vec::new();
    let mut i: usize = 0;
    while i < pieces.len()
        invariant
            i <= pieces@.len(),
            pieces.deep_view() == segments(s@),
            out@.len() == i,
            forall|j: int|
                0 <= j < i ==> (#[trigger] out@[j])@ == without_ending(segments(s@)[j]),
        decreases pieces@.len() - i,
    {
        assert(pieces@[i as int]@ == segments(s@)[i as int]);
        let piece = chars_of(&pieces[i]);
        let mut n: usize = piece.len();
        if n > 0 && piece[n - 1] == '\n' {
            n = n - 1;
            if n > 0 && piece[n - 1] == '\r' {
                n = n - 1;
            }
        }
        let line = part_of(&piece, 0, n);
        assert(piece@.subrange(0, n as int) =~= without_ending(piece@));
        out.push(text_of(&line));
        i += 1;
    }
    assert(out.deep_view() =~= lines(s@));
    out
}

/// Whether `s` starts with `p`.
pub open spec fn has_prefix(s: Seq<char>, p: Seq<char>) -> bool {
    p.len() <= s.len() && s.take(p.len() as int) == p
}

/// Whether `p` stands in `s` at index `i`.
pub open spec fn occurs_at(s: Seq<char>, p: Seq<char>, i: int) -> bool {
    0 <= i && i + p.len() <= s.len() && s.subrange(i, i + p.len()) == p
}

/// Whether `p` stands anywhere in `s`.
pub open spec fn has_text(s: Seq<char>, p: Seq<char>) -> bool {
    exists|i: int| occurs_at(s, p, i)
}

/// The first index at or behind `from` where `p` stands in `s`.
pub open spec fn find_from(s: Seq<char>, p: Seq<char>, from: int) -> Option<int>
    decreases s.len() + 1 - from,
{
    if from < 0 || from + p.len() > s.len() {
        None
    } else if occurs_at(s, p, from) {
        Some(from)
    } else {
        find_from(s, p, from + 1)
    }
}

/// `find_from` gives the least index, and an index whenever there is one.
pub proof fn lemma_find_from(s: Seq<char>, p: Seq<char>, from: int)
    requires
        0 <= from,
    ensures
        match find_from(s, p, from) {
            Some(i) => from <= i && occurs_at(s, p, i) && forall|j: int|
                from <= j < i ==> !occurs_at(s, p, j),
            None => forall|j: int| from <= j ==> !occurs_at(s, p, j),
        },
    decreases s.len() + 1 - from,
{
    if from + p.len() > s.len() {
    } else if occurs_at(s, p, from) {
    } else {
        lemma_find_from(s, p, from + 1);
    }
}

/// Whether `p` stands in `chars` at `i`.
pub fn stands_at(chars: &Vec<char>, p: &Vec<char>, i: usize) -> (r: bool)
    requires
        i + p@.len() <= chars@.len(),
    ensures
        r == occurs_at(chars@, p@, i as int),
{
    let mut j: usize = 0;
    let n = chars.len();
    while j < p.len()
        invariant
            j <= p@.len(),
            i + p@.len() <= n == chars@.len(),
            forall|k: int| 0 <= k < j ==> chars@[i + k] == #[trigger] p@[k],
        decreases p@.len() - j,
    {
        if chars[i + j] != p[j] {
            assert(chars@.subrange(i as int, i + p@.len())[j as int] != p@[j as int]);
            return false;
        }
        j += 1;
    }
    assert(chars@.subrange(i as int, i + p@.len()) =~= p@);
    true
}

/// The first index at or behind `from` where `p` stands.
pub fn find_text(chars: &Vec<char>, p: &Vec<char>, from: usize) -> (r: Option<usize>)
    requires
        from <= chars@.len(),
    ensures
        match r {
            Some(i) => find_from(chars@, p@, from as int) == Some(i as int),
            None => find_from(chars@, p@, from as int) is None,
        },
{
    if p.len() > chars.len() - from {
        return None;
    }
    let mut i: usize = from;
    while i <= chars.len() - p.len()
        invariant
            from <= i,
            p@.len() <= chars@.len(),
            i <= chars@.len() - p@.len() + 1,
            find_from(chars@, p@, from as int) == find_from(chars@, p@, i as int),
        decreases chars@.len() + 1 - i,
    {
        if stands_at(chars, p, i) {
            return Some(i);
        }
        if i == chars.len() - p.len() {
            assert(find_from(chars@, p@, i + 1) is None);
            return None;
        }
        i += 1;
    }
    None
}

/// Whether the text starts with `p`.
pub fn starts_with(s: &str, p: &str) -> (r: bool)
    ensures
        r == has_prefix(s@, p@),
{
    let a = chars_of(s);
    let b = chars_of(p);
    if b.len() > a.len() {
        return false;
    }
    let r = stands_at(&a, &b, 0);
    assert(a@.subrange(0, b@.len() as int) =~= a@.take(b@.len() as int));
    r
}

/// Whether `p` stands anywhere in the text.
pub fn contains_text(s: &str, p: &str) -> (r: bool)
    ensures
        r == has_text(s@, p@),
{
    let a = chars_of(s);
    let b = chars_of(p);
    let found = find_text(&a, &b, 0);
    proof {
        lemma_find_from(a@, b@, 0);
        if found is Some {
            assert(occurs_at(a@, b@, find_from(a@, b@, 0)->0));
        }
    }
    found.is_some()
}

/// `s` with every `c` replaced by `with`.
pub open spec fn replaced(s: Seq<char>, c: char, with: Seq<char>) -> Seq<char>
    decreases s.len(),
{
    if s.len() == 0 {
        Seq::empty()
    } else if s.last() == c {
        replaced(s.drop_last(), c, with) + with
    } else {
        replaced(s.drop_last(), c, with).push(s.last())
    }
}

/// The text with every `c` replaced by `with`.
pub fn replace_char(s: &str, c: char, with: &str) -> (r: String)
    ensures
        r@ == replaced(s@, c, with@),
{
    let chars = chars_of(s);
    let mut out = String::new();
    let mut i: usize = 0;
    while i < chars.len()
        invariant
            i <= chars@.len(),
            chars@ == s@,
            out@ == replaced(chars@.take(i as int), c, with@),
        decreases chars@.len() - i,
    {
        assert(chars@.take(i + 1).drop_last() =~= chars@.take(i as int));
        if chars[i] == c {
            out.append(with);
        } else {
            out.push(chars[i]);
        }
        i += 1;
    }
    assert(chars@.take(chars@.len() as int) =~= chars@);
    out
}

/// The pieces with `sep` between them.
pub open spec fn joined(pieces: Seq<Seq<char>>, sep: Seq<char>) -> Seq<char>
    decreases pieces.len(),
{
    if pieces.len() == 0 {
        Seq::empty()
    } else if pieces.len() == 1 {
        pieces[0]
    } else {
        joined(pieces.drop_last(), sep) + sep + pieces.last()
    }
}

/// The texts with `sep` between them.
pub fn join_texts(pieces: &Vec<String>, sep: &str) -> (r: String)
    ensures
        r@ == joined(pieces.deep_view(), sep@),
{
    let mut out = String::new();
    let mut i: usize = 0;
    let ghost all = pieces.deep_view();
    while i < pieces.len()
        invariant
            i <= pieces@.len(),
            all == pieces.deep_view(),
            out@ == joined(all.take(i as int), sep@),
        decreases pieces@.len() - i,
    {
        assert(all.take(i + 1).drop_last() =~= all.take(i as int));
        if i > 0 {
            out.append(sep);
        } else {
            assert(out@ =~= Seq::<char>::empty());
        }
        out.append(&pieces[i]);
        assert(out@ =~= joined(all.take(i + 1), sep@));
        i += 1;
    }
    assert(all.take(all.len() as int) =~= all);
    out
}

/// The character of a digit.
pub open spec fn digit_char(d: nat) -> char {
    ((d + 48) as u32) as char
}

/// The decimal numeral of `n`.
pub open spec fn decimal(n: nat) -> Seq<char>
    decreases n,
{
    if n < 10 {
        seq![digit_char(n)]
    } else {
        decimal(n / 10).push(digit_char(n % 10))
    }
}

/// The decimal numeral of an integer, with a minus sign before a negative one.
pub open spec fn decimal_int(n: int) -> Seq<char> {
    if n < 0 {
        seq!['-'] + decimal((-n) as nat)
    } else {
        decimal(n as nat)
    }
}

fn digit_of(d: u8) -> (r: char)
    requires
        d < 10,
    ensures
        r == digit_char(d as nat),
{
    (d + 48) as char
}

/// The decimal numeral of an unsigned number.
pub fn decimal_of(n: u128) -> (r: String)
    ensures
        r@ == decimal(n as nat),
    decreases n,
{
    if n < 10 {
        let mut out = String::new();
        out.push(digit_of(n as u8));
        assert(out@ =~= seq![digit_char(n as nat)]);
        out
    } else {
        let mut out = decimal_of(n / 10);
        out.push(digit_of((n % 10) as u8));
        out
    }
}

/// The decimal numeral of a signed number.
pub fn decimal_of_int(n: i64) -> (r: String)
    ensures
        r@ == decimal_int(n as int),
{
    if n < 0 {
        let mut out = String::new();
        out.push('-');
        let rest = decimal_of((-(n as i128)) as u128);
        out.append(&rest);
        assert(out@ =~= seq!['-'] + decimal((-n) as nat));
        out
    } else {
        decimal_of(n as u128)
    }
}

/// The number of bytes of a text in UTF-8.
pub open spec fn byte_len(s: Seq<char>) -> nat {
    vstd::utf8::encode_utf8(s).len()
}

/// The number of bytes of a text in UTF-8.
pub fn bytes_in(s: &str) -> (r: usize)
    ensures
        r == byte_len(s@),
{
    s.as_bytes().len()
}

/// The number of bytes of a character in UTF-8.
pub open spec fn char_bytes(c: char) -> nat {
    vstd::utf8::encode_scalar(c as u32).len()
}

/// One more character adds its bytes.
pub proof fn lemma_byte_len_push(s: Seq<char>, c: char)
    ensures
        byte_len(s.push(c)) == byte_len(s) + char_bytes(c),
    decreases s.len(),
{
    let t = s.push(c);
    if s.len() == 0 {
        assert(t.drop_first() =~= Seq::<char>::empty());
        assert(vstd::utf8::encode_utf8(t.drop_first()).len() == 0);
    } else {
        assert(t.drop_first() =~= s.drop_first().push(c));
        lemma_byte_len_push(s.drop_first(), c);
    }
}

/// The number of bytes of a character in UTF-8.
pub fn bytes_of_char(c: char) -> (r: usize)
    ensures
        r == char_bytes(c),
        1 <= r <= 4,
{
    let n = c as u32;
    if n < 0x80 {
        1
    } else if n < 0x800 {
        2
    } else if n < 0x10000 {
        3
    } else {
        4
    }
}

/// The least number of first characters, `from` at least, that make up `pos` bytes.
pub open spec fn boundary_from(s: Seq<char>, pos: nat, from: int) -> Option<int>
    decreases s.len() + 1 - from,
{
    if from < 0 || from > s.len() {
        None
    } else if byte_len(s.take(from)) == pos {
        Some(from)
    } else {
        boundary_from(s, pos, from + 1)
    }
}

/// How many characters of `s` make up its first `pos` bytes, where a character starts there.
pub open spec fn boundary(s: Seq<char>, pos: nat) -> Option<int> {
    boundary_from(s, pos, 0)
}

proof fn lemma_boundary_past(s: Seq<char>, pos: nat, from: int)
    requires
        0 <= from <= s.len(),
        byte_len(s.take(from)) > pos,
    ensures
        boundary_from(s, pos, from) is None,
    decreases s.len() - from,
{
    if from < s.len() {
        lemma_byte_len_push(s.take(from), s[from]);
        assert(s.take(from + 1) =~= s.take(from).push(s[from]));
        lemma_boundary_past(s, pos, from + 1);
    } else {
        assert(boundary_from(s, pos, from + 1) is None);
    }
}

/// How many characters make up the first `pos` bytes, where a character starts there.
pub fn find_boundary(chars: &Vec<char>, pos: usize) -> (r: Option<usize>)
    ensures
        match r {
            Some(k) => boundary(chars@, pos as nat) == Some(k as int) && k <= chars@.len(),
            None => boundary(chars@, pos as nat) is None,
        },
{
    let mut bytes: usize = 0;
    let mut k: usize = 0;
    assert(chars@.take(0) =~= Seq::<char>::empty());
    assert(byte_len(chars@.take(0)) == 0);
    while bytes < pos
        invariant
            k <= chars@.len(),
            bytes <= pos,
            bytes == byte_len(chars@.take(k as int)),
            boundary(chars@, pos as nat) == boundary_from(chars@, pos as nat, k as int),
        decreases chars@.len() - k,
    {
        if k == chars.len() {
            assert(boundary_from(chars@, pos as nat, k + 1) is None);
            return None;
        }
        let more = bytes_of_char(chars[k]);
        proof {
            lemma_byte_len_push(chars@.take(k as int), chars@[k as int]);
            assert(chars@.take(k + 1) =~= chars@.take(k as int).push(chars@[k as int]));
        }
        if more > pos - bytes {
            proof {
                lemma_boundary_past(chars@, pos as nat, k + 1);
            }
            return None;
        }
        bytes = bytes + more;
        k += 1;
    }
    Some(k)
}

/// No line holds a line feed.
pub proof fn lemma_lines_have_no_newline(s: Seq<char>)
    ensures
        forall|i: int| 0 <= i < lines(s).len() ==> !(#[trigger] lines(s)[i]).contains('\n'),
{
    lemma_segments_end(s);
    assert forall|i: int| 0 <= i < lines(s).len() implies !(#[trigger] lines(s)[i]).contains(
        '\n',
    ) by {
        let piece = segments(s)[i];
        let line = lines(s)[i];
        assert(line == without_ending(piece));
        if line.contains('\n') {
            let k = choose|k: int| 0 <= k < line.len() && line[k] == '\n';
            assert(piece[k] == '\n');
        }
    }
}

/// A piece of `segments` has a line feed at its end only.
pub proof fn lemma_segments_end(s: Seq<char>)
    ensures
        forall|i: int, k: int|
            0 <= i < segments(s).len() && 0 <= k < segments(s)[i].len() - 1
                ==> #[trigger] segments(s)[i][k] != '\n',
        forall|i: int| 0 <= i < segments(s).len() ==> (#[trigger] segments(s)[i]).len() > 0,
    decreases s.len(),
{
    lemma_place_of(s, '\n');
    if s.len() > 0 && place_of(s, '\n') < s.len() {
        let n = place_of(s, '\n') as int;
        let rest = s.skip(n + 1);
        lemma_segments_end(rest);
        let all = segments(s);
        assert(all[0] == s.take(n + 1));
        assert forall|i: int| 0 < i < all.len() implies #[trigger] all[i] == segments(rest)[i - 1] by {}
        assert forall|i: int, k: int|
            0 <= i < all.len() && 0 <= k < all[i].len() - 1 implies #[trigger] all[i][k] != '\n' by {
            if i > 0 {
                assert(all[i] == segments(rest)[i - 1]);
                assert(segments(rest)[i - 1][k] != '\n');
            }
        }
    }
}

/// The pieces put together.
pub open spec fn flat(pieces: Seq<Seq<char>>) -> Seq<char>
    decreases pieces.len(),
{
    if pieces.len() == 0 {
        Seq::empty()
    } else {
        flat(pieces.drop_last()) + pieces.last()
    }
}

/// Putting pieces together starts with the first one.
pub proof fn lemma_flat_first(pieces: Seq<Seq<char>>)
    requires
        pieces.len() > 0,
    ensures
        flat(pieces) == pieces[0] + flat(pieces.skip(1)),
    decreases pieces.len(),
{
    let rest = pieces.skip(1);
    if rest.len() == 0 {
        assert(flat(pieces.drop_last()) =~= Seq::<char>::empty());
        assert(flat(rest) =~= Seq::<char>::empty());
        assert(flat(pieces) =~= pieces[0] + flat(rest));
    } else {
        lemma_flat_first(pieces.drop_last());
        assert(pieces.drop_last().skip(1) =~= rest.drop_last());
        assert(flat(pieces) =~= pieces[0] + flat(rest));
    }
}

/// A text is cut behind its complete lines first, then as what follows is cut.
pub proof fn lemma_segments_concat(a: Seq<char>, b: Seq<char>)
    requires
        a.len() > 0 ==> a.last() == '\n',
    ensures
        segments(a + b) == segments(a) + segments(b),
        lines(a + b) == lines(a) + lines(b),
    decreases a.len(),
{
    if a.len() == 0 {
        assert(a + b =~= b);
        assert(segments(a) + segments(b) =~= segments(b));
    } else {
        lemma_place_of(a, '\n');
        let n = place_of(a, '\n');
        if n == a.len() {
            assert(a[a.len() - 1] != '\n');
        }
        let rest = a.skip(n as int + 1);
        assert forall|i: int| 0 <= i < n implies #[trigger] (a + b)[i] != '\n' by {
            assert((a + b)[i] == a[i]);
        }
        lemma_place_of_unique(a + b, '\n', n);
        assert((a + b).take(n as int + 1) =~= a.take(n as int + 1));
        assert((a + b).skip(n as int + 1) =~= rest + b);
        lemma_segments_concat(rest, b);
        assert(segments(a + b) =~= segments(a) + segments(b));
    }
    let pieces = segments(a + b);
    assert(lines(a + b).len() == lines(a).len() + lines(b).len());
    assert forall|i: int| 0 <= i < pieces.len() implies #[trigger] lines(a + b)[i] == (lines(a)
        + lines(b))[i] by {
        if i < segments(a).len() {
            assert(pieces[i] == segments(a)[i]);
        } else {
            assert(pieces[i] == segments(b)[i - segments(a).len()]);
        }
    }
    assert(lines(a + b) =~= lines(a) + lines(b));
}

/// A text cut between two lines: both parts are cut as the whole was.
pub proof fn lemma_segments_at(s: Seq<char>, p: int)
    requires
        0 <= p <= segments(s).len(),
    ensures
        flat(segments(s).take(p)) + flat(segments(s).skip(p)) == s,
        p < segments(s).len() ==> {
            let a = flat(segments(s).take(p));
            let b = flat(segments(s).skip(p));
            &&& a.len() > 0 ==> a.last() == '\n'
            &&& lines(a) == lines(s).take(p)
            &&& lines(b) == lines(s).skip(p)
        },
    decreases s.len(),
{
    let all = segments(s);
    lemma_place_of(s, '\n');
    let n = place_of(s, '\n') as int;
    if p == 0 {
        assert(all.take(0) =~= Seq::<Seq<char>>::empty());
        assert(all.skip(0) =~= all);
        lemma_segments_flat(s);
        assert(flat(all.take(0)) + flat(all.skip(0)) =~= s);
        assert(lines(flat(all.take(0))) =~= lines(s).take(0));
        assert(lines(s).skip(0) =~= lines(s));
    } else if n < s.len() {
        let first = s.take(n + 1);
        let rest = s.skip(n + 1);
        assert(all == seq![first] + segments(rest));
        lemma_segments_at(rest, p - 1);
        lemma_flat_first(all.take(p));
        assert(all.take(p).skip(1) =~= segments(rest).take(p - 1));
        assert(all.skip(p) =~= segments(rest).skip(p - 1));
        let a = flat(all.take(p));
        let more = flat(segments(rest).take(p - 1));
        let b = flat(all.skip(p));
        assert(a == first + more);
        assert(first + rest =~= s);
        assert(a + b =~= first + (more + b));
        if p < all.len() {
            assert(a.last() == '\n');
            assert forall|i: int| 0 <= i < n implies #[trigger] first[i] != '\n' by {
                assert(first[i] == s[i]);
            }
            lemma_place_of_unique(first, '\n', n as nat);
            assert(first.take(n + 1) =~= first);
            assert(segments(first.skip(n + 1)) =~= Seq::<Seq<char>>::empty());
            assert(segments(first) =~= seq![first]);
            lemma_segments_concat(first, more);
            assert(lines(a) =~= lines(first) + lines(rest).take(p - 1));
            assert(lines(s)[0] == lines(first)[0]);
            assert forall|i: int| 0 <= i < lines(rest).len() implies lines(s)[i + 1]
                == #[trigger] lines(rest)[i] by {
                assert(all[i + 1] == segments(rest)[i]);
            }
            assert(lines(a) =~= lines(s).take(p));
            assert(lines(b) =~= lines(s).skip(p));
        }
    } else {
        assert(all == seq![s]);
        assert(all.take(1) =~= all);
        assert(all.skip(1) =~= Seq::<Seq<char>>::empty());
        lemma_segments_flat(s);
        assert(flat(all) + flat(all.skip(1)) =~= s);
    }
}

/// The pieces of a text put together are the text.
pub proof fn lemma_segments_flat(s: Seq<char>)
    ensures
        flat(segments(s)) == s,
    decreases s.len(),
{
    lemma_place_of(s, '\n');
    let n = place_of(s, '\n') as int;
    if s.len() > 0 {
        lemma_flat_first(segments(s));
        if n < s.len() {
            let rest = s.skip(n + 1);
            lemma_segments_flat(rest);
            assert(segments(s).skip(1) =~= segments(rest));
            assert(flat(segments(s)) =~= s);
        } else {
            assert(segments(s).skip(1) =~= Seq::<Seq<char>>::empty());
            assert(flat(segments(s)) =~= s);
        }
    } else {
        assert(s =~= Seq::<char>::empty());
    }
}

/// A line ending is white space: it goes with the white space at the end of a line.
pub proof fn lemma_trimmed_end_ending(s: Seq<char>)
    ensures
        trimmed_end(without_ending(s), CharClass::White) == trimmed_end(s, CharClass::White),
{
    if s.len() > 0 && s.last() == '\n' {
        lemma_trimmed_end_last(s);
        let t = s.drop_last();
        assert(s.take(s.len() - 1) =~= t);
        if t.len() > 0 && t.last() == '\r' {
            assert(s[s.len() - 2] == '\r');
            lemma_trimmed_end_last(t);
            assert(s.take(s.len() - 2) =~= t.drop_last());
        }
    }
}

proof fn lemma_trimmed_end_last(s: Seq<char>)
    requires
        s.len() > 0,
        is_white(s.last()),
    ensures
        trimmed_end(s, CharClass::White) == trimmed_end(s.drop_last(), CharClass::White),
{
    lemma_tail_len(s.drop_last(), CharClass::White);
    assert(trimmed_end(s, CharClass::White) =~= trimmed_end(s.drop_last(), CharClass::White));
}

/// A complete line is cut off whole.
pub proof fn lemma_one_line(line: Seq<char>)
    requires
        !line.contains('\n'),
    ensures
        segments(line.push('\n')) == seq![line.push('\n')],
        lines(line.push('\n')) == seq![without_ending(line.push('\n'))],
{
    let piece = line.push('\n');
    let n = line.len();
    assert forall|i: int| 0 <= i < n implies #[trigger] piece[i] != '\n' by {
        assert(piece[i] == line[i]);
    }
    lemma_place_of_unique(piece, '\n', n);
    assert(piece.take(n as int + 1) =~= piece);
    assert(segments(piece.skip(n as int + 1)) =~= Seq::<Seq<char>>::empty());
    assert(segments(piece) =~= seq![piece]);
    assert(lines(piece) =~= seq![without_ending(piece)]);
}

/// The parts of `s` between the separators `c`.
pub open spec fn split_at_char(s: Seq<char>, c: char) -> Seq<Seq<char>>
    decreases s.len(),
    via split_at_char_decreases
{
    if place_of(s, c) < s.len() {
        seq![s.take(place_of(s, c) as int)] + split_at_char(s.skip(place_of(s, c) as int + 1), c)
    } else {
        seq![s]
    }
}

#[via_fn]
proof fn split_at_char_decreases(s: Seq<char>, c: char) {
    lemma_place_of(s, c);
}

/// The parts of a text between the separators `c`.
pub fn split_chars(chars: &Vec<char>, c: char) -> (r: Vec<String>)
    ensures
        r.deep_view() == split_at_char(chars@, c),
{
    let mut out: Vec<String> = Vec::new();
    let mut rest = part_of(chars, 0, chars.len());
    assert(rest@ =~= chars@);
    assert(out.deep_view() + split_at_char(rest@, c) =~= split_at_char(chars@, c));
    loop
        invariant
            out.deep_view() + split_at_char(rest@, c) == split_at_char(chars@, c),
        decreases rest@.len(),
    {
        let n = find_char(&rest, c);
        let ghost before = out.deep_view();
        if n < rest.len() {
            let piece = text_of(&part_of(&rest, 0, n));
            let next = part_of(&rest, n + 1, rest.len());
            proof {
                assert(piece@ =~= rest@.take(n as int));
                assert(next@ =~= rest@.skip(n as int + 1));
            }
            out.push(piece);
            proof {
                assert(out.deep_view() =~= before.push(piece@));
                assert(before.push(piece@) + split_at_char(next@, c) =~= before + (seq![piece@]
                    + split_at_char(next@, c)));
            }
            rest = next;
        } else {
            let piece = text_of(&rest);
            out.push(piece);
            assert(out.deep_view() =~= before.push(piece@));
            assert(before.push(piece@) =~= before + seq![piece@]);
            return out;
        }
    }
}

/// Three texts one behind the other.
pub fn cat3(a: &str, b: &str, c: &str) -> (r: String)
    ensures
        r@ == a@ + b@ + c@,
{
    let mut out = a.to_owned();
    out.append(b);
    out.append(c);
    out
}

/// Five texts one behind the other.
pub fn cat5(a: &str, b: &str, c: &str, d: &str, e: &str) -> (r: String)
    ensures
        r@ == a@ + b@ + c@ + d@ + e@,
{
    let mut out = cat3(a, b, c);
    out.append(d);
    out.append(e);
    out
}

} // verus!
