//! What the basic operations on texts promise.

use vstd::prelude::*;

use crate::dates::{digit_value, number_at};
use crate::json::member;
use crate::text::{
    decimal, digit_char, is_white, lead_len, lemma_lead_len, lemma_lead_len_unique, lemma_one_line,
    lemma_place_of_unique, lemma_segments_concat, lemma_tail_len, lemma_tail_len_unique, lines,
    replaced, segments, tail_len, trim, trimmed_start, CharClass,
};

verus! {

/// Whether a text is white space and nothing else.
pub open spec fn is_blank(text: Seq<char>) -> bool {
    forall|i: int| 0 <= i < text.len() ==> is_white(#[trigger] text[i])
}

/// Whether a text is empty, or neither starts nor ends with white space.
pub open spec fn is_bare(text: Seq<char>) -> bool {
    text.len() > 0 ==> !is_white(text[0]) && !is_white(text.last())
}

/// Trimming takes the white space off both ends and nothing else.
pub proof fn law_trim_takes_white_space_off(lead: Seq<char>, text: Seq<char>, tail: Seq<char>)
    requires
        is_blank(lead),
        is_blank(tail),
        is_bare(text),
    ensures
        trim(lead + text + tail) == text,
{
    let class = CharClass::White;
    let whole = lead + text + tail;
    if text.len() == 0 {
        assert forall|i: int| 0 <= i < whole.len() implies class.holds(#[trigger] whole[i]) by {
            if i < lead.len() {
                assert(whole[i] == lead[i]);
            } else {
                assert(whole[i] == tail[i - lead.len()]);
            }
        }
        lemma_lead_len_unique(whole, class, whole.len());
        assert(trimmed_start(whole, class) =~= Seq::<char>::empty());
        assert(trim(whole) =~= text);
    } else {
        assert forall|i: int| 0 <= i < lead.len() implies class.holds(#[trigger] whole[i]) by {
            assert(whole[i] == lead[i]);
        }
        assert(whole[lead.len() as int] == text[0]);
        lemma_lead_len_unique(whole, class, lead.len());
        let rest = trimmed_start(whole, class);
        assert(rest =~= text + tail);
        assert forall|i: int| rest.len() - tail.len() <= i < rest.len() implies class.holds(
            #[trigger] rest[i],
        ) by {
            assert(rest[i] == tail[i - text.len()]);
        }
        assert(rest[rest.len() - tail.len() - 1] == text.last());
        lemma_tail_len_unique(rest, class, tail.len());
        assert(trim(whole) =~= text);
    }
}

/// What is trimmed is the text without white space at both ends.
pub proof fn law_trimmed_text_is_bare(text: Seq<char>)
    ensures
        is_bare(trim(text)),
        exists|lead: Seq<char>, tail: Seq<char>|
            #![trigger is_blank(lead), is_blank(tail)]
            is_blank(lead) && is_blank(tail) && text == lead + trim(text) + tail,
{
    let class = CharClass::White;
    lemma_lead_len(text, class);
    let rest = trimmed_start(text, class);
    lemma_tail_len(rest, class);
    let a = lead_len(text, class) as int;
    let b = tail_len(rest, class) as int;
    let t = trim(text);
    if t.len() > 0 {
        assert(t[0] == text[a]);
        assert(t.last() == rest[rest.len() - b - 1]);
    }
    let lead = text.take(a);
    let tail = rest.skip(rest.len() - b);
    assert(is_blank(lead));
    assert(is_blank(tail)) by {
        assert forall|i: int| 0 <= i < tail.len() implies is_white(#[trigger] tail[i]) by {
            assert(tail[i] == rest[rest.len() - b + i]);
        }
    }
    assert(text =~= lead + t + tail);
}

/// Lines end at line feeds: the first line of a text is what stands before its first line feed,
/// without a carriage return at its end, and the other lines are those of what stands behind it.
pub proof fn law_lines_end_at_line_feeds(line: Seq<char>, rest: Seq<char>)
    requires
        !line.contains('\n'),
        line.len() > 0 ==> line.last() != '\r',
    ensures
        lines(line + "\n"@ + rest) == seq![line] + lines(rest),
        lines(line + "\r\n"@ + rest) == seq![line] + lines(rest),
        line.len() > 0 ==> lines(line) == seq![line],
        lines(Seq::<char>::empty()) == Seq::<Seq<char>>::empty(),
{
    reveal_strlit("\n");
    reveal_strlit("\r\n");
    let plain = line.push('\n');
    assert(line + "\n"@ =~= plain);
    lemma_one_line(line);
    assert(crate::text::without_ending(plain) =~= line);
    lemma_segments_concat(plain, rest);
    let cr = line.push('\r');
    assert(!cr.contains('\n')) by {
        if cr.contains('\n') {
            let i = choose|i: int| 0 <= i < cr.len() && cr[i] == '\n';
            assert(line[i] == '\n');
        }
    }
    lemma_one_line(cr);
    assert(line + "\r\n"@ =~= cr.push('\n'));
    assert(crate::text::without_ending(cr.push('\n')) =~= line);
    lemma_segments_concat(cr.push('\n'), rest);
    if line.len() > 0 {
        assert forall|i: int| 0 <= i < line.len() implies #[trigger] line[i] != '\n' by {
            assert(line.contains(line[i]));
        }
        lemma_place_of_unique(line, '\n', line.len());
        assert(segments(line) == seq![line]);
        assert(crate::text::without_ending(line) == line);
        assert(lines(line) =~= seq![line]);
    }
    assert(lines(Seq::<char>::empty()) =~= Seq::<Seq<char>>::empty());
}

/// Replacing a character puts the other text in its place wherever it stands, and changes nothing
/// else.
pub proof fn law_replacing_goes_place_by_place(
    a: Seq<char>,
    b: Seq<char>,
    c: char,
    with: Seq<char>,
)
    ensures
        replaced(a + b, c, with) == replaced(a, c, with) + replaced(b, c, with),
        replaced(seq![c], c, with) == with,
        !a.contains(c) ==> replaced(a, c, with) == a,
    decreases b.len(), a.len(),
{
    assert(seq![c].drop_last() =~= Seq::<char>::empty());
    assert(replaced(seq![c], c, with) =~= with) by {
        reveal_with_fuel(replaced, 2);
        assert(replaced(Seq::<char>::empty(), c, with) + with =~= with);
    }
    if b.len() == 0 {
        assert(a + b =~= a);
        assert(replaced(a, c, with) + replaced(b, c, with) =~= replaced(a, c, with));
    } else {
        let less = b.drop_last();
        assert((a + b).drop_last() =~= a + less);
        assert((a + b).last() == b.last());
        law_replacing_goes_place_by_place(a, less, c, with);
        assert(replaced(a + b, c, with) =~= replaced(a, c, with) + replaced(b, c, with));
    }
    if a.len() > 0 && !a.contains(c) {
        let less = a.drop_last();
        assert(!less.contains(c)) by {
            if less.contains(c) {
                let i = choose|i: int| 0 <= i < less.len() && less[i] == c;
                assert(a[i] == c);
            }
        }
        lemma_unreplaced(a, c, with);
    }
}

proof fn lemma_unreplaced(a: Seq<char>, c: char, with: Seq<char>)
    requires
        !a.contains(c),
    ensures
        replaced(a, c, with) == a,
    decreases a.len(),
{
    if a.len() > 0 {
        let less = a.drop_last();
        assert(!less.contains(c)) by {
            if less.contains(c) {
                let i = choose|i: int| 0 <= i < less.len() && less[i] == c;
                assert(a[i] == c);
            }
        }
        assert(a[a.len() - 1] != c) by {
            assert(a.contains(a[a.len() - 1]));
        }
        lemma_unreplaced(less, c, with);
        assert(replaced(a, c, with) =~= a);
    } else {
        assert(replaced(a, c, with) =~= a);
    }
}

proof fn lemma_number_prefix(s: Seq<char>, d: char, n: int)
    requires
        0 <= n <= s.len(),
    ensures
        number_at(s.push(d), 0, n) == number_at(s, 0, n),
    decreases n,
{
    if n > 0 {
        lemma_number_prefix(s, d, n - 1);
    }
}

/// A numeral is made of digits, has no leading zero but for zero itself, and reads back as the
/// number.
pub proof fn law_numerals_read_back(n: nat)
    ensures
        decimal(n).len() > 0,
        forall|i: int| 0 <= i < decimal(n).len() ==> '0' <= #[trigger] decimal(n)[i] <= '9',
        n > 0 ==> decimal(n)[0] != '0',
        number_at(decimal(n), 0, decimal(n).len() as int) == n,
    decreases n,
{
    if n < 10 {
        reveal_with_fuel(number_at, 2);
    } else {
        let less = decimal(n / 10);
        let d = digit_char(n % 10);
        law_numerals_read_back(n / 10);
        lemma_number_prefix(less, d, less.len() as int);
        assert(decimal(n) == less.push(d));
        assert(digit_value(d) == n % 10);
        assert forall|i: int| 0 <= i < decimal(n).len() implies '0' <= #[trigger] decimal(n)[i]
            <= '9' by {
            if i < less.len() {
                assert(decimal(n)[i] == less[i]);
            }
        }
        assert(decimal(n)[0] == less[0]);
        assert(n == (n / 10) * 10 + n % 10);
    }
}

/// Whether member `k` is the first called `key`.
pub open spec fn is_first_member(fields: Seq<(Seq<char>, Seq<char>)>, key: Seq<char>, k: int) -> bool {
    &&& 0 <= k < fields.len()
    &&& fields[k].0 == key
    &&& forall|j: int| 0 <= j < k ==> (#[trigger] fields[j]).0 != key
}

/// The member of an object called `key` is the first with that name, and there is none only where no
/// member has it.
pub proof fn law_members_are_found_by_name(fields: Seq<(Seq<char>, Seq<char>)>, key: Seq<char>)
    ensures
        forall|k: int| #[trigger]
            is_first_member(fields, key, k) ==> member(fields, key) == Some(fields[k].1),
        member(fields, key) is Some <==> exists|k: int|
            0 <= k < fields.len() && (#[trigger] fields[k]).0 == key,
    decreases fields.len(),
{
    if fields.len() > 0 {
        let rest = fields.skip(1);
        law_members_are_found_by_name(rest, key);
        assert forall|k: int| #[trigger] is_first_member(fields, key, k) implies member(fields, key)
            == Some(fields[k].1) by {
            if k > 0 {
                assert(fields[0].0 != key);
                assert forall|j: int| 0 <= j < k - 1 implies (#[trigger] rest[j]).0 != key by {
                    assert(rest[j] == fields[j + 1]);
                }
                assert(rest[k - 1] == fields[k]);
                assert(is_first_member(rest, key, k - 1));
            }
        }
        if fields[0].0 != key {
            if member(rest, key) is Some {
                let k = choose|k: int| 0 <= k < rest.len() && (#[trigger] rest[k]).0 == key;
                assert(fields[k + 1].0 == key);
            }
            if exists|k: int| 0 <= k < fields.len() && (#[trigger] fields[k]).0 == key {
                let k = choose|k: int| 0 <= k < fields.len() && (#[trigger] fields[k]).0 == key;
                assert(rest[k - 1].0 == key);
            }
        }
    }
}

} // verus!
