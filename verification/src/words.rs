//! What the search for names in prose promises: names count where they stand as whole words.

use vstd::prelude::*;

use crate::extract::{
    all_lowercase, extraction_of, is_word, mentions_from, mentions_upto, name_trusted, prose_of,
    word_bounds,
};
use crate::text::{byte_len, find_from, lemma_find_from, lowercase, occurs_at};

verus! {

/// Whether a character is one that words are made of.
pub open spec fn makes_words(c: char) -> bool {
    'a' <= c <= 'z' || 'A' <= c <= 'Z' || '0' <= c <= '9' || c == '_' || c == '-'
}

/// Whether all characters of a text are ones that words are made of.
pub open spec fn is_one_word(text: Seq<char>) -> bool {
    forall|k: int| 0 <= k < text.len() ==> makes_words(#[trigger] text[k])
}

/// Whether `needle` stands in `text` at `i`.
pub open spec fn stands(text: Seq<char>, needle: Seq<char>, i: int) -> bool {
    0 <= i && i + needle.len() <= text.len() && forall|k: int|
        0 <= k < needle.len() ==> text[i + k] == #[trigger] needle[k]
}

/// Whether a character that words are made of stands directly before or behind `len` characters of
/// `text` at `i`.
pub open spec fn crowded(text: Seq<char>, i: int, len: int) -> bool {
    ||| i > 0 && makes_words(text[i - 1])
    ||| i + len < text.len() && makes_words(text[i + len])
}

/// The places at which `needle` stands as a whole word.
pub open spec fn whole_words(text: Seq<char>, needle: Seq<char>) -> Set<int> {
    Set::new(|i: int| stands(text, needle, i) && !crowded(text, i, needle.len() as int))
}

pub proof fn lemma_stands(text: Seq<char>, needle: Seq<char>, i: int)
    ensures
        stands(text, needle, i) <==> occurs_at(text, needle, i),
{
    if stands(text, needle, i) {
        assert(text.subrange(i, i + needle.len()) =~= needle);
    }
    if occurs_at(text, needle, i) {
        assert forall|k: int| 0 <= k < needle.len() implies text[i + k] == #[trigger] needle[k] by {
            assert(text.subrange(i, i + needle.len())[k] == needle[k]);
        }
    }
}

proof fn lemma_whole(text: Seq<char>, i: int, len: int)
    requires
        0 <= i,
        0 < len,
        i + len <= text.len(),
    ensures
        word_bounds(text, i, i + len) <==> !crowded(text, i, len),
{
    if i > 0 {
        assert(is_word(text[i - 1]) == makes_words(text[i - 1]));
    }
    if i + len < text.len() {
        assert(is_word(text[i + len]) == makes_words(text[i + len]));
    }
}

proof fn lemma_crowded_from(text: Seq<char>, needle: Seq<char>, from: int)
    requires
        0 <= from <= text.len(),
        needle.len() > 0,
        forall|i: int| #[trigger] stands(text, needle, i) ==> crowded(text, i, needle.len() as int),
    ensures
        mentions_from(text, needle, from) == 0,
    decreases text.len() - from,
{
    lemma_find_from(text, needle, from);
    if let Some(i) = find_from(text, needle, from) {
        lemma_stands(text, needle, i);
        assert(stands(text, needle, i));
        lemma_whole(text, i, needle.len() as int);
        lemma_crowded_from(text, needle, i + needle.len());
    }
}

/// A name that stands only inside longer words is not mentioned.
pub proof fn law_names_inside_words_do_not_count(text: Seq<char>, needle: Seq<char>)
    requires
        needle.len() > 0,
        forall|i: int| #[trigger] stands(text, needle, i) ==> crowded(text, i, needle.len() as int),
    ensures
        mentions_from(text, needle, 0) == 0,
{
    lemma_crowded_from(text, needle, 0);
}

/// Whether no whole-word place of `needle` is overlapped by an earlier place of it.
pub open spec fn words_apart(text: Seq<char>, needle: Seq<char>) -> bool {
    forall|i: int, j: int|
        #![trigger stands(text, needle, i), stands(text, needle, j)]
        stands(text, needle, i) && !crowded(text, i, needle.len() as int) && stands(text, needle, j)
            && j < i ==> j + needle.len() <= i
}

proof fn lemma_counted_from(text: Seq<char>, needle: Seq<char>, from: int, places: Set<int>)
    requires
        0 <= from <= text.len(),
        needle.len() > 0,
        words_apart(text, needle),
        forall|i: int| #[trigger]
            places.contains(i) <==> i >= from && stands(text, needle, i) && !crowded(
                text,
                i,
                needle.len() as int,
            ),
    ensures
        places.finite(),
        places.len() == mentions_from(text, needle, from),
    decreases text.len() - from,
{
    let len = needle.len() as int;
    lemma_find_from(text, needle, from);
    match find_from(text, needle, from) {
        None => {
            assert forall|i: int| !places.contains(i) by {
                lemma_stands(text, needle, i);
            }
            assert(places =~= Set::empty());
        },
        Some(at) => {
            lemma_stands(text, needle, at);
            lemma_whole(text, at, len);
            let rest = places.remove(at);
            assert forall|i: int| #[trigger] rest.contains(i) <==> i >= at + len && stands(
                text,
                needle,
                i,
            ) && !crowded(text, i, len) by {
                lemma_stands(text, needle, i);
                assert(stands(text, needle, at));
            }
            lemma_counted_from(text, needle, at + len, rest);
            if places.contains(at) {
                assert(places =~= rest.insert(at));
            } else {
                assert(places =~= rest);
            }
        },
    }
}

/// A name is mentioned as often as it stands as a whole word, wherever none of these places is
/// overlapped by an earlier place of the name.
pub proof fn law_whole_words_are_counted(text: Seq<char>, needle: Seq<char>)
    requires
        needle.len() > 0,
        words_apart(text, needle),
    ensures
        whole_words(text, needle).finite(),
        mentions_from(text, needle, 0) == whole_words(text, needle).len(),
{
    lemma_counted_from(text, needle, 0, whole_words(text, needle));
}

/// A name made of word characters is mentioned as often as it stands as a whole word.
pub proof fn law_words_are_counted(text: Seq<char>, needle: Seq<char>)
    requires
        needle.len() > 0,
        is_one_word(needle),
    ensures
        whole_words(text, needle).finite(),
        mentions_from(text, needle, 0) == whole_words(text, needle).len(),
{
    assert forall|i: int, j: int|
        #![trigger stands(text, needle, i), stands(text, needle, j)]
        stands(text, needle, i) && !crowded(text, i, needle.len() as int) && stands(text, needle, j)
            && j < i implies j + needle.len() <= i by {
        if i < j + needle.len() {
            assert(text[j + (i - 1 - j)] == needle[i - 1 - j]);
        }
    }
    law_whole_words_are_counted(text, needle);
}

proof fn lemma_mentioned(
    names: Seq<Seq<char>>,
    prose: Seq<char>,
    spans: Seq<Seq<char>>,
    n: int,
)
    requires
        0 <= n <= names.len(),
    ensures
        forall|k: int|
            0 <= k < mentions_upto(names, prose, spans, n).len() ==> {
                let (name, count) = #[trigger] mentions_upto(names, prose, spans, n)[k];
                let all = mentions_from(lowercase(prose), lowercase(name), 0);
                &&& names.contains(name)
                &&& all > 0
                &&& count == all as usize
                &&& name_trusted(name, spans)
            },
        forall|i: int|
            0 <= i < n && mentions_from(lowercase(prose), lowercase(#[trigger] names[i]), 0) > 0
                && name_trusted(names[i], spans) ==> mentions_upto(names, prose, spans, n).contains(
                (
                    names[i],
                    mentions_from(lowercase(prose), lowercase(names[i]), 0) as usize,
                ),
            ),
    decreases n,
{
    if n > 0 {
        lemma_mentioned(names, prose, spans, n - 1);
        let rest = mentions_upto(names, prose, spans, n - 1);
        let all = mentions_upto(names, prose, spans, n);
        assert forall|k: int| 0 <= k < all.len() implies {
            let (name, count) = #[trigger] all[k];
            let found = mentions_from(lowercase(prose), lowercase(name), 0);
            &&& names.contains(name)
            &&& found > 0
            &&& count == found as usize
            &&& name_trusted(name, spans)
        } by {
            if k < rest.len() {
                assert(all[k] == rest[k]);
            } else {
                assert(names[n - 1] == all[k].0);
            }
        }
        assert forall|i: int|
            0 <= i < n && mentions_from(lowercase(prose), lowercase(#[trigger] names[i]), 0) > 0
                && name_trusted(names[i], spans) implies all.contains(
            (names[i], mentions_from(lowercase(prose), lowercase(names[i]), 0) as usize),
        ) by {
            let entry = (
                names[i],
                mentions_from(lowercase(prose), lowercase(names[i]), 0) as usize,
            );
            if i < n - 1 {
                assert(rest.contains(entry));
                let k = choose|k: int| 0 <= k < rest.len() && rest[k] == entry;
                assert(all[k] == entry);
            } else {
                assert(all[rest.len() as int] == entry);
            }
        }
    }
}

/// Whether one of the spans is the name in some case.
pub open spec fn backticked(spans: Seq<Seq<char>>, name: Seq<char>) -> bool {
    exists|j: int| 0 <= j < spans.len() && lowercase(#[trigger] spans[j]) == lowercase(name)
}

proof fn lemma_trusted(name: Seq<char>, spans: Seq<Seq<char>>)
    ensures
        name_trusted(name, spans) <==> byte_len(name) >= 4 || backticked(spans, name),
{
    let low = all_lowercase(spans);
    if low.contains(lowercase(name)) {
        let j = choose|j: int| 0 <= j < low.len() && low[j] == lowercase(name);
        assert(lowercase(spans[j]) == lowercase(name));
    }
    if backticked(spans, name) {
        let j = choose|j: int|
            0 <= j < spans.len() && lowercase(#[trigger] spans[j]) == lowercase(name);
        assert(low[j] == lowercase(name));
    }
}

proof fn lemma_room(text: Seq<char>, needle: Seq<char>)
    requires
        needle.len() > 0,
    ensures
        whole_words(text, needle).finite(),
        whole_words(text, needle).len() <= text.len(),
{
    let places = whole_words(text, needle);
    let range = vstd::set_lib::set_int_range(0, text.len() as int);
    vstd::set_lib::lemma_int_range(0, text.len() as int);
    assert(places.subset_of(range));
    vstd::set_lib::lemma_len_subset(places, range);
}

/// Every mention of a note is that of one of the names, stands in its prose as a whole word in
/// whatever case, and has four bytes or more or stands in backticks too. A name that is one word is
/// counted as often as it stands there.
pub proof fn law_mentions_are_whole_words(body: Seq<char>, names: Seq<Seq<char>>, k: int)
    requires
        0 <= k < extraction_of(body, names).project_mentions.len(),
        lowercase(extraction_of(body, names).project_mentions[k].0).len() > 0,
    ensures
        ({
            let found = extraction_of(body, names);
            let name = found.project_mentions[k].0;
            &&& names.contains(name)
            &&& exists|i: int|
                #![trigger stands(lowercase(prose_of(body)), lowercase(name), i)]
                stands(lowercase(prose_of(body)), lowercase(name), i) && !crowded(
                    lowercase(prose_of(body)),
                    i,
                    lowercase(name).len() as int,
                )
            &&& byte_len(name) >= 4 || backticked(found.code_spans, name)
            &&& is_one_word(lowercase(name)) && lowercase(prose_of(body)).len() <= usize::MAX
                ==> found.project_mentions[k].1 == whole_words(
                lowercase(prose_of(body)),
                lowercase(name),
            ).len()
        }),
{
    let found = extraction_of(body, names);
    let prose = prose_of(body);
    let name = found.project_mentions[k].0;
    lemma_mentioned(names, prose, found.code_spans, names.len() as int);
    lemma_trusted(name, found.code_spans);
    assert(found.project_mentions[k] == mentions_upto(
        names,
        prose,
        found.code_spans,
        names.len() as int,
    )[k]);
    let text = lowercase(prose);
    let needle = lowercase(name);
    if is_one_word(needle) {
        law_words_are_counted(text, needle);
        lemma_room(text, needle);
    }
    if forall|i: int| #[trigger] stands(text, needle, i) ==> crowded(text, i, needle.len() as int) {
        law_names_inside_words_do_not_count(text, needle);
    }
}

/// Every name made of word characters that stands in the prose of a note as a whole word in
/// whatever case, and that has four bytes or more or stands in backticks too, is mentioned, as
/// often as it stands there.
pub proof fn law_whole_words_are_mentioned(body: Seq<char>, names: Seq<Seq<char>>, n: int)
    requires
        0 <= n < names.len(),
        lowercase(names[n]).len() > 0,
        is_one_word(lowercase(names[n])),
        byte_len(names[n]) >= 4 || backticked(extraction_of(body, names).code_spans, names[n]),
        whole_words(lowercase(prose_of(body)), lowercase(names[n])) != Set::<int>::empty(),
        lowercase(prose_of(body)).len() <= usize::MAX,
    ensures
        exists|k: int|
            0 <= k < extraction_of(body, names).project_mentions.len() && (
            #[trigger] extraction_of(body, names).project_mentions[k]).0 == names[n]
                && extraction_of(body, names).project_mentions[k].1 == whole_words(
                lowercase(prose_of(body)),
                lowercase(names[n]),
            ).len(),
{
    let found = extraction_of(body, names);
    let prose = prose_of(body);
    let text = lowercase(prose);
    let needle = lowercase(names[n]);
    let places = whole_words(text, needle);
    lemma_mentioned(names, prose, found.code_spans, names.len() as int);
    lemma_trusted(names[n], found.code_spans);
    law_words_are_counted(text, needle);
    assert(places.len() > 0) by {
        if places.len() == 0 {
            assert(places =~= Set::empty());
        }
    }
    lemma_room(text, needle);
    let entry = (names[n], mentions_from(text, needle, 0) as usize);
    assert(found.project_mentions.contains(entry));
    let k = choose|k: int|
        0 <= k < found.project_mentions.len() && found.project_mentions[k] == entry;
    assert(found.project_mentions[k].0 == names[n]);
}

} // verus!
