//! Path texts with `/` between their parts. A platform that writes its paths otherwise has them
//! rewritten before they come here.

use vstd::prelude::*;

use crate::text::{chars_of, part_of, same_text, split_at_char, split_chars, text_of};

verus! {

/// The last part that names something: not empty and not `.`.
pub open spec fn last_name(parts: Seq<Seq<char>>) -> Option<Seq<char>>
    decreases parts.len(),
{
    if parts.len() == 0 {
        None
    } else if parts.last() == ""@ || parts.last() == "."@ {
        last_name(parts.drop_last())
    } else {
        Some(parts.last())
    }
}

/// The final component of a path, unless it has none or ends in `..`.
pub open spec fn file_name(path: Seq<char>) -> Option<Seq<char>> {
    match last_name(split_at_char(path, '/')) {
        Some(name) => if name == ".."@ {
            None
        } else {
            Some(name)
        },
        None => None,
    }
}

/// The final component of a path, unless it has none or ends in `..`.
pub fn file_name_of(path: &str) -> (r: Option<String>)
    ensures
        r.deep_view() == file_name(path@),
{
    let parts = split_chars(&chars_of(path), '/');
    let ghost all = parts.deep_view();
    let mut n: usize = parts.len();
    assert(all.take(n as int) =~= all);
    while n > 0
        invariant
            all == parts.deep_view(),
            all == split_at_char(path@, '/'),
            n <= all.len(),
            last_name(all) == last_name(all.take(n as int)),
        decreases n,
    {
        assert(all[n - 1] == parts@[n - 1]@);
        assert(all.take(n as int).drop_last() =~= all.take(n - 1));
        let part = &parts[n - 1];
        if !same_text(part, "") && !same_text(part, ".") {
            if same_text(part, "..") {
                return None;
            }
            return Some(part.clone());
        }
        n = n - 1;
    }
    None
}

/// A file name is not empty.
pub proof fn lemma_file_name_not_empty(path: Seq<char>)
    ensures
        file_name(path) matches Some(name) ==> name.len() > 0,
{
    lemma_last_name_not_empty(split_at_char(path, '/'));
}

proof fn lemma_last_name_not_empty(parts: Seq<Seq<char>>)
    ensures
        last_name(parts) matches Some(name) ==> name.len() > 0,
    decreases parts.len(),
{
    if parts.len() > 0 {
        lemma_last_name_not_empty(parts.drop_last());
        if parts.last().len() == 0 {
            reveal_strlit("");
            assert(parts.last() =~= ""@);
        }
    }
}

/// The index of the last `.` in a file name, where there is one behind its first character.
pub open spec fn suffix_dot(name: Seq<char>, n: int) -> Option<int>
    decreases n,
{
    if n <= 1 {
        None
    } else if name[n - 1] == '.' {
        Some(n - 1)
    } else {
        suffix_dot(name, n - 1)
    }
}

/// A file name without its extension.
pub open spec fn stem_of_name(name: Seq<char>) -> Seq<char> {
    match suffix_dot(name, name.len() as int) {
        Some(i) => name.take(i),
        None => name,
    }
}

/// The extension of a file name.
pub open spec fn extension_of_name(name: Seq<char>) -> Option<Seq<char>> {
    match suffix_dot(name, name.len() as int) {
        Some(i) => Some(name.skip(i + 1)),
        None => None,
    }
}

fn find_suffix_dot(name: &Vec<char>) -> (r: Option<usize>)
    ensures
        match r {
            Some(i) => suffix_dot(name@, name@.len() as int) == Some(i as int) && i < name@.len(),
            None => suffix_dot(name@, name@.len() as int) is None,
        },
{
    let mut n: usize = name.len();
    while n > 1
        invariant
            n <= name@.len(),
            suffix_dot(name@, name@.len() as int) == suffix_dot(name@, n as int),
        decreases n,
    {
        if name[n - 1] == '.' {
            return Some(n - 1);
        }
        n = n - 1;
    }
    None
}

/// The file name of a path without its extension; empty where the path has no file name.
pub open spec fn file_stem(path: Seq<char>) -> Seq<char> {
    match file_name(path) {
        Some(name) => stem_of_name(name),
        None => ""@,
    }
}

/// The file name of a path without its extension; empty where the path has no file name.
pub fn file_stem_of(path: &str) -> (r: String)
    ensures
        r@ == file_stem(path@),
{
    match file_name_of(path) {
        Some(name) => {
            let chars = chars_of(&name);
            match find_suffix_dot(&chars) {
                Some(i) => {
                    let stem = part_of(&chars, 0, i);
                    assert(stem@ =~= name@.take(i as int));
                    text_of(&stem)
                },
                None => name,
            }
        },
        None => "".to_owned(),
    }
}

/// The extension of a path's file name.
pub open spec fn extension(path: Seq<char>) -> Option<Seq<char>> {
    match file_name(path) {
        Some(name) => extension_of_name(name),
        None => None,
    }
}

/// The extension of a path's file name.
pub fn extension_of(path: &str) -> (r: Option<String>)
    ensures
        r.deep_view() == extension(path@),
{
    match file_name_of(path) {
        Some(name) => {
            let chars = chars_of(&name);
            match find_suffix_dot(&chars) {
                Some(i) => {
                    let n = chars.len();
                    let ext = part_of(&chars, i + 1, n);
                    assert(ext@ =~= name@.skip(i as int + 1));
                    Some(text_of(&ext))
                },
                None => None,
            }
        },
        None => None,
    }
}

/// `tail` put behind `base`: an absolute `tail` replaces it, else a slash stands between them
/// unless `base` is empty or ends in one.
pub open spec fn joined_path(base: Seq<char>, tail: Seq<char>) -> Seq<char> {
    if tail.len() > 0 && tail[0] == '/' {
        tail
    } else if base.len() == 0 || base.last() == '/' {
        base + tail
    } else {
        base.push('/') + tail
    }
}

/// `tail` put behind `base`.
pub fn join_path(base: &str, tail: &str) -> (r: String)
    ensures
        r@ == joined_path(base@, tail@),
{
    let b = chars_of(base);
    let t = chars_of(tail);
    if t.len() > 0 && t[0] == '/' {
        return tail.to_owned();
    }
    let mut out = base.to_owned();
    if b.len() > 0 && b[b.len() - 1] != '/' {
        out.push('/');
    }
    out.append(tail);
    out
}

} // verus!
