//! What scanning promises: which names paths have, and which notes, projects and commits are found.

use vstd::prelude::*;

use crate::config::expanded;
use crate::paths::{
    extension, extension_of_name, file_name, file_stem, joined_path, last_name, stem_of_name,
    suffix_dot,
};
use crate::extract::{language_table, owner_of};
use crate::patterns::{all_captures_of, is_date, JS_DEF, PYTHON_DEF, RUBY_DEF};
use crate::scan::{
    commit_of, commits_upto, file_symbols, fingerprint, greatest, is_noise, is_note_path,
    is_project_entry, language_of_file, notes_upto, projects_upto, repo_symbols, EntryModel,
    NoteFileModel, ProjectModel, SymbolModel, TextFileModel,
};
use crate::text::{
    decimal, has_prefix, lemma_place_of, lemma_place_of_unique, place_of, split_at_char,
};
use crate::wording::law_numerals_read_back;

verus! {

/// Whether a text can be the name of a file.
pub open spec fn is_plain_name(name: Seq<char>) -> bool {
    &&& name.len() > 0
    &&& !name.contains('/')
    &&& name != "."@
    &&& name != ".."@
}

/// Splitting at a character takes a text before one of them apart from the text behind it.
pub proof fn lemma_split_concat(a: Seq<char>, b: Seq<char>, c: char)
    ensures
        split_at_char(a.push(c) + b, c) == split_at_char(a, c) + split_at_char(b, c),
    decreases a.len(),
{
    let s = a.push(c) + b;
    let n = place_of(a, c);
    lemma_place_of(a, c);
    assert forall|i: int| 0 <= i < n implies #[trigger] s[i] != c by {
        assert(s[i] == a[i]);
    }
    lemma_place_of_unique(s, c, n);
    if n < a.len() {
        let rest = a.skip(n as int + 1);
        lemma_split_concat(rest, b, c);
        assert(s.skip(n as int + 1) =~= rest.push(c) + b);
        assert(s.take(n as int) =~= a.take(n as int));
        assert(split_at_char(s, c) =~= split_at_char(a, c) + split_at_char(b, c));
    } else {
        assert(s.take(n as int) =~= a);
        assert(s.skip(n as int + 1) =~= b);
    }
}

proof fn lemma_one_part(name: Seq<char>, c: char)
    requires
        !name.contains(c),
    ensures
        split_at_char(name, c) == seq![name],
{
    assert forall|i: int| 0 <= i < name.len() implies #[trigger] name[i] != c by {
        assert(name.contains(name[i]));
    }
    lemma_place_of_unique(name, c, name.len());
}

/// The name of a file is what stands behind the last slash of its path. A slash at the end of the
/// path, or a part that is `.`, does not count.
pub proof fn law_files_are_named_by_the_last_part(dir: Seq<char>, name: Seq<char>)
    requires
        is_plain_name(name),
    ensures
        file_name(name) == Some(name),
        file_name(dir.push('/') + name) == Some(name),
        file_name(dir.push('/')) == file_name(dir),
        file_name(dir.push('/').push('.')) == file_name(dir),
        file_name(""@) is None,
        file_name(".."@) is None,
        file_name(dir.push('/') + ".."@) is None,
{
    reveal_strlit("");
    reveal_strlit(".");
    reveal_strlit("..");
    let none = Seq::<char>::empty();
    assert(""@ =~= none);
    assert("."@ =~= none.push('.'));
    reveal_with_fuel(last_name, 2);
    lemma_one_part(name, '/');
    lemma_one_part(none, '/');
    lemma_one_part("."@, '/');
    lemma_one_part(".."@, '/');
    let parts = split_at_char(dir, '/');
    lemma_split_concat(dir, name, '/');
    lemma_split_concat(dir, none, '/');
    lemma_split_concat(dir, "."@, '/');
    lemma_split_concat(dir, ".."@, '/');
    assert(dir.push('/') + none =~= dir.push('/'));
    assert(dir.push('/') + "."@ =~= dir.push('/').push('.'));
    assert((parts + seq![none]).drop_last() =~= parts);
    assert((parts + seq!["."@]).drop_last() =~= parts);
    assert((parts + seq![name]).last() == name);
    assert((parts + seq![".."@]).last() == ".."@);
}

proof fn lemma_suffix_dot(name: Seq<char>, n: int, at: int)
    requires
        0 <= n <= name.len(),
        0 < at < n,
        name[at] == '.',
        forall|i: int| at < i < n ==> #[trigger] name[i] != '.',
    ensures
        suffix_dot(name, n) == Some(at),
    decreases n,
{
    if at < n - 1 {
        lemma_suffix_dot(name, n - 1, at);
    }
}

proof fn lemma_no_suffix(name: Seq<char>, n: int)
    requires
        0 <= n <= name.len(),
        forall|i: int| 0 < i < n ==> #[trigger] name[i] != '.',
    ensures
        suffix_dot(name, n) is None,
    decreases n,
{
    if n > 1 {
        lemma_no_suffix(name, n - 1);
    }
}

/// A file name splits at its last `.` into the stem and the extension.
pub proof fn law_names_split_at_the_last_dot(stem: Seq<char>, ext: Seq<char>)
    requires
        stem.len() > 0,
        !ext.contains('.'),
    ensures
        stem_of_name(stem.push('.') + ext) == stem,
        extension_of_name(stem.push('.') + ext) == Some(ext),
{
    let name = stem.push('.') + ext;
    assert forall|i: int| stem.len() < i < name.len() implies #[trigger] name[i] != '.' by {
        assert(name[i] == ext[i - stem.len() - 1]);
        assert(ext.contains(ext[i - stem.len() - 1]));
    }
    lemma_suffix_dot(name, name.len() as int, stem.len() as int);
    assert(name.take(stem.len() as int) =~= stem);
    assert(name.skip(stem.len() as int + 1) =~= ext);
}

/// A file name without a `.` behind its first character has no extension.
pub proof fn law_names_without_a_dot_have_no_extension(name: Seq<char>)
    requires
        forall|i: int| 0 < i < name.len() ==> #[trigger] name[i] != '.',
    ensures
        stem_of_name(name) == name,
        extension_of_name(name) is None,
{
    lemma_no_suffix(name, name.len() as int);
}

/// The path of a file: its directory, its stem and its extension.
pub open spec fn path_made_of(dir: Seq<char>, stem: Seq<char>, ext: Seq<char>) -> Seq<char> {
    dir.push('/') + (stem.push('.') + ext)
}

/// A path says the stem and the extension of its file.
pub proof fn law_paths_say_stem_and_extension(dir: Seq<char>, stem: Seq<char>, ext: Seq<char>)
    requires
        stem.len() > 0,
        !stem.contains('/'),
        !ext.contains('/'),
        !ext.contains('.'),
        stem.push('.') + ext != ".."@,
    ensures
        file_stem(path_made_of(dir, stem, ext)) == stem,
        extension(path_made_of(dir, stem, ext)) == Some(ext),
        file_stem(stem.push('.') + ext) == stem,
        extension(stem.push('.') + ext) == Some(ext),
{
    let name = stem.push('.') + ext;
    reveal_strlit(".");
    assert forall|i: int| 0 <= i < name.len() implies #[trigger] name[i] != '/' by {
        if i < stem.len() {
            assert(stem.contains(stem[i]));
        } else if i > stem.len() {
            assert(ext.contains(ext[i - stem.len() - 1]));
        }
    }
    assert(name.len() >= 2);
    assert("."@.len() == 1);
    law_files_are_named_by_the_last_part(dir, name);
    law_names_split_at_the_last_dot(stem, ext);
}

/// A relative path that is put behind a directory lies in it and keeps its name. An absolute one
/// stays as it is. A path behind `~/` lies in the home directory.
pub proof fn law_joined_paths_lie_below(base: Seq<char>, tail: Seq<char>, name: Seq<char>)
    requires
        is_plain_name(name),
        tail.len() > 0 && tail[0] == '/',
    ensures
        joined_path(base, tail) == tail,
        joined_path(base, name).len() <= base.len() + 1 + name.len(),
        joined_path(base, name).take(base.len() as int) == base,
        file_name(joined_path(base, name)) == Some(name),
        base.len() > 0 ==> joined_path(base, name)[joined_path(base, name).len() - name.len() - 1]
            == '/',
        expanded("~/"@ + name, Some(base)) == joined_path(base, name),
        expanded("~/"@ + name, None) == "~/"@ + name,
        expanded(tail, Some(base)) == tail,
{
    reveal_strlit("~/");
    assert(name.contains(name[0]));
    let joined = joined_path(base, name);
    if base.len() == 0 {
        assert(joined =~= name);
        law_files_are_named_by_the_last_part(base, name);
    } else if base.last() == '/' {
        let dir = base.drop_last();
        assert(dir.push('/') =~= base);
        law_files_are_named_by_the_last_part(dir, name);
    } else {
        law_files_are_named_by_the_last_part(base, name);
    }
    assert(joined.take(base.len() as int) =~= base);
    let path = "~/"@ + name;
    assert(path.skip(2) =~= name);
    assert(path.take(2) =~= "~/"@);
    assert(!has_prefix(tail, "~/"@)) by {
        if has_prefix(tail, "~/"@) {
            assert(tail.take(2)[0] == "~/"@[0]);
        }
    }
}

/// Whether an entry is the note that file `i` is.
pub open spec fn is_note_of(files: Seq<TextFileModel>, i: int, note: NoteFileModel) -> bool {
    &&& 0 <= i < files.len()
    &&& extension(files[i].path) == Some("md"@)
    &&& note.path == files[i].path
    &&& note.body == files[i].body
    &&& note.mtime_date == files[i].mtime_date
    &&& note.note_date is Some <==> is_day_text(file_stem(files[i].path))
    &&& note.note_date is Some ==> note.note_date == Some(file_stem(files[i].path))
}

/// Whether a text is written as a date: `YYYY-MM-DD`.
pub open spec fn is_day_text(text: Seq<char>) -> bool {
    &&& text.len() == 10
    &&& forall|i: int|
        0 <= i < 10 ==> if i == 4 || i == 7 {
            #[trigger] text[i] == '-'
        } else {
            '0' <= text[i] <= '9'
        }
}

/// The notes of a source are its files with the extension `md`, each once and in their order, with
/// what was read. A note is dated by its file name where that is a date, and only then.
pub proof fn law_notes_are_the_markdown_files(files: Seq<TextFileModel>, n: int) -> (places: Seq<int>)
    requires
        0 <= n <= files.len(),
    ensures
        places.len() == notes_upto(files, n).len(),
        forall|k: int|
            0 <= k < places.len() ==> #[trigger] places[k] < n && is_note_of(
                files,
                places[k],
                notes_upto(files, n)[k],
            ),
        forall|k: int, l: int|
            0 <= k < l < places.len() ==> #[trigger] places[k] < #[trigger] places[l],
        forall|i: int|
            0 <= i < n && extension((#[trigger] files[i]).path) == Some("md"@) ==> places.contains(
                i,
            ),
    decreases n,
{
    if n <= 0 {
        Seq::empty()
    } else {
        let rest = law_notes_are_the_markdown_files(files, n - 1);
        if is_note_path(files[n - 1].path) {
            let places = rest.push(n - 1);
            let all = notes_upto(files, n);
            let stem = file_stem(files[n - 1].path);
            assert(is_date(stem) <==> is_day_text(stem)) by {
                if is_day_text(stem) {
                    assert(stem[4] == '-' && stem[7] == '-');
                }
            }
            assert forall|k: int| 0 <= k < places.len() implies #[trigger] places[k] < n
                && is_note_of(files, places[k], all[k]) by {
                if k < rest.len() {
                    assert(places[k] == rest[k]);
                }
            }
            assert forall|i: int|
                0 <= i < n && extension((#[trigger] files[i]).path) == Some(
                    "md"@,
                ) implies places.contains(i) by {
                if i < n - 1 {
                    assert(rest.contains(i));
                    let k = choose|k: int| 0 <= k < rest.len() && rest[k] == i;
                    assert(places[k] == i);
                } else {
                    assert(places[rest.len() as int] == i);
                }
            }
            places
        } else {
            rest
        }
    }
}

/// The newest of some times is one of them, and none is later.
pub open spec fn is_newest(stamps: Seq<u128>, t: u128) -> bool {
    stamps.contains(t) && forall|i: int| 0 <= i < stamps.len() ==> #[trigger] stamps[i] <= t
}

proof fn lemma_greatest(stamps: Seq<u128>)
    requires
        stamps.len() > 0,
    ensures
        is_newest(stamps, greatest(stamps)),
    decreases stamps.len(),
{
    if stamps.len() > 1 {
        let rest = stamps.drop_last();
        lemma_greatest(rest);
        let k = choose|k: int| 0 <= k < rest.len() && rest[k] == greatest(rest);
        assert(stamps[k] == greatest(rest));
        assert(stamps[stamps.len() - 1] == stamps.last());
        assert forall|i: int| 0 <= i < stamps.len() implies #[trigger] stamps[i] <= greatest(
            stamps,
        ) by {
            if i < rest.len() {
                assert(stamps[i] == rest[i]);
            }
        }
    } else {
        assert(stamps[0] == greatest(stamps));
    }
}

/// The fingerprint of a repo is the numeral of the newest of its times. There is none only where
/// there is no time.
pub proof fn law_fingerprint_is_the_newest_time(stamps: Seq<u128>, t: u128)
    requires
        is_newest(stamps, t),
    ensures
        fingerprint(stamps) == Some(decimal(t as nat)),
        fingerprint(Seq::empty()) is None,
{
    let k = choose|k: int| 0 <= k < stamps.len() && stamps[k] == t;
    lemma_greatest(stamps);
    assert(stamps[k] <= greatest(stamps));
    let l = choose|l: int| 0 <= l < stamps.len() && stamps[l] == greatest(stamps);
    assert(stamps[l] <= t);
}

/// Repos whose newest times differ have different fingerprints.
pub proof fn law_fingerprints_tell_times_apart(a: Seq<u128>, b: Seq<u128>, s: u128, t: u128)
    requires
        is_newest(a, s),
        is_newest(b, t),
        s != t,
    ensures
        fingerprint(a) != fingerprint(b),
{
    law_fingerprint_is_the_newest_time(a, s);
    law_fingerprint_is_the_newest_time(b, t);
    law_numerals_read_back(s as nat);
    law_numerals_read_back(t as nat);
}

/// Whether an entry is a directory with a name that does not start with a `.`.
pub open spec fn is_visible_dir(entry: EntryModel) -> bool {
    &&& entry.is_dir
    &&& file_name(entry.path) matches Some(name) && name.len() > 0 && name[0] != '.'
}

/// Whether an item is the project that entry `i` is.
pub open spec fn is_project_of(entries: Seq<EntryModel>, i: int, project: ProjectModel) -> bool {
    &&& 0 <= i < entries.len()
    &&& is_visible_dir(entries[i])
    &&& file_name(entries[i].path) == Some(project.name)
    &&& project.path == entries[i].path
    &&& project.is_repo == entries[i].has_git
    &&& !project.is_repo ==> project.git_fingerprint is None
    &&& project.is_repo ==> project.git_fingerprint == fingerprint(entries[i].git_stamps)
}

proof fn lemma_visible(entry: EntryModel)
    ensures
        is_project_entry(entry) <==> is_visible_dir(entry),
{
    reveal_strlit(".");
    if let Some(name) = file_name(entry.path) {
        crate::paths::lemma_file_name_not_empty(entry.path);
        assert(name.take(1) =~= seq![name[0]]);
        assert("."@ =~= seq!['.']);
        if has_prefix(name, "."@) {
            assert(name.take(1)[0] == '.');
        }
    }
}

/// The projects of a source are the directories in it whose names are not hidden, each once and in
/// their order, with what was seen of them.
pub proof fn law_projects_are_the_visible_directories(entries: Seq<EntryModel>, n: int) -> (places:
    Seq<int>)
    requires
        0 <= n <= entries.len(),
    ensures
        places.len() == projects_upto(entries, n).len(),
        forall|k: int|
            0 <= k < places.len() ==> #[trigger] places[k] < n && is_project_of(
                entries,
                places[k],
                projects_upto(entries, n)[k],
            ),
        forall|k: int, l: int|
            0 <= k < l < places.len() ==> #[trigger] places[k] < #[trigger] places[l],
        forall|i: int|
            0 <= i < n && is_visible_dir(#[trigger] entries[i]) ==> places.contains(i),
    decreases n,
{
    if n <= 0 {
        Seq::empty()
    } else {
        let rest = law_projects_are_the_visible_directories(entries, n - 1);
        lemma_visible(entries[n - 1]);
        if is_project_entry(entries[n - 1]) {
            let places = rest.push(n - 1);
            let all = projects_upto(entries, n);
            assert forall|k: int| 0 <= k < places.len() implies #[trigger] places[k] < n
                && is_project_of(entries, places[k], all[k]) by {
                if k < rest.len() {
                    assert(places[k] == rest[k]);
                }
            }
            assert forall|i: int|
                0 <= i < n && is_visible_dir(#[trigger] entries[i]) implies places.contains(i) by {
                if i < n - 1 {
                    assert(rest.contains(i));
                    let k = choose|k: int| 0 <= k < rest.len() && rest[k] == i;
                    assert(places[k] == i);
                } else {
                    assert(places[rest.len() as int] == i);
                }
            }
            places
        } else {
            rest
        }
    }
}

/// A line of a git log: an abbreviated hash, a date and a subject.
pub open spec fn log_line_of(sha: Seq<char>, date: Seq<char>, subject: Seq<char>) -> Seq<char> {
    sha.push('\x1f') + (date.push('\x1f') + subject)
}

/// A log line says the hash, the date and the subject of a commit; the subject may hold anything.
pub proof fn law_log_lines_tell_commits(sha: Seq<char>, date: Seq<char>, subject: Seq<char>)
    requires
        !sha.contains('\x1f'),
        !date.contains('\x1f'),
    ensures
        commit_of(log_line_of(sha, date, subject)) == Some(
            seq![("sha"@, sha), ("date"@, date), ("subject"@, subject)],
        ),
{
    let line = log_line_of(sha, date, subject);
    let behind = date.push('\x1f') + subject;
    assert forall|i: int| 0 <= i < sha.len() implies #[trigger] line[i] != '\x1f' by {
        assert(line[i] == sha[i]);
        assert(sha.contains(sha[i]));
    }
    lemma_place_of_unique(line, '\x1f', sha.len());
    let rest = line.skip(sha.len() as int + 1);
    assert(rest =~= behind);
    assert forall|i: int| 0 <= i < date.len() implies #[trigger] rest[i] != '\x1f' by {
        assert(rest[i] == date[i]);
        assert(date.contains(date[i]));
    }
    lemma_place_of_unique(rest, '\x1f', date.len());
    assert(line.take(sha.len() as int) =~= sha);
    assert(rest.take(date.len() as int) =~= date);
    assert(rest.skip(date.len() as int + 1) =~= subject);
    assert(commit_of(line)->0 =~= seq![("sha"@, sha), ("date"@, date), ("subject"@, subject)]);
}

/// A line with fewer than two unit separators tells of no commit.
pub proof fn law_other_lines_tell_nothing(line: Seq<char>)
    requires
        forall|i: int, j: int|
            0 <= i < j < line.len() ==> !(#[trigger] line[i] == '\x1f' && #[trigger] line[j]
                == '\x1f'),
    ensures
        commit_of(line) is None,
{
    lemma_place_of(line, '\x1f');
    let a = place_of(line, '\x1f') as int;
    let rest = line.skip(a + 1);
    lemma_place_of(rest, '\x1f');
    let b = place_of(rest, '\x1f') as int;
    if a < line.len() && b < rest.len() {
        assert(line[a + 1 + b] == rest[b]);
        assert(line[a] == '\x1f');
    }
}

/// The commits of a log are those that its lines tell of, in their order, none left out.
pub proof fn law_every_commit_is_listed(lines: Seq<Seq<char>>, n: int) -> (places: Seq<int>)
    requires
        0 <= n <= lines.len(),
    ensures
        places.len() == commits_upto(lines, n).len(),
        forall|k: int|
            0 <= k < places.len() ==> 0 <= #[trigger] places[k] < n && commit_of(lines[places[k]])
                == Some(commits_upto(lines, n)[k]),
        forall|k: int, l: int|
            0 <= k < l < places.len() ==> #[trigger] places[k] < #[trigger] places[l],
        forall|i: int|
            0 <= i < n && commit_of(#[trigger] lines[i]) is Some ==> places.contains(i),
    decreases n,
{
    if n <= 0 {
        Seq::empty()
    } else {
        let rest = law_every_commit_is_listed(lines, n - 1);
        if commit_of(lines[n - 1]) is Some {
            let places = rest.push(n - 1);
            let all = commits_upto(lines, n);
            assert forall|k: int| 0 <= k < places.len() implies 0 <= #[trigger] places[k] < n
                && commit_of(lines[places[k]]) == Some(all[k]) by {
                if k < rest.len() {
                    assert(places[k] == rest[k]);
                }
            }
            assert forall|i: int|
                0 <= i < n && commit_of(#[trigger] lines[i]) is Some implies places.contains(i) by {
                if i < n - 1 {
                    assert(rest.contains(i));
                    let k = choose|k: int| 0 <= k < rest.len() && rest[k] == i;
                    assert(places[k] == i);
                } else {
                    assert(places[rest.len() as int] == i);
                }
            }
            places
        } else {
            rest
        }
    }
}

/// Whether a file is written in a language: its extension is one of the language's own.
pub open spec fn is_written_in(path: Seq<char>, lang: Seq<char>, pattern: Seq<char>) -> bool {
    match extension(path) {
        Some(ext) => {
            ||| ext == "rb"@ && lang == "ruby"@ && pattern == RUBY_DEF@
            ||| ext == "py"@ && lang == "python"@ && pattern == PYTHON_DEF@
            ||| (ext == "js"@ || ext == "jsx"@ || ext == "ts"@ || ext == "tsx"@ || ext == "mjs"@)
                && lang == "javascript"@ && pattern == JS_DEF@
        },
        None => false,
    }
}

proof fn lemma_language(path: Seq<char>)
    ensures
        match language_of_file(path) {
            Some(l) => is_written_in(path, l.name, l.pattern),
            None => forall|lang: Seq<char>, pattern: Seq<char>|
                !is_written_in(path, lang, pattern),
        },
        forall|lang: Seq<char>, pattern: Seq<char>| #[trigger]
            is_written_in(path, lang, pattern) ==> {
                let l = language_of_file(path);
                l is Some && l->0.name == lang && l->0.pattern == pattern
            },
{
    reveal_with_fuel(owner_of, 4);
    reveal_strlit("rb");
    reveal_strlit("py");
    reveal_strlit("js");
    reveal_strlit("jsx");
    reveal_strlit("ts");
    reveal_strlit("tsx");
    reveal_strlit("mjs");
    let table = language_table();
    if let Some(ext) = extension(path) {
        assert(table[0].exts.contains(ext) <==> ext == "rb"@) by {
            assert(table[0].exts[0] == "rb"@);
        }
        assert(table[1].exts.contains(ext) <==> ext == "py"@) by {
            assert(table[1].exts[0] == "py"@);
        }
        let exts = table[2].exts;
        assert(exts[0] == "js"@ && exts[1] == "jsx"@ && exts[2] == "ts"@ && exts[3] == "tsx"@
            && exts[4] == "mjs"@);
        assert(exts.contains(ext) <==> ext == "js"@ || ext == "jsx"@ || ext == "ts"@ || ext
            == "tsx"@ || ext == "mjs"@);
        assert("rb"@[0] == 'r' && "py"@[0] == 'p' && "js"@[0] == 'j' && "jsx"@[0] == 'j'
            && "ts"@[0] == 't' && "tsx"@[0] == 't' && "mjs"@[0] == 'm');
    }
}

/// Whether a symbol is what match `j` of a language's pattern names in file `i` of a repo.
pub open spec fn is_found_in(
    repo: Seq<char>,
    files: Seq<TextFileModel>,
    symbol: SymbolModel,
    i: int,
    j: int,
    pattern: Seq<char>,
) -> bool {
    &&& 0 <= i < files.len()
    &&& is_written_in(files[i].path, symbol.lang, pattern)
    &&& 0 <= j < all_captures_of(pattern, files[i].body).len()
    &&& symbol.name == all_captures_of(pattern, files[i].body)[j][1]->0
    &&& symbol.file == files[i].path
    &&& symbol.repo == repo
}

/// Every symbol of a repo is named by a match in one of its files, and keeps the file, the repo and
/// the language; and every match in a file of a known language names a symbol.
pub proof fn law_symbols_are_what_patterns_name(repo: Seq<char>, files: Seq<TextFileModel>, n: int)
    requires
        0 <= n <= files.len(),
    ensures
        forall|k: int|
            0 <= k < repo_symbols(repo, files, n).len() ==> is_somewhere(
                repo,
                files,
                #[trigger] repo_symbols(repo, files, n)[k],
            ),
        forall|i: int, lang: Seq<char>, pattern: Seq<char>, j: int|
            0 <= i < n && is_written_in(files[i].path, lang, pattern) && 0 <= j < all_captures_of(
                pattern,
                files[i].body,
            ).len() ==> repo_symbols(repo, files, n).contains(
                #[trigger] symbol_at(repo, files, i, lang, pattern, j),
            ),
    decreases n,
{
    if n > 0 {
        law_symbols_are_what_patterns_name(repo, files, n - 1);
        lemma_language(files[n - 1].path);
        let before = repo_symbols(repo, files, n - 1);
        let more = file_symbols(repo, files[n - 1]);
        let all = repo_symbols(repo, files, n);
        assert forall|k: int| 0 <= k < all.len() implies is_somewhere(
            repo,
            files,
            #[trigger] all[k],
        ) by {
            if k < before.len() {
                assert(all[k] == before[k]);
            } else {
                let l = language_of_file(files[n - 1].path)->0;
                assert(all[k] == more[k - before.len()]);
                assert(is_found_in(repo, files, all[k], n - 1, k - before.len(), l.pattern));
            }
        }
        assert forall|i: int, lang: Seq<char>, pattern: Seq<char>, j: int|
            0 <= i < n && is_written_in(files[i].path, lang, pattern) && 0 <= j < all_captures_of(
                pattern,
                files[i].body,
            ).len() implies all.contains(
            #[trigger] symbol_at(repo, files, i, lang, pattern, j),
        ) by {
            let symbol = symbol_at(repo, files, i, lang, pattern, j);
            if i < n - 1 {
                assert(before.contains(symbol));
                let k = choose|k: int| 0 <= k < before.len() && before[k] == symbol;
                assert(all[k] == symbol);
            } else {
                assert(more[j] == symbol);
                assert(all[before.len() + j] == symbol);
            }
        }
    }
}

/// Whether a symbol is found somewhere in the files of a repo.
pub open spec fn is_somewhere(repo: Seq<char>, files: Seq<TextFileModel>, symbol: SymbolModel) -> bool {
    exists|i: int, j: int, pattern: Seq<char>| #[trigger]
        is_found_in(repo, files, symbol, i, j, pattern)
}

/// The symbol that match `j` of a language's pattern names in file `i` of a repo.
pub open spec fn symbol_at(
    repo: Seq<char>,
    files: Seq<TextFileModel>,
    i: int,
    lang: Seq<char>,
    pattern: Seq<char>,
    j: int,
) -> SymbolModel {
    SymbolModel {
        name: all_captures_of(pattern, files[i].body)[j][1]->0,
        file: files[i].path,
        repo,
        lang,
    }
}

/// The names of what is no source of symbols: version control, vendored code and tests.
pub open spec fn noise_names() -> Seq<Seq<char>> {
    seq![".git"@, "vendor"@, "node_modules"@, "spec"@, "test"@, "tmp"@]
}

/// A code scan leaves out what is called like noise, and nothing else.
pub proof fn law_only_noise_is_left_out(name: Seq<char>)
    ensures
        is_noise(name) <==> noise_names().contains(name),
{
    let all = noise_names();
    assert(all[0] == ".git"@);
    assert(all[1] == "vendor"@);
    assert(all[2] == "node_modules"@);
    assert(all[3] == "spec"@);
    assert(all[4] == "test"@);
    assert(all[5] == "tmp"@);
    if all.contains(name) {
        let k = choose|k: int| 0 <= k < all.len() && all[k] == name;
        assert(k == 0 || k == 1 || k == 2 || k == 3 || k == 4 || k == 5);
    }
}

} // verus!
