//! What is found in the sources: notes, projects and their git state, and code symbols.

use vstd::prelude::*;

use crate::extract::{have_group, lang_for_ext, language_of, LangModel};
use crate::json::{json_object, object_text, MetaModel, MetaValue};
use crate::paths::{
    extension, extension_of, file_name, file_name_of, file_stem, file_stem_of,
    lemma_file_name_not_empty,
};
use crate::patterns::{all_captures_of, captures_in_text, is_date, lemma_captures_from, Groups};
use crate::text::{
    chars_of, decimal, decimal_of, find_char, has_prefix, lines, lines_of, part_of, place_of,
    same_text, starts_with, text_of, trim, trim_text,
};

verus! {

/// A note.
pub struct NoteFile {
    pub path: String,
    /// Date parsed from a `YYYY-MM-DD` file name, if the note is a daily note.
    pub note_date: Option<String>,
    /// File modification date as `YYYY-MM-DD`, the staleness fallback for undated notes.
    pub mtime_date: Option<String>,
    pub body: String,
}

/// A project.
pub struct Project {
    pub name: String,
    pub path: String,
    /// Whether this project directory is a git repository.
    pub is_repo: bool,
    /// Cheap staleness signal for the repo's git metadata. `None` for non-repos or where it cannot
    /// be read.
    pub git_fingerprint: Option<String>,
}

/// A code symbol (class, module or function) found in a repo. It becomes a graph entity linked to
/// the repo it lives in.
pub struct CodeSymbol {
    /// Symbol name as written, for example `SummariesBackfill`.
    pub name: String,
    /// Repo-relative file path.
    pub file: String,
    /// The repo's directory name.
    pub repo: String,
    /// Which language's pattern found this symbol.
    pub lang: &'static str,
}

/// A text file of a source.
pub struct TextFile {
    pub path: String,
    /// File modification date as `YYYY-MM-DD`.
    pub mtime_date: Option<String>,
    pub body: String,
}

/// An entry of a projects source.
pub struct DirectoryEntry {
    pub path: String,
    pub is_dir: bool,
    /// Whether it holds a `.git` entry.
    pub has_git: bool,
    /// The modification times, in nanoseconds, of those of the reflog, HEAD and index that there
    /// are.
    pub git_stamps: Vec<u128>,
}

/// The value of a `NoteFile`.
pub struct NoteFileModel {
    pub path: Seq<char>,
    pub note_date: Option<Seq<char>>,
    pub mtime_date: Option<Seq<char>>,
    pub body: Seq<char>,
}

/// The value of a `Project`.
pub struct ProjectModel {
    pub name: Seq<char>,
    pub path: Seq<char>,
    pub is_repo: bool,
    pub git_fingerprint: Option<Seq<char>>,
}

/// The value of a `CodeSymbol`.
pub struct SymbolModel {
    pub name: Seq<char>,
    pub file: Seq<char>,
    pub repo: Seq<char>,
    pub lang: Seq<char>,
}

/// The value of a `TextFile`.
pub struct TextFileModel {
    pub path: Seq<char>,
    pub mtime_date: Option<Seq<char>>,
    pub body: Seq<char>,
}

/// The value of a `DirectoryEntry`.
pub struct EntryModel {
    pub path: Seq<char>,
    pub is_dir: bool,
    pub has_git: bool,
    pub git_stamps: Seq<u128>,
}

impl DeepView for NoteFile {
    type V = NoteFileModel;

    open spec fn deep_view(&self) -> NoteFileModel {
        NoteFileModel {
            path: self.path@,
            note_date: self.note_date.deep_view(),
            mtime_date: self.mtime_date.deep_view(),
            body: self.body@,
        }
    }
}

impl DeepView for Project {
    type V = ProjectModel;

    open spec fn deep_view(&self) -> ProjectModel {
        ProjectModel {
            name: self.name@,
            path: self.path@,
            is_repo: self.is_repo,
            git_fingerprint: self.git_fingerprint.deep_view(),
        }
    }
}

impl DeepView for CodeSymbol {
    type V = SymbolModel;

    open spec fn deep_view(&self) -> SymbolModel {
        SymbolModel { name: self.name@, file: self.file@, repo: self.repo@, lang: self.lang@ }
    }
}

impl DeepView for TextFile {
    type V = TextFileModel;

    open spec fn deep_view(&self) -> TextFileModel {
        TextFileModel {
            path: self.path@,
            mtime_date: self.mtime_date.deep_view(),
            body: self.body@,
        }
    }
}

impl DeepView for DirectoryEntry {
    type V = EntryModel;

    open spec fn deep_view(&self) -> EntryModel {
        EntryModel {
            path: self.path@,
            is_dir: self.is_dir,
            has_git: self.has_git,
            git_stamps: self.git_stamps@,
        }
    }
}

/// Whether an entry with this file name is left out of a code scan: version control, vendored
/// dependencies, and test trees are noise, not structure.
pub open spec fn is_noise(name: Seq<char>) -> bool {
    ||| name == ".git"@
    ||| name == "vendor"@
    ||| name == "node_modules"@
    ||| name == "spec"@
    ||| name == "test"@
    ||| name == "tmp"@
}

/// Whether an entry with this file name is left out of a code scan.
pub fn skipped_in_code(name: &str) -> (r: bool)
    ensures
        r == is_noise(name@),
{
    same_text(name, ".git") || same_text(name, "vendor") || same_text(name, "node_modules")
        || same_text(name, "spec") || same_text(name, "test") || same_text(name, "tmp")
}

/// The language of a source file, by its extension.
pub open spec fn language_of_file(path: Seq<char>) -> Option<LangModel> {
    match extension(path) {
        Some(ext) => language_of(ext),
        None => None,
    }
}

/// Whether symbols can be extracted from a file.
pub fn is_code_file(path: &str) -> (r: bool)
    ensures
        r == (language_of_file(path@) is Some),
{
    match extension_of(path) {
        Some(ext) => lang_for_ext(&ext).is_some(),
        None => false,
    }
}

/// The symbols that matches of a language's pattern name.
pub open spec fn symbols_of(
    captures: Seq<Groups>,
    file: Seq<char>,
    repo: Seq<char>,
    lang: Seq<char>,
) -> Seq<SymbolModel> {
    Seq::new(
        captures.len(),
        |i: int| SymbolModel { name: captures[i][1]->0, file, repo, lang },
    )
}

/// The symbols that were matched in a file.
pub fn symbols_in(
    captures: &Vec<Vec<Option<String>>>,
    file: &str,
    repo: &str,
    lang: &'static str,
) -> (r: Vec<CodeSymbol>)
    requires
        have_group(captures.deep_view()),
    ensures
        r.deep_view() == symbols_of(captures.deep_view(), file@, repo@, lang@),
{
    let ghost all = captures.deep_view();
    let mut out: Vec<CodeSymbol> = Vec::new();
    let mut i: usize = 0;
    while i < captures.len()
        invariant
            all == captures.deep_view(),
            have_group(all),
            i <= all.len(),
            out@.len() == i,
            forall|k: int|
                0 <= k < i ==> (#[trigger] out@[k]).deep_view() == symbols_of(
                    all,
                    file@,
                    repo@,
                    lang@,
                )[k],
        decreases all.len() - i,
    {
        let group = &captures[i];
        assert(all[i as int] == group.deep_view());
        assert(all[i as int][1] == group@[1].deep_view());
        if let Some(name) = &group[1] {
            out.push(
                CodeSymbol {
                    name: name.clone(),
                    file: file.to_owned(),
                    repo: repo.to_owned(),
                    lang,
                },
            );
        }
        i += 1;
    }
    assert(out.deep_view() =~= symbols_of(all, file@, repo@, lang@));
    out
}

/// The symbols of one file of a repo.
pub open spec fn file_symbols(repo: Seq<char>, file: TextFileModel) -> Seq<SymbolModel> {
    match language_of_file(file.path) {
        Some(lang) => symbols_of(
            all_captures_of(lang.pattern, file.body),
            file.path,
            repo,
            lang.name,
        ),
        None => Seq::empty(),
    }
}

/// The symbols of the first `n` files of a repo.
pub open spec fn repo_symbols(repo: Seq<char>, files: Seq<TextFileModel>, n: int) -> Seq<
    SymbolModel,
>
    decreases n,
{
    if n <= 0 {
        Seq::empty()
    } else {
        repo_symbols(repo, files, n - 1) + file_symbols(repo, files[n - 1])
    }
}

fn symbols_of_file(repo: &str, file: &TextFile) -> (r: Vec<CodeSymbol>)
    ensures
        r.deep_view() == file_symbols(repo@, file.deep_view()),
{
    let none: Vec<CodeSymbol> = Vec::new();
    assert(none.deep_view() =~= Seq::<SymbolModel>::empty());
    let ext = match extension_of(&file.path) {
        Some(ext) => ext,
        None => {
            return none;
        },
    };
    let lang = match lang_for_ext(&ext) {
        Some(lang) => lang,
        None => {
            return none;
        },
    };
    let captures = captures_in_text(lang.def_re(), &file.body);
    proof {
        lemma_captures_from(lang.pattern@, file.body@, 0);
    }
    symbols_in(&captures, &file.path, repo, lang.name)
}

/// Extract top-level symbol definitions from the files of a code repo, dispatching per file
/// extension through the language table. The paths of the files are relative to the repo.
pub fn scan_code(repo: &str, files: &Vec<TextFile>) -> (r: Vec<CodeSymbol>)
    ensures
        r.deep_view() == repo_symbols(repo@, files.deep_view(), files@.len() as int),
{
    let ghost all = files.deep_view();
    let mut out: Vec<CodeSymbol> = Vec::new();
    let mut i: usize = 0;
    assert(out.deep_view() =~= Seq::<SymbolModel>::empty());
    while i < files.len()
        invariant
            all == files.deep_view(),
            i <= all.len(),
            out.deep_view() == repo_symbols(repo@, all, i as int),
        decreases all.len() - i,
    {
        let ghost before = out.deep_view();
        assert(all[i as int] == files@[i as int].deep_view());
        let mut more = symbols_of_file(repo, &files[i]);
        let ghost added = more.deep_view();
        out.append(&mut more);
        assert(out.deep_view() =~= before + added);
        i += 1;
    }
    out
}

/// Whether a file is a note: its extension is `md`.
pub open spec fn is_note_path(path: Seq<char>) -> bool {
    extension(path) == Some("md"@)
}

/// Whether a file is a note.
pub fn is_note_file(path: &str) -> (r: bool)
    ensures
        r == is_note_path(path@),
{
    match extension_of(path) {
        Some(ext) => same_text(&ext, "md"),
        None => false,
    }
}

/// The date that a file stem is, where it is one.
pub open spec fn date_of_stem(stem: Seq<char>) -> Option<Seq<char>> {
    if is_date(stem) {
        Some(stem)
    } else {
        None
    }
}

/// The date that a file stem is: four digits, two digits and two digits with hyphens between.
pub fn parse_date_stem(stem: &str) -> (r: Option<String>)
    ensures
        r.deep_view() == date_of_stem(stem@),
{
    let chars = chars_of(stem);
    if chars.len() != 10 {
        return None;
    }
    let mut i: usize = 0;
    while i < 10
        invariant
            i <= 10,
            chars@ == stem@,
            chars@.len() == 10,
            forall|k: int|
                0 <= k < i ==> if k == 4 || k == 7 {
                    #[trigger] chars@[k] == '-'
                } else {
                    '0' <= chars@[k] <= '9'
                },
        decreases 10 - i,
    {
        let c = chars[i];
        if i == 4 || i == 7 {
            if c != '-' {
                return None;
            }
        } else if !('0' <= c && c <= '9') {
            assert(chars@[i as int] == c);
            return None;
        }
        i += 1;
    }
    assert(chars@[4] == '-' && chars@[7] == '-');
    Some(stem.to_owned())
}

/// The note that a file is.
pub open spec fn note_of_file(file: TextFileModel) -> NoteFileModel {
    NoteFileModel {
        path: file.path,
        note_date: date_of_stem(file_stem(file.path)),
        mtime_date: file.mtime_date,
        body: file.body,
    }
}

/// The notes among the first `n` files.
pub open spec fn notes_upto(files: Seq<TextFileModel>, n: int) -> Seq<NoteFileModel>
    decreases n,
{
    if n <= 0 {
        Seq::empty()
    } else if is_note_path(files[n - 1].path) {
        notes_upto(files, n - 1).push(note_of_file(files[n - 1]))
    } else {
        notes_upto(files, n - 1)
    }
}

/// The notes among the files of a source.
pub fn scan_notes(files: &Vec<TextFile>) -> (r: Vec<NoteFile>)
    ensures
        r.deep_view() == notes_upto(files.deep_view(), files@.len() as int),
{
    let ghost all = files.deep_view();
    let mut out: Vec<NoteFile> = Vec::new();
    let mut i: usize = 0;
    assert(out.deep_view() =~= Seq::<NoteFileModel>::empty());
    while i < files.len()
        invariant
            all == files.deep_view(),
            i <= all.len(),
            out.deep_view() == notes_upto(all, i as int),
        decreases all.len() - i,
    {
        let ghost before = out.deep_view();
        let file = &files[i];
        assert(all[i as int] == file.deep_view());
        if is_note_file(&file.path) {
            let note = NoteFile {
                path: file.path.clone(),
                note_date: parse_date_stem(&file_stem_of(&file.path)),
                mtime_date: crate::store::copy_text(&file.mtime_date),
                body: file.body.clone(),
            };
            out.push(note);
            assert(out.deep_view() =~= before.push(note.deep_view()));
        }
        i += 1;
    }
    out
}

/// The greatest of numbers.
pub open spec fn greatest(stamps: Seq<u128>) -> u128
    decreases stamps.len(),
{
    if stamps.len() <= 1 {
        stamps[0]
    } else {
        let rest = greatest(stamps.drop_last());
        if stamps.last() > rest {
            stamps.last()
        } else {
            rest
        }
    }
}

/// The fingerprint of a repo's git state: its newest modification time, as a numeral.
pub open spec fn fingerprint(stamps: Seq<u128>) -> Option<Seq<char>> {
    if stamps.len() == 0 {
        None
    } else {
        Some(decimal(greatest(stamps) as nat))
    }
}

/// A cheap staleness signal for a repo's git state: the newest of the modification times of the
/// reflog (touched by every commit, checkout, reset and merge), HEAD (branch switches), and the
/// index (staging). `None` where there are none, in which case the repo counts as always stale.
pub fn git_fingerprint(stamps: &Vec<u128>) -> (r: Option<String>)
    ensures
        r.deep_view() == fingerprint(stamps@),
{
    if stamps.len() == 0 {
        return None;
    }
    let mut newest: u128 = stamps[0];
    let mut i: usize = 1;
    assert(stamps@.take(1)[0] == stamps@[0]);
    while i < stamps.len()
        invariant
            1 <= i <= stamps@.len(),
            newest == greatest(stamps@.take(i as int)),
        decreases stamps@.len() - i,
    {
        assert(stamps@.take(i + 1).drop_last() =~= stamps@.take(i as int));
        if stamps[i] > newest {
            newest = stamps[i];
        }
        i += 1;
    }
    assert(stamps@.take(stamps@.len() as int) =~= stamps@);
    Some(decimal_of(newest))
}

/// Whether an entry of a projects source is a project: a directory whose name is not hidden.
pub open spec fn is_project_entry(entry: EntryModel) -> bool {
    &&& entry.is_dir
    &&& file_name(entry.path) matches Some(name) && !has_prefix(name, "."@)
}

/// The project that an entry is.
pub open spec fn project_of_entry(entry: EntryModel) -> ProjectModel {
    ProjectModel {
        name: file_name(entry.path)->0,
        path: entry.path,
        is_repo: entry.has_git,
        git_fingerprint: if entry.has_git {
            fingerprint(entry.git_stamps)
        } else {
            None
        },
    }
}

/// The projects among the first `n` entries.
pub open spec fn projects_upto(entries: Seq<EntryModel>, n: int) -> Seq<ProjectModel>
    decreases n,
{
    if n <= 0 {
        Seq::empty()
    } else if is_project_entry(entries[n - 1]) {
        projects_upto(entries, n - 1).push(project_of_entry(entries[n - 1]))
    } else {
        projects_upto(entries, n - 1)
    }
}

/// The projects among the entries of a source.
pub fn scan_projects(entries: &Vec<DirectoryEntry>) -> (r: Vec<Project>)
    ensures
        r.deep_view() == projects_upto(entries.deep_view(), entries@.len() as int),
        forall|i: int| 0 <= i < r@.len() ==> (#[trigger] r@[i]).name@.len() > 0,
{
    let ghost all = entries.deep_view();
    let mut out: Vec<Project> = Vec::new();
    let mut i: usize = 0;
    assert(out.deep_view() =~= Seq::<ProjectModel>::empty());
    while i < entries.len()
        invariant
            all == entries.deep_view(),
            i <= all.len(),
            out.deep_view() == projects_upto(all, i as int),
            forall|k: int| 0 <= k < out@.len() ==> (#[trigger] out@[k]).name@.len() > 0,
        decreases all.len() - i,
    {
        let ghost before = out.deep_view();
        let entry = &entries[i];
        assert(all[i as int] == entry.deep_view());
        if entry.is_dir {
            if let Some(name) = file_name_of(&entry.path) {
                if !starts_with(&name, ".") {
                    proof {
                        lemma_file_name_not_empty(entry.path@);
                    }
                    let project = Project {
                        name,
                        path: entry.path.clone(),
                        is_repo: entry.has_git,
                        git_fingerprint: if entry.has_git {
                            git_fingerprint(&entry.git_stamps)
                        } else {
                            None
                        },
                    };
                    out.push(project);
                    assert(project.deep_view() == project_of_entry(all[i as int]));
                    assert(out.deep_view() =~= before.push(project.deep_view()));
                }
            }
        }
        i += 1;
    }
    out
}

/// What git said of a repo: the current branch and the recent commits, where the commands
/// succeeded.
pub struct GitOutput {
    pub branch: Option<String>,
    /// One commit per line: abbreviated hash, date and subject, with unit separators between.
    pub log: Option<String>,
}

/// The value of a `GitOutput`.
pub struct GitModel {
    pub branch: Option<Seq<char>>,
    pub log: Option<Seq<char>>,
}

impl DeepView for GitOutput {
    type V = GitModel;

    open spec fn deep_view(&self) -> GitModel {
        GitModel { branch: self.branch.deep_view(), log: self.log.deep_view() }
    }
}

/// The members of a metadata object.
pub type Row = Seq<(Seq<char>, Seq<char>)>;

/// The commit that a log line describes, where it has three parts; the last part is all the rest
/// of the line.
pub open spec fn commit_of(line: Seq<char>) -> Option<Row> {
    let a = place_of(line, '\x1f') as int;
    let rest = line.skip(a + 1);
    let b = place_of(rest, '\x1f') as int;
    if a < line.len() && b < rest.len() {
        Some(
            seq![
                ("sha"@, line.take(a)),
                ("date"@, rest.take(b)),
                ("subject"@, rest.skip(b + 1)),
            ],
        )
    } else {
        None
    }
}

/// The commits that the first `n` lines of a log describe.
pub open spec fn commits_upto(lines: Seq<Seq<char>>, n: int) -> Seq<Row>
    decreases n,
{
    if n <= 0 {
        Seq::empty()
    } else {
        match commit_of(lines[n - 1]) {
            Some(row) => commits_upto(lines, n - 1).push(row),
            None => commits_upto(lines, n - 1),
        }
    }
}

/// The commits that a log describes.
pub open spec fn commits_of(log: Option<Seq<char>>) -> Seq<Row> {
    match log {
        Some(text) => commits_upto(lines(text), lines(text).len() as int),
        None => Seq::empty(),
    }
}

/// The members of a repo's git metadata.
pub open spec fn git_fields(git: GitModel) -> Option<Seq<(Seq<char>, MetaModel)>> {
    match git.branch {
        Some(branch) => Some(
            seq![
                ("branch"@, MetaModel::Text(trim(branch))),
                ("commits"@, MetaModel::Rows(commits_of(git.log))),
            ],
        ),
        None => None,
    }
}

fn pair(key: &str, value: String) -> (r: (String, String))
    ensures
        r.deep_view() == (key@, value@),
{
    (key.to_owned(), value)
}

fn commit_row(line: &str) -> (r: Option<Vec<(String, String)>>)
    ensures
        r.deep_view() == commit_of(line@),
{
    let chars = chars_of(line);
    let total = chars.len();
    let a = find_char(&chars, '\x1f');
    if a >= total {
        return None;
    }
    let rest = part_of(&chars, a + 1, total);
    assert(rest@ =~= line@.skip(a as int + 1));
    let n = rest.len();
    let b = find_char(&rest, '\x1f');
    if b >= n {
        return None;
    }
    let sha = part_of(&chars, 0, a);
    let date = part_of(&rest, 0, b);
    let subject = part_of(&rest, b + 1, n);
    assert(sha@ =~= line@.take(a as int));
    assert(date@ =~= rest@.take(b as int));
    assert(subject@ =~= rest@.skip(b as int + 1));
    let mut row: Vec<(String, String)> = Vec::new();
    row.push(pair("sha", text_of(&sha)));
    row.push(pair("date", text_of(&date)));
    row.push(pair("subject", text_of(&subject)));
    assert(row.deep_view() =~= commit_of(line@)->0);
    Some(row)
}

fn commit_rows(log: &Option<String>) -> (r: Vec<Vec<(String, String)>>)
    ensures
        r.deep_view() == commits_of(log.deep_view()),
{
    let mut out: Vec<Vec<(String, String)>> = Vec::new();
    assert(out.deep_view() =~= Seq::<Row>::empty());
    if let Some(text) = log {
        let all_lines = lines_of(text);
        let ghost all = all_lines.deep_view();
        let mut i: usize = 0;
        while i < all_lines.len()
            invariant
                all == all_lines.deep_view(),
                i <= all.len(),
                out.deep_view() == commits_upto(all, i as int),
            decreases all.len() - i,
        {
            let ghost before = out.deep_view();
            assert(all[i as int] == all_lines@[i as int]@);
            if let Some(row) = commit_row(&all_lines[i]) {
                out.push(row);
                assert(out.deep_view() =~= before.push(row.deep_view()));
            }
            i += 1;
        }
    }
    out
}

/// The members of a repo's git metadata (branch and recent commits), where the branch is known.
pub fn git_members(git: &GitOutput) -> (r: Option<Vec<(String, MetaValue)>>)
    ensures
        r.deep_view() == git_fields(git.deep_view()),
{
    match &git.branch {
        Some(branch) => {
            let mut fields: Vec<(String, MetaValue)> = Vec::new();
            fields.push(("branch".to_owned(), MetaValue::Text(trim_text(branch))));
            fields.push(("commits".to_owned(), MetaValue::Rows(commit_rows(&git.log))));
            assert(fields.deep_view() =~= git_fields(git.deep_view())->0);
            Some(fields)
        },
        None => None,
    }
}

/// Git metadata (branch and recent commits) as a JSON text.
pub fn git_metadata(git: &GitOutput) -> (r: Option<String>)
    ensures
        match git_fields(git.deep_view()) {
            Some(fields) => r.deep_view() == Some(object_text(fields)),
            None => r is None,
        },
{
    match git_members(git) {
        Some(fields) => Some(json_object(&fields)),
        None => None,
    }
}

} // verus!
