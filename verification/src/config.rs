//! What is indexed, what is ignored, and what may be published.

use vstd::prelude::*;

use crate::paths::{join_path, joined_path};
use crate::text::{chars_of, has_prefix, part_of, starts_with, text_of};

verus! {

/// The configuration.
#[derive(Debug)]
pub struct Config {
    pub sources: Vec<Source>,
    /// Names that never become entities or project mentions (compared canonically, so
    /// case-insensitive).
    pub ignore: Vec<String>,
    /// strftime-style path template for today's daily note, for example
    /// `~/notes/%Y/%Y-%m-%d.md`.
    pub daily_note: Option<String>,
    /// What may be made public. Empty means nothing beyond opted-in notes.
    pub publish: PublishConfig,
}

/// Publish consent that lives in configuration rather than in the content. Notes opt in
/// individually by their frontmatter; repos cannot carry frontmatter, so they are listed here. A
/// public remote is not consent: commit messages leak.
#[derive(Debug)]
pub struct PublishConfig {
    /// Project names whose git metadata may be published.
    pub repos: Vec<String>,
}

impl Default for PublishConfig {
    fn default() -> (r: PublishConfig)
        ensures
            r.repos@.len() == 0,
    {
        PublishConfig { repos: Vec::new() }
    }
}

/// A directory that is indexed.
#[derive(Debug)]
pub struct Source {
    pub path: String,
    pub kind: SourceKind,
}

/// What a source holds.
#[derive(Clone, Copy, Debug, PartialEq, Eq, Structural)]
pub enum SourceKind {
    /// A tree of markdown notes.
    Notes,
    /// A directory whose immediate children are project repos.
    Projects,
    /// A single code repo whose source files are scanned for symbols that become graph entities.
    Code,
}

/// The configuration that is written where there is none.
pub const DEFAULT_CONFIG: &'static str = "# raft configuration
#
# Sources are directories raft indexes. Three kinds:
#   notes    - a tree of markdown files
#   projects - a directory whose immediate children are project repos
#   code     - a single repo, scanned for source symbols (classes,
#              modules, functions in Ruby/Python/JS/TS) that become
#              graph entities

# [[sources]]
# path = \"~/notes\"
# kind = \"notes\"

# [[sources]]
# path = \"~/dev\"
# kind = \"projects\"

# [[sources]]
# path = \"~/src/some-repo\"
# kind = \"code\"
";

impl SourceKind {
    /// The name of the kind in lower case.
    pub open spec fn lower_name(self) -> Seq<char> {
        match self {
            SourceKind::Notes => "notes"@,
            SourceKind::Projects => "projects"@,
            SourceKind::Code => "code"@,
        }
    }

    /// The name of the kind in lower case.
    pub fn name(self) -> (r: &'static str)
        ensures
            r@ == self.lower_name(),
    {
        match self {
            SourceKind::Notes => "notes",
            SourceKind::Projects => "projects",
            SourceKind::Code => "code",
        }
    }
}

/// Where the configuration is, given the user's configuration directory.
pub fn config_path(dir: Option<&str>) -> (r: Result<String, &'static str>)
    ensures
        match dir {
            Some(d) => r matches Ok(p) && p@ == joined_path(joined_path(d@, "raft"@), "config.toml"@),
            None => r matches Err(e) && e@ == "could not determine config directory"@,
        },
{
    match dir {
        Some(d) => Ok(join_path(&join_path(d, "raft"), "config.toml")),
        None => Err("could not determine config directory"),
    }
}

/// Where derived data is kept, given the user's data directory.
pub fn data_dir(dir: Option<&str>) -> (r: Result<String, &'static str>)
    ensures
        match dir {
            Some(d) => r matches Ok(p) && p@ == joined_path(d@, "raft"@),
            None => r matches Err(e) && e@ == "could not determine data directory"@,
        },
{
    match dir {
        Some(d) => Ok(join_path(d, "raft")),
        None => Err("could not determine data directory"),
    }
}

/// Where the index is kept, given the user's data directory.
pub fn db_path(dir: Option<&str>) -> (r: Result<String, &'static str>)
    ensures
        match dir {
            Some(d) => r matches Ok(p) && p@ == joined_path(joined_path(d@, "raft"@), "raft.db"@),
            None => r matches Err(e) && e@ == "could not determine data directory"@,
        },
{
    match data_dir(dir) {
        Ok(path) => Ok(join_path(&path, "raft.db")),
        Err(e) => Err(e),
    }
}

/// A path whose leading `~/` stands for the home directory, where that is known.
pub open spec fn expanded(path: Seq<char>, home: Option<Seq<char>>) -> Seq<char> {
    if has_prefix(path, "~/"@) && home is Some {
        joined_path(home->0, path.skip(2))
    } else {
        path
    }
}

/// A path with its leading `~/` replaced by the home directory, where that is known.
pub fn expand_tilde(path: &str, home: Option<&str>) -> (r: String)
    ensures
        r@ == expanded(path@, match home {
            Some(h) => Some(h@),
            None => None,
        }),
{
    proof {
        reveal_strlit("~/");
    }
    if starts_with(path, "~/") {
        if let Some(h) = home {
            let chars = chars_of(path);
            let rest = part_of(&chars, 2, chars.len());
            assert(rest@ =~= path@.skip(2));
            return join_path(h, &text_of(&rest));
        }
    }
    path.to_owned()
}

} // verus!
