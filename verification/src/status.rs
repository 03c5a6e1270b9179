//! The state of a stored index: whether it can be read, and what to report of it.

use vstd::prelude::*;

use crate::config::{expand_tilde, expanded, Config, Source};
use crate::index::SCHEMA_VERSION;
use crate::paths::{file_name, file_name_of};
use crate::store::{copy_text, kind_count, NodeModel};
use crate::text::{cat3, cat5, decimal, decimal_int, decimal_of, decimal_of_int, same_text};

verus! {

/// The state of the index and of its sources.
#[derive(Debug)]
pub struct IndexStatus {
    pub database: String,
    pub indexed: bool,
    pub healthy: bool,
    pub schema_version: Option<i64>,
    pub expected_schema_version: i64,
    pub last_rebuilt: Option<String>,
    pub counts: Option<IndexCounts>,
    pub error: Option<String>,
    pub sources: Vec<SourceStatus>,
}

/// How many rows of each kind an index holds.
#[derive(Clone, Copy, Debug)]
pub struct IndexCounts {
    pub notes: i64,
    pub projects: i64,
    pub entities: i64,
    pub loops: i64,
    pub edges: i64,
}

/// The state of a source.
#[derive(Debug)]
pub struct SourceStatus {
    pub kind: String,
    pub configured_path: String,
    pub path: String,
    pub healthy: bool,
    pub error: Option<String>,
}

/// The value of an `IndexStatus`.
#[verifier::ext_equal]
pub struct StatusModel {
    pub database: Seq<char>,
    pub indexed: bool,
    pub healthy: bool,
    pub schema_version: Option<i64>,
    pub expected_schema_version: i64,
    pub last_rebuilt: Option<Seq<char>>,
    pub counts: Option<IndexCounts>,
    pub error: Option<Seq<char>>,
    pub sources: Seq<SourceStatusModel>,
}

/// The value of a `SourceStatus`.
pub struct SourceStatusModel {
    pub kind: Seq<char>,
    pub configured_path: Seq<char>,
    pub path: Seq<char>,
    pub healthy: bool,
    pub error: Option<Seq<char>>,
}

impl DeepView for SourceStatus {
    type V = SourceStatusModel;

    open spec fn deep_view(&self) -> SourceStatusModel {
        SourceStatusModel {
            kind: self.kind@,
            configured_path: self.configured_path@,
            path: self.path@,
            healthy: self.healthy,
            error: self.error.deep_view(),
        }
    }
}

impl DeepView for IndexStatus {
    type V = StatusModel;

    open spec fn deep_view(&self) -> StatusModel {
        StatusModel {
            database: self.database@,
            indexed: self.indexed,
            healthy: self.healthy,
            schema_version: self.schema_version,
            expected_schema_version: self.expected_schema_version,
            last_rebuilt: self.last_rebuilt.deep_view(),
            counts: self.counts,
            error: self.error.deep_view(),
            sources: self.sources.deep_view(),
        }
    }
}

/// How often a kind is among the kinds of nodes.
pub open spec fn times(kinds: Seq<Seq<char>>, kind: Seq<char>) -> nat
    decreases kinds.len(),
{
    if kinds.len() == 0 {
        0
    } else if kinds.last() == kind {
        times(kinds.drop_last(), kind) + 1
    } else {
        times(kinds.drop_last(), kind)
    }
}

/// What counting the kinds of all nodes gives is the number of nodes of a kind.
pub proof fn law_kinds_are_counted(nodes: Seq<NodeModel>, kind: Seq<char>)
    ensures
        times(Seq::new(nodes.len(), |i: int| nodes[i].kind), kind) == kind_count(nodes, kind),
    decreases nodes.len(),
{
    let kinds = Seq::new(nodes.len(), |i: int| nodes[i].kind);
    if nodes.len() > 0 {
        let rest = nodes.drop_last();
        law_kinds_are_counted(rest, kind);
        assert(kinds.drop_last() =~= Seq::new(rest.len(), |i: int| rest[i].kind));
    }
}

fn count_times(kinds: &Vec<String>, kind: &str) -> (r: usize)
    ensures
        r == times(kinds.deep_view(), kind@),
        r <= kinds@.len(),
{
    let ghost all = kinds.deep_view();
    let mut n: usize = 0;
    let mut i: usize = 0;
    while i < kinds.len()
        invariant
            all == kinds.deep_view(),
            n <= i <= all.len(),
            n == times(all.take(i as int), kind@),
        decreases all.len() - i,
    {
        assert(all[i as int] == kinds@[i as int]@);
        assert(all.take(i + 1).drop_last() =~= all.take(i as int));
        if same_text(&kinds[i], kind) {
            n += 1;
        }
        i += 1;
    }
    assert(all.take(all.len() as int) =~= all);
    n
}

/// Count the rows of an index, given the kind of each node and the number of edges.
pub fn count_rows(kinds: &Vec<String>, edges: i64) -> (r: IndexCounts)
    requires
        kinds@.len() <= i64::MAX,
    ensures
        r.notes == times(kinds.deep_view(), "note"@),
        r.projects == times(kinds.deep_view(), "project"@),
        r.entities == times(kinds.deep_view(), "entity"@),
        r.loops == times(kinds.deep_view(), "loop"@),
        r.edges == edges,
{
    IndexCounts {
        notes: count_times(kinds, "note") as i64,
        projects: count_times(kinds, "project") as i64,
        entities: count_times(kinds, "entity") as i64,
        loops: count_times(kinds, "loop") as i64,
        edges,
    }
}

/// What looking at the stored index showed.
pub enum Probe {
    /// There is no file.
    Missing,
    /// The file could not be opened.
    Unopened { error: String },
    /// The schema version could not be read.
    Unversioned { error: String },
    /// The schema version was read. Where it is the current one, the integrity check was run; where
    /// that said `ok`, the rows were counted.
    Versioned {
        version: i64,
        integrity: Option<String>,
        last_rebuilt: Option<String>,
        counts: Option<IndexCounts>,
    },
}

/// The value of a `Probe`.
pub enum ProbeModel {
    Missing,
    Unopened { error: Seq<char> },
    Unversioned { error: Seq<char> },
    Versioned {
        version: i64,
        integrity: Option<Seq<char>>,
        last_rebuilt: Option<Seq<char>>,
        counts: Option<IndexCounts>,
    },
}

impl DeepView for Probe {
    type V = ProbeModel;

    open spec fn deep_view(&self) -> ProbeModel {
        match self {
            Probe::Missing => ProbeModel::Missing,
            Probe::Unopened { error } => ProbeModel::Unopened { error: error@ },
            Probe::Unversioned { error } => ProbeModel::Unversioned { error: error@ },
            Probe::Versioned { version, integrity, last_rebuilt, counts } => ProbeModel::Versioned {
                version: *version,
                integrity: integrity.deep_view(),
                last_rebuilt: last_rebuilt.deep_view(),
                counts: *counts,
            },
        }
    }
}

/// Whether a probe looked as far as it had to.
pub open spec fn probe_ok(probe: ProbeModel) -> bool {
    probe matches ProbeModel::Versioned { version, integrity, counts, .. } ==> {
        &&& version == SCHEMA_VERSION ==> integrity is Some
        &&& version == SCHEMA_VERSION && integrity == Some("ok"@) ==> counts is Some
    }
}

/// The state of a source: its path with the home directory filled in, and why it cannot be read,
/// if it cannot.
pub open spec fn source_state(
    source: Source,
    home: Option<Seq<char>>,
    error: Option<Seq<char>>,
) -> SourceStatusModel {
    SourceStatusModel {
        kind: source.kind.lower_name(),
        configured_path: source.path@,
        path: expanded(source.path@, home),
        healthy: error is None,
        error,
    }
}

/// The text of an optional text.
pub open spec fn text_option(t: Option<&str>) -> Option<Seq<char>> {
    match t {
        Some(s) => Some(s@),
        None => None,
    }
}

/// The state of one source.
pub fn source_status(source: &Source, home: Option<&str>, error: &Option<String>) -> (r: SourceStatus)
    ensures
        r.deep_view() == source_state(*source, text_option(home), error.deep_view()),
{
    SourceStatus {
        kind: source.kind.name().to_owned(),
        configured_path: source.path.clone(),
        path: expand_tilde(&source.path, home),
        healthy: error.is_none(),
        error: copy_text(error),
    }
}

/// The states of the sources.
pub open spec fn source_states(
    sources: Seq<Source>,
    home: Option<Seq<char>>,
    errors: Seq<Option<Seq<char>>>,
) -> Seq<SourceStatusModel> {
    Seq::new(sources.len(), |i: int| source_state(sources[i], home, errors[i]))
}

/// What is reported of an index that was probed.
pub open spec fn status_of(
    database: Seq<char>,
    probe: ProbeModel,
    sources: Seq<SourceStatusModel>,
) -> StatusModel {
    let base = StatusModel {
        database,
        indexed: true,
        healthy: false,
        schema_version: None,
        expected_schema_version: SCHEMA_VERSION,
        last_rebuilt: None,
        counts: None,
        error: None,
        sources,
    };
    match probe {
        ProbeModel::Missing => StatusModel {
            indexed: false,
            error: Some("index does not exist; run `raft index`"@),
            ..base
        },
        ProbeModel::Unopened { error } => StatusModel {
            error: Some("could not open index: "@ + error),
            ..base
        },
        ProbeModel::Unversioned { error } => StatusModel {
            error: Some("could not read schema version: "@ + error),
            ..base
        },
        ProbeModel::Versioned { version, integrity, last_rebuilt, counts } => if version
            != SCHEMA_VERSION {
            StatusModel {
                schema_version: Some(version),
                error: Some(
                    "schema "@ + decimal_int(version as int) + " is stale; expected "@ + decimal_int(
                        SCHEMA_VERSION as int,
                    ) + "; run `raft index`"@,
                ),
                ..base
            }
        } else if integrity->0 != "ok"@ {
            StatusModel {
                schema_version: Some(version),
                error: Some("index failed integrity check: "@ + integrity->0),
                ..base
            }
        } else {
            StatusModel {
                schema_version: Some(version),
                healthy: true,
                last_rebuilt,
                counts,
                ..base
            }
        },
    }
}

fn cat2(a: &str, b: &str) -> (r: String)
    ensures
        r@ == a@ + b@,
{
    let mut out = a.to_owned();
    out.append(b);
    out
}

fn source_list(sources: &Vec<Source>, home: Option<&str>, errors: &Vec<Option<String>>) -> (r: Vec<
    SourceStatus,
>)
    requires
        errors@.len() == sources@.len(),
    ensures
        r.deep_view() == source_states(sources@, text_option(home), errors.deep_view()),
{
    let mut out: Vec<SourceStatus> = Vec::new();
    let mut i: usize = 0;
    while i < sources.len()
        invariant
            i <= sources@.len(),
            errors@.len() == sources@.len(),
            out@.len() == i,
            forall|k: int|
                0 <= k < i ==> (#[trigger] out@[k]).deep_view() == source_states(
                    sources@,
                    text_option(home),
                    errors.deep_view(),
                )[k],
        decreases sources@.len() - i,
    {
        assert(errors.deep_view()[i as int] == errors@[i as int].deep_view());
        out.push(source_status(&sources[i], home, &errors[i]));
        i += 1;
    }
    assert(out.deep_view() =~= source_states(sources@, text_option(home), errors.deep_view()));
    out
}

/// Report the state of the index and of its sources. `errors` says of each source why it cannot be
/// read, if it cannot.
pub fn status(
    config: &Config,
    database: &str,
    probe: &Probe,
    home: Option<&str>,
    errors: &Vec<Option<String>>,
) -> (r: IndexStatus)
    requires
        errors@.len() == config.sources@.len(),
        probe_ok(probe.deep_view()),
    ensures
        r.deep_view() == status_of(
            database@,
            probe.deep_view(),
            source_states(config.sources@, text_option(home), errors.deep_view()),
        ),
{
    let mut status = IndexStatus {
        database: database.to_owned(),
        indexed: true,
        healthy: false,
        schema_version: None,
        expected_schema_version: SCHEMA_VERSION,
        last_rebuilt: None,
        counts: None,
        error: None,
        sources: source_list(&config.sources, home, errors),
    };
    match probe {
        Probe::Missing => {
            status.indexed = false;
            status.error = Some("index does not exist; run `raft index`".to_owned());
        },
        Probe::Unopened { error } => {
            status.error = Some(cat2("could not open index: ", error));
        },
        Probe::Unversioned { error } => {
            status.error = Some(cat2("could not read schema version: ", error));
        },
        Probe::Versioned { version, integrity, last_rebuilt, counts } => {
            status.schema_version = Some(*version);
            if *version != SCHEMA_VERSION {
                let numeral = decimal_of_int(*version);
                let expected = decimal_of_int(SCHEMA_VERSION);
                status.error = Some(
                    cat5("schema ", &numeral, " is stale; expected ", &expected, "; run `raft index`"),
                );
            } else if let Some(said) = integrity {
                if !same_text(said, "ok") {
                    status.error = Some(cat2("index failed integrity check: ", said));
                } else {
                    status.last_rebuilt = copy_text(last_rebuilt);
                    status.counts = *counts;
                    status.healthy = true;
                }
            }
        },
    }
    status
}

/// What keeps an index from being read.
pub open spec fn unreadable(path: Seq<char>, exists: bool, version: i64) -> Option<Seq<char>> {
    if !exists {
        Some("no index at "@ + path + " - run `raft index` first"@)
    } else if version != SCHEMA_VERSION {
        Some(
            "index at "@ + path + " was built by a different raft version (schema "@ + decimal_int(
                version as int,
            ) + ", expected "@ + decimal_int(SCHEMA_VERSION as int)
                + ") - run `raft index` to rebuild it"@,
        )
    } else {
        None
    }
}

/// Whether an index may be read. One that is missing or was built with another schema version is
/// refused with advice to rebuild it; reading never repairs or replaces it. The version counts only
/// where there is an index.
pub fn open_db(path: &str, exists: bool, version: i64) -> (r: Result<(), String>)
    ensures
        match unreadable(path@, exists, version) {
            Some(why) => r matches Err(e) && e@ == why,
            None => r is Ok,
        },
{
    if !exists {
        return Err(cat3("no index at ", path, " - run `raft index` first"));
    }
    if version != SCHEMA_VERSION {
        let found = decimal_of_int(version);
        let expected = decimal_of_int(SCHEMA_VERSION);
        let mut text = cat5(
            "index at ",
            path,
            " was built by a different raft version (schema ",
            &found,
            ", expected ",
        );
        text.append(&expected);
        text.append(") - run `raft index` to rebuild it");
        return Err(text);
    }
    Ok(())
}

/// What is wrong with a rebuilt index.
pub open spec fn rebuilt_fault(integrity: Seq<char>, search_ok: bool, version: i64) -> Option<
    Seq<char>,
> {
    if integrity != "ok"@ {
        Some("rebuilt index failed integrity check: "@ + integrity)
    } else if !search_ok {
        Some("rebuilt index failed FTS integrity check"@)
    } else if version != SCHEMA_VERSION {
        Some(
            "rebuilt index has schema version "@ + decimal_int(version as int) + ", expected "@
                + decimal_int(SCHEMA_VERSION as int),
        )
    } else {
        None
    }
}

/// Whether a rebuilt index may replace the live one, given what its integrity checks said.
pub fn validate_index(integrity: &str, search_ok: bool, version: i64) -> (r: Result<(), String>)
    ensures
        match rebuilt_fault(integrity@, search_ok, version) {
            Some(why) => r matches Err(e) && e@ == why,
            None => r is Ok,
        },
{
    if !same_text(integrity, "ok") {
        return Err(cat2("rebuilt index failed integrity check: ", integrity));
    }
    if !search_ok {
        return Err("rebuilt index failed FTS integrity check".to_owned());
    }
    if version != SCHEMA_VERSION {
        let found = decimal_of_int(version);
        let expected = decimal_of_int(SCHEMA_VERSION);
        let mut text = cat3("rebuilt index has schema version ", &found, ", expected ");
        text.append(&expected);
        return Err(text);
    }
    Ok(())
}

/// The file name of the index that is built beside the live one by process `pid`.
pub open spec fn temporary(live: Seq<char>, pid: u32) -> Option<Seq<char>> {
    match file_name(live) {
        Some(name) => Some("."@ + name + "."@ + decimal(pid as nat) + ".tmp"@),
        None => None,
    }
}

/// The file name of the index that is built beside the live one, where the live one has a name.
pub fn temporary_name(live: &str, pid: u32) -> (r: Option<String>)
    ensures
        r.deep_view() == temporary(live@, pid),
{
    match file_name_of(live) {
        Some(name) => {
            let numeral = decimal_of(pid as u128);
            Some(cat5(".", &name, ".", &numeral, ".tmp"))
        },
        None => None,
    }
}

} // verus!
