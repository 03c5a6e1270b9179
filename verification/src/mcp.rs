//! The tools that agents call: what each is called and takes, and what a call asks for.

use vstd::prelude::*;

use crate::index::IndexStats;
use crate::json::{int_field, json_int_field, json_text_field, text_field};
use crate::text::{cat3, decimal, decimal_of, same_text};

verus! {

/// A tool, as agents are told of it. The schema is a JSON text.
pub struct ToolInfo {
    pub name: &'static str,
    pub description: &'static str,
    pub input_schema: &'static str,
}

/// The value of a `ToolInfo`.
pub struct ToolModel {
    pub name: Seq<char>,
    pub description: Seq<char>,
    pub input_schema: Seq<char>,
}

impl DeepView for ToolInfo {
    type V = ToolModel;

    open spec fn deep_view(&self) -> ToolModel {
        ToolModel {
            name: self.name@,
            description: self.description@,
            input_schema: self.input_schema@,
        }
    }
}

pub const SEARCH_TEXT: &'static str =
    "Full-text search across all indexed notes. Returns matching notes with dates and snippets, newest first.";

pub const SEARCH_SCHEMA: &'static str =
    "{\"type\":\"object\",\"properties\":{\"term\":{\"type\":\"string\",\"description\":\"Text to search for\"},\"limit\":{\"type\":\"integer\",\"default\":20}},\"required\":[\"term\"]}";

pub const ABOUT_TEXT: &'static str =
    "Everything the graph knows about a project or entity: git state (branch, recent commits), notes that mention it, its definition if it's a code symbol, and what it co-occurs with. Case-insensitive.";

pub const ABOUT_SCHEMA: &'static str =
    "{\"type\":\"object\",\"properties\":{\"name\":{\"type\":\"string\",\"description\":\"Project or entity name\"}},\"required\":[\"name\"]}";

pub const WHY_TEXT: &'static str =
    "Why a project or entity is in the graph: every edge pointing at it with provenance (human wiki link vs indexer heuristic), a confidence weight, and the rationale that created it. Use to audit whether a connection is trustworthy. Backticked-span mentions score 0.3; set min_weight to filter weak edges.";

pub const WHY_SCHEMA: &'static str =
    "{\"type\":\"object\",\"properties\":{\"name\":{\"type\":\"string\",\"description\":\"Project or entity name\"},\"min_weight\":{\"type\":\"number\",\"default\":0.0,\"description\":\"Hide edges below this confidence weight\"}},\"required\":[\"name\"]}";

pub const DANGLING_TEXT: &'static str =
    "Open loops (follow-up items, unchecked boxes) across all notes, stalest first. Use to find forgotten work.";

pub const DANGLING_SCHEMA: &'static str =
    "{\"type\":\"object\",\"properties\":{\"about\":{\"type\":\"string\",\"description\":\"Only loops mentioning this project or entity\"},\"limit\":{\"type\":\"integer\",\"default\":50}}}";

pub const CONNECT_TEXT: &'static str =
    "Connections nobody wrote down: pairs of projects/entities that keep co-occurring across notes over time (affinity-scored), and projects whose commits land on the same days.";

pub const CONNECT_SCHEMA: &'static str =
    "{\"type\":\"object\",\"properties\":{\"min\":{\"type\":\"integer\",\"default\":3,\"description\":\"Minimum shared notes / shared commit days\"},\"min_weight\":{\"type\":\"number\",\"default\":0.5,\"description\":\"Hide edges below this confidence weight before pairing; the default excludes weak backticked-span guesses (weight 0.3). Use 0 to include everything.\"},\"limit\":{\"type\":\"integer\",\"default\":15}}}";

pub const REINDEX_TEXT: &'static str =
    "Rescan all configured sources and rebuild the graph. Call after creating or editing notes so queries see the changes.";

pub const REINDEX_SCHEMA: &'static str = "{\"type\":\"object\",\"properties\":{}}";

pub open spec fn tool_model(
    name: Seq<char>,
    description: Seq<char>,
    input_schema: Seq<char>,
) -> ToolModel {
    ToolModel { name, description, input_schema }
}

/// The tools, in the order in which they are listed.
pub open spec fn tool_table() -> Seq<ToolModel> {
    seq![
        tool_model("search"@, SEARCH_TEXT@, SEARCH_SCHEMA@),
        tool_model("about"@, ABOUT_TEXT@, ABOUT_SCHEMA@),
        tool_model("why"@, WHY_TEXT@, WHY_SCHEMA@),
        tool_model("dangling"@, DANGLING_TEXT@, DANGLING_SCHEMA@),
        tool_model("connect"@, CONNECT_TEXT@, CONNECT_SCHEMA@),
        tool_model("reindex"@, REINDEX_TEXT@, REINDEX_SCHEMA@),
    ]
}

fn tool(name: &'static str, description: &'static str, input_schema: &'static str) -> (r: ToolInfo)
    ensures
        r.deep_view() == tool_model(name@, description@, input_schema@),
{
    ToolInfo { name, description, input_schema }
}

/// The tools that agents can call.
pub fn tools() -> (r: Vec<ToolInfo>)
    ensures
        r.deep_view() == tool_table(),
{
    let mut list: Vec<ToolInfo> = Vec::new();
    list.push(tool("search", SEARCH_TEXT, SEARCH_SCHEMA));
    list.push(tool("about", ABOUT_TEXT, ABOUT_SCHEMA));
    list.push(tool("why", WHY_TEXT, WHY_SCHEMA));
    list.push(tool("dangling", DANGLING_TEXT, DANGLING_SCHEMA));
    list.push(tool("connect", CONNECT_TEXT, CONNECT_SCHEMA));
    list.push(tool("reindex", REINDEX_TEXT, REINDEX_SCHEMA));
    assert(list.deep_view() =~= tool_table());
    list
}

/// The least weight, in thousandths, of the edges that `why` shows.
pub const WHY_MIN_WEIGHT: i128 = 0;

/// The least weight, in thousandths, of the edges that `connect` pairs.
pub const CONNECT_MIN_WEIGHT: i128 = 500;

/// The arguments of a call that tools read, each where it is there and of its type. The least
/// weight is in thousandths.
#[derive(Debug)]
pub struct ToolArgs {
    pub term: Option<String>,
    pub name: Option<String>,
    pub about: Option<String>,
    pub limit: Option<i64>,
    pub min: Option<i64>,
    pub min_weight: Option<i128>,
}

/// The value of a `ToolArgs`.
pub struct ArgsModel {
    pub term: Option<Seq<char>>,
    pub name: Option<Seq<char>>,
    pub about: Option<Seq<char>>,
    pub limit: Option<i64>,
    pub min: Option<i64>,
    pub min_weight: Option<i128>,
}

impl DeepView for ToolArgs {
    type V = ArgsModel;

    open spec fn deep_view(&self) -> ArgsModel {
        ArgsModel {
            term: self.term.deep_view(),
            name: self.name.deep_view(),
            about: self.about.deep_view(),
            limit: self.limit,
            min: self.min,
            min_weight: self.min_weight,
        }
    }
}

/// The arguments that a JSON text holds, given the least weight among them.
pub open spec fn args_of(arguments: Seq<char>, min_weight: Option<i128>) -> ArgsModel {
    ArgsModel {
        term: text_field(arguments, "term"@),
        name: text_field(arguments, "name"@),
        about: text_field(arguments, "about"@),
        limit: int_field(arguments, "limit"@),
        min: int_field(arguments, "min"@),
        min_weight,
    }
}

/// Read the arguments of a call from a JSON text. The least weight among them is a number with a
/// fraction, and comes in thousandths.
pub fn read_args(arguments: &str, min_weight: Option<i128>) -> (r: ToolArgs)
    ensures
        r.deep_view() == args_of(arguments@, min_weight),
{
    ToolArgs {
        term: json_text_field(arguments, "term"),
        name: json_text_field(arguments, "name"),
        about: json_text_field(arguments, "about"),
        limit: json_int_field(arguments, "limit"),
        min: json_int_field(arguments, "min"),
        min_weight,
    }
}

/// What a call asks for.
#[derive(Debug)]
pub enum Request {
    Search { term: String, limit: usize },
    About { name: String },
    Why { name: String, min_weight: i128 },
    Dangling { about: Option<String>, limit: usize },
    Connect { min: i64, min_weight: i128, limit: usize },
    Reindex,
}

/// The value of a `Request`.
pub enum RequestModel {
    Search { term: Seq<char>, limit: usize },
    About { name: Seq<char> },
    Why { name: Seq<char>, min_weight: i128 },
    Dangling { about: Option<Seq<char>>, limit: usize },
    Connect { min: i64, min_weight: i128, limit: usize },
    Reindex,
}

impl DeepView for Request {
    type V = RequestModel;

    open spec fn deep_view(&self) -> RequestModel {
        match self {
            Request::Search { term, limit } => RequestModel::Search { term: term@, limit: *limit },
            Request::About { name } => RequestModel::About { name: name@ },
            Request::Why { name, min_weight } => RequestModel::Why {
                name: name@,
                min_weight: *min_weight,
            },
            Request::Dangling { about, limit } => RequestModel::Dangling {
                about: about.deep_view(),
                limit: *limit,
            },
            Request::Connect { min, min_weight, limit } => RequestModel::Connect {
                min: *min,
                min_weight: *min_weight,
                limit: *limit,
            },
            Request::Reindex => RequestModel::Reindex,
        }
    }
}

/// How many results a requested limit allows. A negative limit does not bound them.
pub open spec fn limit_from(requested: Option<i64>, default: i64) -> usize {
    let n = match requested {
        Some(n) => n,
        None => default,
    };
    if 0 <= n <= usize::MAX {
        n as usize
    } else {
        usize::MAX
    }
}

fn limit_for(requested: Option<i64>, default: i64) -> (r: usize)
    ensures
        r == limit_from(requested, default),
{
    let n: i64 = match requested {
        Some(n) => n,
        None => default,
    };
    if n >= 0 && n as u64 <= usize::MAX as u64 {
        n as usize
    } else {
        usize::MAX
    }
}

/// What a call of the tool `tool` with these arguments asks for, or why it cannot be served.
pub open spec fn requested(tool: Seq<char>, args: ArgsModel) -> Result<RequestModel, Seq<char>> {
    if tool == "search"@ {
        match args.term {
            Some(term) => Ok(RequestModel::Search { term, limit: limit_from(args.limit, 20) }),
            None => Err("missing 'term'"@),
        }
    } else if tool == "about"@ {
        match args.name {
            Some(name) => Ok(RequestModel::About { name }),
            None => Err("missing 'name'"@),
        }
    } else if tool == "why"@ {
        match args.name {
            Some(name) => Ok(
                RequestModel::Why {
                    name,
                    min_weight: match args.min_weight {
                        Some(w) => w,
                        None => WHY_MIN_WEIGHT,
                    },
                },
            ),
            None => Err("missing 'name'"@),
        }
    } else if tool == "dangling"@ {
        Ok(RequestModel::Dangling { about: args.about, limit: limit_from(args.limit, 50) })
    } else if tool == "connect"@ {
        let min: i64 = match args.min {
            Some(n) => n,
            None => 3,
        };
        let min_weight: i128 = match args.min_weight {
            Some(w) => w,
            None => CONNECT_MIN_WEIGHT,
        };
        Ok(RequestModel::Connect { min, min_weight, limit: limit_from(args.limit, 15) })
    } else if tool == "reindex"@ {
        Ok(RequestModel::Reindex)
    } else {
        Err("unknown tool: "@ + tool)
    }
}

/// What a call of the tool `tool` with these arguments asks for.
pub fn request_for(tool: &str, args: ToolArgs) -> (r: Result<Request, String>)
    ensures
        match r {
            Ok(request) => requested(tool@, args.deep_view()) == Ok::<RequestModel, Seq<char>>(
                request.deep_view(),
            ),
            Err(text) => requested(tool@, args.deep_view()) == Err::<RequestModel, Seq<char>>(
                text@,
            ),
        },
{
    if same_text(tool, "search") {
        match args.term {
            Some(term) => Ok(Request::Search { term, limit: limit_for(args.limit, 20) }),
            None => Err("missing 'term'".to_owned()),
        }
    } else if same_text(tool, "about") {
        match args.name {
            Some(name) => Ok(Request::About { name }),
            None => Err("missing 'name'".to_owned()),
        }
    } else if same_text(tool, "why") {
        match args.name {
            Some(name) => {
                let min_weight: i128 = match args.min_weight {
                    Some(w) => w,
                    None => WHY_MIN_WEIGHT,
                };
                Ok(Request::Why { name, min_weight })
            },
            None => Err("missing 'name'".to_owned()),
        }
    } else if same_text(tool, "dangling") {
        Ok(Request::Dangling { about: args.about, limit: limit_for(args.limit, 50) })
    } else if same_text(tool, "connect") {
        let min: i64 = match args.min {
            Some(n) => n,
            None => 3,
        };
        let min_weight: i128 = match args.min_weight {
            Some(w) => w,
            None => CONNECT_MIN_WEIGHT,
        };
        Ok(Request::Connect { min, min_weight, limit: limit_for(args.limit, 15) })
    } else if same_text(tool, "reindex") {
        Ok(Request::Reindex)
    } else {
        let mut text = "unknown tool: ".to_owned();
        text.append(tool);
        Err(text)
    }
}

/// What a call of the tool `tool` with a JSON text of arguments asks for. The least weight among
/// them, where there is one, comes in thousandths.
pub fn call_tool(tool: &str, arguments: &str, min_weight: Option<i128>) -> (r: Result<
    Request,
    String,
>)
    ensures
        match r {
            Ok(request) => requested(tool@, args_of(arguments@, min_weight)) == Ok::<
                RequestModel,
                Seq<char>,
            >(request.deep_view()),
            Err(text) => requested(tool@, args_of(arguments@, min_weight)) == Err::<
                RequestModel,
                Seq<char>,
            >(text@),
        },
{
    request_for(tool, read_args(arguments, min_weight))
}

/// The answer where the graph knows nothing about `name`.
pub fn nothing_known(name: &str) -> (r: String)
    ensures
        r@ == "nothing known about '"@ + name@ + "'"@,
{
    cat3("nothing known about '", name, "'")
}

/// What a rebuild counted, in words.
pub open spec fn counted_text(stats: IndexStats) -> Seq<char> {
    "indexed "@ + decimal(stats.notes as nat) + " notes, "@ + decimal(stats.projects as nat)
        + " projects, "@ + decimal(stats.entities as nat) + " entities, "@ + decimal(
        stats.loops as nat,
    ) + " loops, "@ + decimal(stats.edges as nat) + " edges"@
}

/// How much git metadata a rebuild read and how much it reused, in words.
pub open spec fn git_text(stats: IndexStats) -> Seq<char> {
    "git: "@ + decimal(stats.git_refreshed as nat) + " refreshed, "@ + decimal(
        stats.git_cached as nat,
    ) + " reused from cache"@
}

/// What a rebuild counted, in words.
pub fn counted(stats: &IndexStats) -> (r: String)
    ensures
        r@ == counted_text(*stats),
{
    let mut out = "indexed ".to_owned();
    out.append(&decimal_of(stats.notes as u128));
    out.append(" notes, ");
    out.append(&decimal_of(stats.projects as u128));
    out.append(" projects, ");
    out.append(&decimal_of(stats.entities as u128));
    out.append(" entities, ");
    out.append(&decimal_of(stats.loops as u128));
    out.append(" loops, ");
    out.append(&decimal_of(stats.edges as u128));
    out.append(" edges");
    out
}

/// How much git metadata a rebuild read and how much it reused, in words.
pub fn git_counted(stats: &IndexStats) -> (r: String)
    ensures
        r@ == git_text(*stats),
{
    let mut out = "git: ".to_owned();
    out.append(&decimal_of(stats.git_refreshed as u128));
    out.append(" refreshed, ");
    out.append(&decimal_of(stats.git_cached as u128));
    out.append(" reused from cache");
    out
}

/// The answer to a `reindex` call.
pub fn reindexed(stats: &IndexStats) -> (r: String)
    ensures
        r@ == counted_text(*stats) + " ("@ + git_text(*stats) + ")"@,
{
    let mut out = counted(stats);
    out.append(" (");
    out.append(&git_counted(stats));
    out.append(")");
    out
}

/// A call of a tool that is listed, with the arguments that its schema requires, is served; no
/// other call is.
pub proof fn law_listed_tools_are_served(tool: Seq<char>, args: ArgsModel)
    ensures
        requested(tool, args) is Ok <==> {
            &&& exists|i: int| 0 <= i < tool_table().len() && (#[trigger] tool_table()[i]).name == tool
            &&& tool == "search"@ ==> args.term is Some
            &&& tool == "about"@ || tool == "why"@ ==> args.name is Some
        },
{
    reveal_strlit("search");
    reveal_strlit("about");
    reveal_strlit("why");
    reveal_strlit("dangling");
    reveal_strlit("connect");
    reveal_strlit("reindex");
    let table = tool_table();
    assert(table[0].name == "search"@);
    assert(table[1].name == "about"@);
    assert(table[2].name == "why"@);
    assert(table[3].name == "dangling"@);
    assert(table[4].name == "connect"@);
    assert(table[5].name == "reindex"@);
    assert("about"@.len() == 5 && "why"@.len() == 3 && "search"@.len() == 6);
    assert("search"@[0] == 's' && "dangling"@.len() == 8);
    if exists|i: int| 0 <= i < table.len() && (#[trigger] table[i]).name == tool {
        let i = choose|i: int| 0 <= i < table.len() && (#[trigger] table[i]).name == tool;
        assert(i == 0 || i == 1 || i == 2 || i == 3 || i == 4 || i == 5);
    }
}

} // verus!
