# raft

A personal knowledge graph over plain-text notes, project directories and source code. The library
in `src/` is written and verified in Verus; `app/` is the program around it: command line, files,
git, SQLite and the tool server.

## Modules

- `extract`, `patterns`, `scan`: what a note, a project directory or a source file says.
- `index`, `store`: building the graph and the rows that hold it.
- `evidence`, `derived`: what holds of every graph that was built (consistency, evidence for every
  edge, nothing taken over from the graph before it).
- `query`, `select`, `order`, `answers`: search, about, why and dangling loops, and their laws.
- `graph`: neighbourhoods, Graphviz and Mermaid output.
- `connect`: pairs of projects that keep meeting in notes or commits.
- `publish`, `privacy`: exactly what would go public, and why nothing else leaves a trace.
- `lint`, `capture`: checks on notes, log entries and closing a loop.
- `status`, `report`, `mcp`: the state of an index, printed answers, the tools that are served.
- `config`, `paths`, `dates`, `json`, `text`: shared parts.

Proof functions whose names start with `law_` state what holds across functions.

Weights are integers in thousandths. Regular expressions, JSON and date parsing are done by `regex`,
`serde_json` and `chrono` behind small functions whose contracts are trusted.
