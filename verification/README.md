# callscope

Compiler-grounded change-impact answers for Rust cargo workspaces: who calls
a function, what it reaches, which tests reach it, which `unsafe` code it can
run into, the call paths between two functions, and a Mermaid rendering of its
neighbourhood. Every answer is an envelope that carries its uncertainty: stale
sources, `dyn`-dispatch over-approximation, truncation with the true total,
and the workspace boundary.

## Layout

- `src/` is the library, written and proved with Verus.
  - `schema`: symbols, edges, the index and the file-hash manifest; symbol ids
    are FNV-1a hashes of the fully-qualified path.
  - `query`: the graph questions (resolution, direct calls, reachability,
    call paths, affected tests, reachable `unsafe`, impact), each with a
    contract that pins its answer down, and the laws relating them.
  - `mermaid`: the bounded neighbourhood and its flowchart text.
  - `fingerprint`, `calendar`: staleness detection over source hashes, and the
    RFC 3339 timestamps of the manifest.
  - `state`, `tools`: the loaded index as the server holds it, name
    resolution that never guesses, and the tools' arguments.
  - `graph_build`, `driver`: the indexer's side: which compiler invocations
    are indexed, and how one crate's call graph is built from what the
    compiler reports.
  - `parser`, `ext_tokenizer`: the small workspace the indexer is exercised on.
  - `order`, `text`: orderings, sorting and text helpers the rest builds on.
- `tests/` runs the library on concrete inputs.
- `app/` is the stdio MCP server (`main.rs`, with the serialized forms in
  `wire.rs`, disk access in `disk.rs` and the tool layer in `tools.rs`), and,
  in `indexer.rs`, the compiler-wrapper program's side that talks to the
  compiler itself.
