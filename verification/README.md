# engram

A memory backend for LLM agents: short-term conversation memory trimmed to a
token budget, core facts, long-term memories found by similarity, per-session
and global knowledge graphs, consolidation of old messages into summaries, and
the commands a Raft cluster replicates to keep nodes in step.

## Layout

- `src/` — the library, verified with Verus. Every function carries a
  contract; the laws of the library are public proof functions.
  - `memory.rs`, `assembler.rs`: stores, token-budget trimming, context assembly.
  - `knowledge/`: extraction results, session and global graphs, export, handlers, workers.
  - `consolidation/`: summaries and the consolidation plan.
  - `raft/`: replicated commands, the state machine, snapshots.
  - `config.rs`, `requests.rs`, `cluster.rs`, `embedding.rs`, `worker.rs`, `stores/`: settings,
    request checks, cluster membership, client decisions, store naming rules.
  - `digraph.rs`, `topology.rs`, `text.rs`, `assoc.rs`: the graph structure kept by
    `petgraph`, string and association-list helpers.
- `app/` — the HTTP server: routes, background workers, the OpenAI clients and
  the in-memory vector store, built on the library.
- `tests/` — tests of the library.
