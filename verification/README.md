# Aether

The decisions of a distributed spatial-vector search engine, as a verified Verus library, and the
programs around them.

A coordinator fans queries across shard nodes, merges what comes back, and keeps the shard map. What
it decides is in `src/`, with contracts and proofs; what it reads, sends, times and draws is in
`app/`.

## The library

| module | what it decides |
|---|---|
| `shard` | which shard owns an aircraft |
| `wire`, `double`, `text`, `tokens`, `json`, `ranking` | messages, doubles by their bits, texts, words, JSON values, stable ranking |
| `filter`, `client` | structured filters, address lists, manifests as text |
| `fanout`, `hybrid`, `agg`, `federation` | merging search answers, rank fusion, aggregates, answers of whole clusters |
| `registry`, `service`, `auth`, `metrics` | the shard map and failover, the coordinator's calls, token scopes, the metrics exposition |
| `raft_log`, `state_machine`, `snapshot`, `control`, `net` | the replicated log, snapshots and recovery, replicated operator intent, transport |
| `embed`, `onnx`, `tokenizer_file` | feature hashing, model inputs and pooling, which tokenizer files can be used |
| `memory` | the governed memory of agents |
| `tools`, `mcp`, `briefing`, `smtp` | the read-only tools, the agent protocol, the briefing and its one egress |
| `dashboard`, `supervisor`, `settings` | the live board, the supervised processes, the environment |

Functions named `law_*` state what holds across calls: that a progressive merge ends where a batch
merge does, that a swept leader is replaced, that recall never leaves a namespace, that nothing is
sent past the allowlist.

Doubles travel as their bits. Comparison, conversion from integers, and the sums and reciprocals of
rank fusion are computed and proved on the bits; everything else in floating point is in `app/`.

## What is trusted

The calls into `serde_json`, `bincode`, `tokenizers` and `lettre`, and three functions of the
standard library on characters and strings, stand behind items whose contracts are believed. Each
says in its doc comment what is claimed.

## The programs

`aether coordinator`, `aether mcp`, `aether briefing`, `aether dashboard` and
`aether federate <query> <cluster>...`, configured by environment variables.
