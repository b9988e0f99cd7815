# measured_forgetting

Context management for agentic local language models: when a conversation
outgrows the context window, the messages between the user's question and the
most recent ones are classified, scored, grouped into causal chains, planned
(keep verbatim, compress lightly, compress heavily) and turned into the input
of a summariser; the summary then replaces them.

Layout:

- `src/` — the verified library (Verus).
  - `text.rs` — characters, searching, trimming, lines, words, decimals.
  - `forgetting.rs` — problem classes, dimension signals, decay counts, scored messages.
  - `influence.rs` — influence keys (integers ordered as the influences): order statistics and halving.
  - `chains.rs` — causal chains.
  - `plan.rs` — saturation, summariser prompts, the compression plan.
  - `compaction.rs` — the summariser's input, the final summary and the compacted conversation.
  - `analysis.rs` — the whole analysis around the influence computation.
  - `think.rs` — removal of thinking blocks from model output.
  - `benchmark.rs` — benchmark results, the merging of repeated runs, and whether a model server lists a model.
- `app/` — the floating-point influence (Φ(B) = B^1.5 and the decayed weighted
  sum), the serde form of messages and the calls to a local Ollama server.
- `tests/` — tests of the library.
