# clauson

A command-line analyser for assistant session logs (JSONL): it turns the log lines into a
graph of typed blocks (user, assistant, tool, system) and reports where tokens, time and
tool calls went, per tool, per block type and per turn, plus permission and lifecycle
statistics for tool events.

The library under `src/` is written in Verus and verified:

- `model/` — blocks, token usage, the session graph (parent links, children, per-type and
  per-tool indexes, chronological order), turns, the subtree walk, tool events and their
  lifecycles.
- `parser/` — from parsed log lines to blocks (pairing tool calls with their results),
  and the location of the tool-event sidecar file.
- `analysis/` — the reports: token and time aggregation, tool statistics, block listing
  and summaries, tool-call details, permission statistics.
- `output.rs`, `text.rs` — table layout and the string helpers they rest on.

`app/` holds the command-line program around the library: argument parsing, reading
files, JSON decoding and encoding, and the floating-point statistics (means,
percentiles, percentages). `tests/` runs the library on concrete sessions.
