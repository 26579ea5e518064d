# skillexec

A binary container for agent skills — a `SKILL.md` compiled into a signed, lazily verified
graph with executable segments — written as a Verus library. Its functions carry contracts
that Verus proves; how much each contract pins down varies. Some promise exactly when they
succeed and what they return. Others state what holds of any result and which inputs are
refused, without promising success. Opening a file and parsing Markdown are among the latter.

## Layout

- `src/` — the verified library.
  - Reading: `header`, `sig`, `manifest`, `validate` (private), `graph`, `routing`, `embed`,
    `codec`, `skill` (open, lazy payload verification, subtree commitments), `subtree`,
    `hashing`, `raw`, `text`, `error`.
  - Writing: `writer` (the canonical builder), `order` (topological ordering and cycles).
  - Compiling: `md` (the Markdown reader), `classify`, `compile`, `render`, `org`
    (organizations of skills and their approval graph).
  - Running and serving: `run` (clearance and the import check in front of a wasm segment),
    `cap_kind`, `library` (finding, loading and disclosing skills in a set of containers),
    `mcp` (what the server's tools take and return), `corpus` (the disk ledger of a corpus
    build, the repository listing, and deduplication by content), `survey` (round-trip
    comparison and failure modes of a corpus report), `fuzz` (the parser fuzzer's generator,
    mutations and walk).
- `tests/` — tests of the library through its public interface.
- `app/` — the command-line programs around the library: the compiler, the organization
  compiler, the MCP server, the segment runner (wasmtime), the corpus tool, the search
  evaluation and the fuzzer loop. Files, processes, threads, clocks, TOML and floating point
  live there.

Outside crates reached from the library (BLAKE3, Ed25519, zstd, and a few `std` text
functions) are called through small trusted wrappers whose contracts name what they compute.
