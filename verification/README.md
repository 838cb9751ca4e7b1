# doccraft

A local agent that turns source code into purpose-built Markdown documents. It
reads the source, plans an outline from what it read, checks drafts against the
source, and publishes without overwriting what somebody else changed.

The decisions of the agent are a Verus library under `src/`: its functions state in
their contracts what they return, and Verus proves it. The server around them is
ordinary Rust under `app/`.

## Layout

| Path | What it holds |
| --- | --- |
| `src/text.rs`, `order.rs`, `json.rs` | texts, orders and JSON values, and their models |
| `src/syntax.rs`, `parser.rs`, `code_graph.rs`, `graph/` | syntax trees, chunks, symbols, calls and how files connect |
| `src/findings.rs`, `reading.rs`, `purpose.rs`, `leaves.rs`, `packing.rs` | what readings found, and what requests carry of it |
| `src/planning/` | branches, chapters, outlines, their rules, reviews and requests |
| `src/coverage.rs`, `pages.rs`, `audit.rs`, `comparison.rs`, `audit_run.rs` | what a document owes its source, and the audit of it |
| `src/editorial.rs`, `citations.rs`, `code_blocks.rs`, `markdown/` | drafts: citations, code, headings, repairs |
| `src/llm/`, `budget.rs`, `context.rs`, `prompts.rs`, `answers.rs` | requests, exchanges, budgets and answers |
| `src/config.rs`, `vault.rs`, `web.rs`, `api.rs`, `db.rs` | settings, secrets, addresses and the interface |
| `src/composition.rs`, `resume.rs`, `publish.rs`, `maintenance.rs` | editing, resuming, publishing and upkeep |
| `tests/` | tests of the library with the real crates |
| `app/` | the server: database, files, network and processes |

The functions that call other crates are marked `#[verifier::external_body]` or
declared with `assume_specification`; the comment above each says what is relied on.
A few of them are private helpers of which nothing is claimed.

Indexing of sources and writing of sections are done by workers that share the
database: a run waits until what it needs is stored.
