# verseconf

A configuration language (`.vcf`) with a lexer, a parser into a tree, a
formatter, diffs, templates, environments, versions, an audit of risky
settings, and an edit contract for making deterministic, minimal changes to
configuration files. The library is written in Verus: each function carries
its contract and the verifier proves it.

## Layout

- `src/` — the verified library
  - `lexer.rs`, `token.rs`, `context.rs`, `chars.rs`, `text.rs`, `numeric.rs`:
    characters to tokens
  - `parser.rs`, `builder.rs`, `ast.rs`, `span.rs`, `error.rs`: tokens to a
    tree, and errors with their positions
  - `engine/`: formatter, diffs and their reports, templates, schema
    inference, the audit, environments, versions, `@include` merging and
    the parse cache
  - `edit/`: the edit contract (plans, values, refusals), locating a target
    in a tree, byte-range edits and the check before writing
  - `bench/`: the benchmark's verdict on how a strategy carried out an edit
    task: the target's value read back from the result's tree, and the bytes
    outside the edit compared with the source
- `tests/` — tests of the library
- `app/` — the command-line program: argument handling and file I/O around
  the library

## Edits

`edit::apply::apply_edit_plan` applies a plan of assignments, insertions and
deletions. An assignment replaces exactly the byte range of the target value;
an insertion adds one line; a deletion removes the target's own lines. Every
other byte of the file is kept. A target that is missing, ambiguous, or does
not hold the expected value is refused, and so is a result that no longer
parses or that brings in a new high-risk audit finding.
`edit::guard::check_write` runs the same check before writing for text edited
in any other way.

What the contracts state and what they leave open: parsing is specified as
a grammar over the tokens (whether a text parses, and with which error
class it fails), and the lexer as a relation between text and tokens. The
tree that the builder makes is not given by a spec function, so the
contracts of the functions that read a tree (locating a target, the audit,
diffs, the formatter, the verdicts) speak of a tree whose source is the
text. The byte-range replacement itself (`edit::bytes`) is stated exactly.

## Verdicts

`bench::judge::judge` rates one strategy's result for one task. A task that
expects a refusal counts only when the refusal carries the expected code. A
task that expects an edit is correct when the value read back from the
result is the expected one and no byte outside the edit changed: for an
assignment the bytes before and after the value's range; for an insertion
or deletion the common prefix and suffix, together with the field paths of
both texts; for a plan of several edits the pieces of the source outside the
targets' ranges, the field paths, the changed lines and the target lines.
