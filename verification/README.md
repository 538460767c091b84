# ascfix

Repair of ASCII diagrams, Markdown tables, lists and code fences in
Markdown files, written in Verus: the library under `src/` states what each
function does in `requires`/`ensures` contracts and Verus proves them.

Layout:

- `src/text.rs` — characters, whitespace, lines (`str::lines` / `join`).
- `src/primitives.rs`, `src/grid.rs` — boxes, arrows, text rows, labels,
  and the character grid a diagram is read into.
- `src/detector/` — finding boxes, arrows, text rows and labels in a grid.
- `src/normalizer.rs` — the normalization stages (box widths, nesting,
  arrow alignment, balancing, padding) and their laws (idempotence, boxes
  only grow, disjoint overlap groups).
- `src/renderer.rs` — drawing an inventory onto a grid.
- `src/parser.rs`, `src/scanner.rs`, `src/inline_code.rs` — line contexts,
  diagram blocks, inline code masking.
- `src/fences.rs`, `src/links.rs`, `src/tables.rs`, `src/lists.rs` —
  fence repair, link detection, table unwrapping, list normalization.
- `src/modes/` — the safe, diagram and check modes.
- `src/transformation_analysis.rs`, `src/quality.rs` — what processing
  changed (destructive, constructive, neutral changes with impacts in
  hundredths) and the quality issues found in an output.
- `src/cli.rs`, `src/discovery.rs`, `src/processor.rs`, `src/output.rs`,
  `src/config.rs` — the rules of the command line, file selection, and a
  run's decisions and counters, and the line diff of a changed file
  (through `similar`).
- `app/` — the program: argument parsing, file system walk, reading and
  writing files, JSON, colouring and printing diffs, configuration files, and the
  floating-point quality scores computed from the library's counts.
- `tests/` — unit and scenario tests.

Build, verify and test with the Verus toolchain; the program in `app/`
depends on the library and on the crates listed in `Cargo.toml`.
