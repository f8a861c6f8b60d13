# Scrust

Scrust is a compiled language for Scratch 3.0 projects: Rust-like source
files (`.sr`) are compiled into a `.sb3` archive that the Scratch editor
loads.

This crate is the compiler as a library verified with Verus, and the
`scrust` command around it.

## Layout

- `src/ast.rs` — the syntax tree and its mathematical model.
- `src/parser.rs` — the parser, specified by spec functions over the
  characters of the source, and the location of parse errors.
- `src/transform.rs`, `src/merge.rs` — linking of package procedures and the
  stack-frame rewrite of procedures with locals and return values.
- `src/compiler.rs`, `src/sb3.rs` — compiling a program into a Scratch target.
- `src/codegen.rs` — rendering a syntax tree as source text.
- `src/config.rs`, `src/project.rs`, `src/checker.rs` — the configuration and
  the steps of a build: package files, shared public variables, extension
  lists and file names.
- `src/text.rs` — character-level helpers.
- `app/` — the command line (`scrust build`, `scrust create`): reading files,
  `serde` encodings of the configuration and of `project.json`, and writing
  the archive.
- `tests/` — tests of the library.
