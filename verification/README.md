# PML, verified

A library for PML, a block format for prompts and mixed text documents:
`[NAME]` or `[NAME:TYPE]` opens a block, an optional `[/NAME]` closes it, and
each body is kept as raw text. The library parses documents into blocks,
writes blocks back as text, and maps block sequences to and from a path tree.
Every function in `src/` is verified with Verus against a contract stated over
mathematical models (`Seq`, `int`, views of the data types), except two small
wrappers in `src/chars.rs` whose contracts are trusted: they call std's
`char::is_alphanumeric` and `String::push`.

Layout of `src/`:

- `chars`, `text`: characters, lines, newline normalization, splitting and joining.
- `model`: blocks and errors, with their mathematical views.
- `syntax`: names, types and control lines.
- `parse`, `render`: the block sequence of a document, and the text of a block sequence
  (with the builder).
- `tree_model`, `tree_meta`, `tree_build`, `tree_insert`, `tree_collect`, `convert`:
  the path tree, its meta fields, how blocks are placed in it and read back from it.
- `message`: error messages.
- `roundtrip`, `tree_laws`, `tree_roundtrip`: laws that relate the operations, such as
  reading back what was written and reading back the blocks of a path tree.

`tests/` runs the library on concrete documents; `app/` adds the standard error
traits for callers that use `?` with `Box<dyn std::error::Error>`.
