# mdforge

A library for extended Markdown whose extensions are declared before a document is
read: block extensions (`:::name key=value` … `:::`) and inline extensions
(`{name key=value}`) with typed arguments (`Int`, `String`, static and dynamic
enums). A `Forge` runs the pipeline `parse → validate → eval → render_dom`, reports
problems as `Diagnostic`s with byte spans, and prints a `signature` of the declared
extensions to hand to a language model.

The library is written in Verus: every function states its result in its contract
over a mathematical model of the document, and Verus proves it. Rendering is stated
over `block_node` and `inline_node`, the models of what a `DomRenderer` makes of a
block (with the nodes rendered from its body) and of an inline extension.

Layout of `src/`:

- `ast.rs`, `diagnostic.rs`, `dom.rs`: the data types and their models.
- `text.rs`: characters, UTF-8 byte lengths, whitespace, trimming, splitting into
  words, joining, ordering of strings and reading `i64` values.
- `forge/`: the `Forge` and its builder, and one module per stage (`parse`,
  `inline`, `args`, `validate`, `eval`, `render`, `signature`).
- `forge/laws.rs`: properties that span the stages: validation and evaluation
  split the argument checks between them, a document that validates renders,
  every diagnostic is an error, rendering keeps the text outside inline extensions
  and hands each registered extension to the renderer once, in order, plain
  Markdown passes through parsing and rendering unchanged, and (for input without
  carriage returns) each block's span holds the bytes of the line that opened it.
