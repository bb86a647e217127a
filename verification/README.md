# rex

A small dependently typed language: lexer, parser, desugaring into a core
calculus with de Bruijn indices, name resolution, evaluation, type inference,
pretty printing, a hash-consed expression store, lowering to
supercombinators with a stack machine, and the queries an editor needs
(token kinds, paths from the source to the trees and back).

The library in `src/` is verified with Verus: every public function states
what it returns in terms of specification functions over mathematical
models (`Seq`, `Map`, views of the data types), and the laws that relate
several functions are proved as public proof functions.

- `tokens`, `lexer`: tokens with byte regions; the lexer is total and its
  tokens cover the text.
- `diagnostics`: the invalid tokens as lines and byte columns (the UTF-8
  position encoding), through `ropey`.
- `ast`, `parser`, `parse_shape`: the surface tree with token ranges; the
  parse, spans dropped, depends on the significant tokens alone.
- `desugar`, `name_resolver`, `expr`: the core calculus, with paths back
  to the surface tree.
- `eval`, `types`, `printer`, `display`, `text`: reduction, inference and
  texts.
- `positions`, `defs`, `ide`, `helper`: lines and columns, searches and
  traversals between source positions and tree nodes.
- `cache`, `lower`: the expression store and the stack machine. Which
  layer a hash names is left to the hash; the store records each clash, and
  without one a lowered tree reads back unchanged but for binder names.

`app/` is the command-line program and the language server: reading files,
JSON output, the LSP protocol, and the loop that runs the stack machine.
