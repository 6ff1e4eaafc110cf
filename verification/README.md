# sol

Reading, checking and counting solkattu compositions, with the logic proved
correct by Verus.

## Layout

- `src/text.rs`, `src/tokenize.rs`: character helpers, the word tokenizer shared by the
  parsers, and the law that its tokens come in the order of the text.
- `src/ast.rs`, `src/parse.rs`, `src/parser.rs`, `src/math.rs`, `src/calc/`: the trees,
  parsers and counts of the first two languages; `src/shape.rs` proves the shape of the
  trees those parsers give.
- `src/sys/`: the current language: syntax tree, parser (`parser.rs`), the shape of
  parsed programs (`grammar.rs`), rewrites (`transforms.rs`), matra and akshara counts
  (`stdlib/`), the interpreter, error reports, and a lexer with error recovery
  (`tokenize.rs`).
- `src/repl/parser.rs`: the commands of the interactive prompt.
- `app/`: the command-line program and the interactive prompt.
- `tests/`: tests of the library.

Every function in `src/` states its result over mathematical models (`Seq`, `int`,
views of the trees and tokens) and is proved against that statement; the few calls
into the standard library that Verus does not model are small trusted wrappers.
