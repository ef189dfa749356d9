# logos

The core of the Logos lexer generator, written in Verus: the byte patterns,
the state graph that token definitions compile into, the reading of the
derive's attributes, and the lexer the generated code runs on, each with
its contract proved.

Layout:

- `src/pattern.rs`, `src/regex.rs`: sets of bytes and sequences of them.
- `src/syntax.rs`: the syntax tree of a `#[regex]`, as the regex parser
  gives it, held as plain values.
- `src/graph/`: the state graph (forks, ropes, leaves), lowering of a regex
  into it, and merging of states.
- `src/parsers.rs`, `src/parser.rs`, `src/parser/`: the items of the
  attributes, the `#[logos(...)]` settings, and the `#[token]` / `#[regex]`
  definitions with their callbacks and priorities.
- `src/assemble.rs`: the graph of a whole enum from its variants.
- `src/generator.rs`, `src/generator/`: facts about the graph that the code
  generator uses.
- `src/lexer.rs`, `src/source.rs`, `src/internal.rs`: the runtime lexer, its
  sources, and the values callbacks return.
- `app/`: the derive's front end: reads the enum with `syn`, calls the
  library, and writes the lexer back out as Rust code.
