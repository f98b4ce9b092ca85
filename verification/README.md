# lucy

Lucy is a small expression language: a lexer, a recursive-descent parser
that rewrites the pipeline `a |> f(b)` to the call `f(a, b)`, a compiler to
the bytecode of a stack machine, and the machine itself. The library is
written in Verus; each stage is specified by a mathematical model and proved
against it.

Layout:

- `src/lexer.rs`: tokens; the grammar of tokens as the spec function `lex`.
- `src/parser.rs`: the syntax tree from tokens; the grammar as spec functions,
  forward progress, and the lowering of pipelines.
- `src/codegen.rs`: bytecode and the compiler; compilation as spec functions,
  and the well-formedness of compiled programs.
- `src/vm.rs`: the machine as a step function (`VM::step`, `VM::resume`)
  specified by `step_spec` and `resume_spec`; runs of well-formed code.
- `src/balance.rs`: the stack discipline of compiled code, and runs that
  never find their stack too short.
- `src/table.rs`: the name-keyed tables of the machine (globals, locals,
  functions). vstd specifies `HashMap`, but with `String` keys it proves no
  useful fact about lookups after inserts, and the names here are strings
  (an integer key would need an interning table, itself a string map). So a
  table is a `Vec` of entries with a proved model: lookups find the entry of
  a name, a store overwrites it or appends one, and no name occurs twice.
- `src/ast.rs`, `src/strings.rs`: the syntax tree and helpers on text.
- `app/`: the `lucy` command (`run`, `compile`, `exec`), the JSON form of
  bytecode, and the host that performs the machine's binary64 arithmetic and
  printing.

Numbers are IEEE-754 binary64 values carried as their bit patterns; the
library never computes on them itself but asks its host.
