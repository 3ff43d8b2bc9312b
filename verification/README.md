# rustify_ts

The analysis core of a TypeScript-to-Rust transpiler, written in Verus.

- `src/parser/ast`: source spans and line maps, the node kinds of the syntax tree,
  arena-allocated nodes (`bumpalo`) and tree walkers (counting, depth, identifiers).
- `src/parser/backend`, `src/parser/error`: the configuration of the Deno parser
  backend, the parse errors, and the decisions taken on what the Deno process
  reports (exit status, reply).
- `src/semantic/scope`, `src/semantic/symbol`: the scope tree, the symbol table and
  the scope pass (with `var` hoisting).
- `src/semantic/types`: type representation, interning, subtyping, unification,
  substitution of type parameters, variance and the resolution of named types.
- `src/semantic/flow`, `src/semantic/ir`: control flow graphs, their construction
  from the tree, dominator trees, IR functions and modules.
- `src/semantic/analyzer`: the scope pass followed by the type pass.

`app/` runs the Deno subprocess (tokio, MessagePack) and gives the library's errors
their messages; `tests/` holds the tests.
