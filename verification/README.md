# openepl

Parts of the OpenEPL compiler's front end, verified with Verus: the lexer,
the parser, the command registry, the checks and rewrites that stand on
their own (record cycles, stray jumps, returns, initializers, spelling
suggestions, `defer` expansion, places, the C layout of records), and the
reader for the line table of a program it built. The expression type
checker, the full module validator and the desugaring pass are not here.

- `src/text.rs`: text helpers the other modules build messages with.
- `src/types.rs`: the typed IR (types, expressions, statements, module items).
- `src/lexer.rs`, `src/parser.rs`: source text to tokens to a `Module`.
- `src/sema.rs`: literal typing, generic call results, component properties
  and record fields.
- `src/registry.rs`: the commands, component types, subroutines and records
  in scope.
- `src/validate.rs`: diagnostics and the checks that stand on their own
  (record cycles, stray `break`/`continue`, returns, initializers, spelling
  suggestions).
- `src/desugar.rs`: `defer`, places, the component table.
- `src/layout.rs`: the C layout of `is c` records.
- `src/symbols.rs`, `src/dwarf.rs`: the line table and user functions of a
  built program, read through `gimli` and `object`.
- `app/`: opening and mapping the program file.
