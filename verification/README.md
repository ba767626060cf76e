# ts_bnf_tool graph library

The rule-dependency graph of a BNF grammar, verified with Verus.

- `src/names.rs` — rule names: their order (that of `str`), sorting, and a duplicate-free
  `NameSet`.
- `src/grammar.rs` — the grammar model: rule bodies (`GrammarNode`), productions in
  declaration order keyed by name, `%axiom` declarations and the start symbol.
- `src/graph.rs` — `build_graph`: deduplicated edges in declaration order, the start symbol,
  the defined and undefined rules, restriction to the rules reachable from a start rule, and
  the undefined-reference warnings.
- `src/emit.rs` — `emit_dot` and `emit_mermaid`, each specified line by line.
- `app/lib.rs` — `run_graphviz`, which pipes DOT text through Graphviz's `dot` process.
- `tests/` — scenario tests.
