# oak_analysis

Grammar analyses and a small parser, verified with Verus.

- `src/middle/analysis/ast.rs`: the analysed form of a parsing expression
  grammar (an arena of expressions with their source spans, and named rules),
  and the warnings that analyses give.
- `src/middle/analysis/useless_chaining.rs`: finds useless chains of
  predicates and repetitions (`!(!e)`, `&(&e)`, `!(&e)`, `&(!e)`, `(e+)+`,
  `(e+)*`) and reports the source between the operators involved;
  `chaining_laws.rs` proves that each pattern, wherever it stands in a rule's
  chain, is reported, that the order of the rules and the rule calls along a
  chain change nothing, and that a grammar without such chains gets no
  warning. `chains_end` tells whether a grammar can be analysed. `chain.rs`
  holds what both chaining analyses share.
- `src/useless_chaining.rs`: the same detection kept with counters, warning
  on single expressions; `useless_chaining_laws.rs` proves what it reports,
  with the same laws. `chains_ok` tells whether a grammar can be analysed.
- `src/multiple_and.rs`: flags a grammar whose expression list holds several
  `&` predicates.
- `src/json.rs`: a parser for a small JSON language written as a parsing
  expression grammar, with the farthest-failure error report.
- `app/main.rs`: runs the analyses on a sample grammar and parses sample
  documents, printing the results.
