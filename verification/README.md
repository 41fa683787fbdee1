# sudoku_sat

Compiles puzzle descriptions (Sudoku and its variants) into one
propositional formula for the `limboole` SAT solver, and reads the solver's
answers back into grids.

Layout:

- `src/` — the verified library (Verus):
  - `text.rs`: joining, trimming, decimal numbers, de-duplication;
  - `helpers.rs`: the clause algebra (conjunction of alternatives, the
    compatibility test on cell atoms, reduction of truth tables);
  - `comparators.rs`, `operators.rs`, `prefixes.rs`: `=`, `!=`, `<`, `<=`,
    `>`, `>=`, `||`; `+`, `-`, `*`, `|`; `!!` and `~~` on value tables;
  - `base_rules.rs`: the rules every grid of a given order obeys;
  - `compiler.rs`: flattening the syntax tree and evaluating it into the
    formula;
  - `interpreter.rs`: the solver's answer as a grid, and the clause that
    excludes it from the next search;
  - `placeholder.rs`: the evaluator of the command-line front end;
  - `semantics.rs`: what a formula in the solver's syntax means under an
    assignment;
  - `laws.rs`: properties of the library as a whole, proved.
- `tests/` — tests of the library on concrete values.
- `app/` — the front ends: the command line (`main.rs`), the browser build
  (`web.rs`) and the conversion of the generated parser's tree (`tree.rs`).
