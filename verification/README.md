# lambda

An interpreter for the untyped lambda calculus, written in Verus.

- `src/lexer.rs`: tokens of the input (`λ`, `.`, `(`, `)`, identifiers),
  their byte spans, and the token grammar as spec functions.
- `src/parser.rs`: the grammar `term := app EOF`, `app := atom atom*`,
  `atom := ident | 'λ' ident '.' app | '(' app ')'`, with its error messages.
- `src/string_pool.rs`: the interner that gives each name an index.
- `src/term.rs`: terms, free variables, weak head and normal forms,
  alpha-equivalence and its laws.
- `src/interpreter.rs`: substitution with renaming, reduction,
  normalisation with eta reduction, printing, and their laws.
- `src/rerun.rs`: running or evaluating the same code again gives the same result.
- `app/main.rs`: the command-line loop that reads code and prints its normal form.

Reduction and normalisation carry a step budget (`REDUCTION_LIMIT`), since a
verified function must terminate; a term that does not normalise within it
gives `InterpreterError::ReductionLimit`.
