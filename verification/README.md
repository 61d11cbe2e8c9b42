# cel

A parser and interpreter for a core of the Common Expression Language (CEL),
verified with Verus. Programs can be run under a runtime cost tracker with a
limit, and chained by continuations.

## Layout

- `src/lexer.rs`, `src/grammar.rs`, `src/macros.rs`, `src/parser.rs`: from source
  text to the expression tree. `grammar.rs` says which tree a text stands for,
  `parser.rs` computes it. `numbering.rs` shows that every node gets an
  identifier of its own.
- `src/value.rs`, `src/entries.rs`, `src/compare.rs`, `src/functions.rs`,
  `src/text.rs`: values and the functions on them.
- `src/eval.rs`: what an expression means, and which nodes get a value on the
  way. `src/resolver.rs` evaluates, before the eyes of an observer
  (`src/observer.rs`).
- `src/cost.rs`, `src/pricing.rs`, `src/rounding.rs`: the cost tracker and its
  prices. `src/tracking.rs` makes it an observer; `src/accounting.rs` states what
  an evaluation costs as a whole, and that the tracker arrives at it.
- `src/program.rs`, `src/references.rs`, `src/context.rs`, `src/error.rs`,
  `src/messages.rs`: the public face.
- `src/cps.rs`: chains of programs and pipelines.
- `app/`: a small program that shows chains and pipelines.

## Scope

Floating-point constants are read but not evaluated. The sizes that prices go by
are scaled as IEEE doubles are, in integer arithmetic. The cost account saturates
at the largest cost.
