# ascheme

A small Scheme interpreter whose core is verified with Verus.

- `src/` is the verified library: the tokenizer and parser, the pair heap and
  the lexical environment, the evaluator with its special forms and builtin
  procedures, the cycle collector, and the line-buffered printer.
- `app/` is the command-line program: argument parsing, the interactive
  prompt, reading source files, writing what the interpreter printed, and the
  floating-point number system.
- `tests/` holds the tests, run against the compiled library.

The interpreter carries every number as a 64-bit code and leaves reading,
writing and computing with numbers to an implementation of `NumberSystem`;
the program and the tests use 64-bit floats. Evaluation takes one step per
call of an evaluation function and stops with `EvaluationLimit` when it runs
out of steps (by default after `u64::MAX` of them).

Objects are held in arenas and referred to by index: pairs by a
`PairManager`, lexical scopes by the `Environment`, string objects by a
`StringStore` and procedure definitions by the interpreter. Nothing is freed
until `(gc)` runs: it marks what the roots reach, frees unreachable objects
that no other unreachable object refers to, and breaks the rest, which only
cycles keep alive; it returns how many objects it broke.
