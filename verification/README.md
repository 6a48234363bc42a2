# bf_lab

A Brainfuck toolchain: a lexer, a parser, a small intermediate
representation with a peephole optimiser, and a generator of freestanding C
that talks to its runtime through the BFNI interface. The library is
verified with Verus; the command-line tools around it are ordinary Rust.

## Layout

- `src/frontend/` — lexer, syntax tree and parser (`+ - < > [ ] , .`, every
  other byte a comment); `parse_laws.rs` holds the laws on parsed trees.
- `src/ir/` — instructions, lowering from the syntax tree, the optimiser, and
  the semantics that the proofs use (`semantics.rs` for instructions,
  `structured.rs` for the syntax tree).
- `src/codegen/` — the C text of each instruction, whole functions, the
  translation unit, and `compile_function`, the public entry point.
- `src/bf_lexer/` — a byte lexer for sources that hold only commands.
- `src/function_spec.rs` — `NAME=FILE` arguments of `bfc`.
- `app/` — the `bf` (run, build, trans2c) and `bfc` tools: arguments, files,
  the C compiler and the host runtime.
- `tests/` — tests of the library.

## What is proved

- Lexing yields exactly the command characters, in order, with the byte
  offsets at which they start.
- Parsing reports invalid syntax exactly when the brackets do not balance;
  a tree parsed from balanced tokens, written back out, gives the commands
  back; every node comes from a token and a one-token node spans just that
  token; neighbouring nodes do not overlap where their tokens come in order;
  and a loop whose tokens come in order has its children between its
  brackets.
- Lowering defines each label once and jumps only to defined labels, and the
  lowered instructions behave as the syntax tree does.
- The optimiser keeps labels, reads and writes, never lengthens a program,
  and a program and its optimised form stop in the same state wherever no
  jump target is defined twice.
- Compiling is deterministic; `within_limits` tells exactly whether a source
  is within the library's limits, and every source of at most `i32::MAX`
  bytes is.
- Each instruction, function and translation unit has an exact C text; the
  text of a unit does not depend on the order its functions were added in.
