# c4

A minimal compiler for a subset of C, with a stack machine to run what it
compiles, verified with Verus.

- `src/lexer.rs` turns source text into tokens (`tokenize`); its contract is
  the spec function `lex`. `src/spacing.rs` proves that whitespace around a
  text does not change its tokens, and `src/spelling.rs` that tokens written
  out with spaces between them tokenize back to themselves.
- `src/parser.rs` is a recursive descent parser that emits opcodes (`parse`,
  `Parser`); its contract is the spec function `parse_tokens`. In the code of
  a whole program every jump lands on one of its opcodes. The locals of
  `main` take the stack entries from 1 on. The first global takes entry 0;
  each further global an entry above the machine's 32 initial entries (32,
  33, ...), which its declaration pushes with an `Imm(0)` run before `main`.
- `src/earlier.rs` states what every parse step keeps, even when it fails:
  the opcodes emitted before it and the globals.
- `src/prefix.rs` proves that the parser reads nothing after the first `EOF`.
- `src/vm.rs` runs opcodes (`execute`, `execute_checked`, `run`); its contract
  is the step relation `vm_step` and the run `vm_run`. Code appended after a
  program that does not run off its end is never reached.
- `src/evaluation.rs` defines the value of an arithmetic expression and proves
  that the code emitted for an expression computes it, that
  `int main() { return e; }` returns the value of `e`, and that
  `if (c) return a; else return b;` returns the value of the chosen branch.
- `src/loops.rs` proves that a program that sets a variable and runs a
  `while` loop over it returns the value the loop ends with.
- `src/statements.rs` defines what a whole program does, statement by
  statement (`program_result`), and proves that the machine, run on the code
  the parser emits, returns the same value
  (`compiled_programs_return_what_their_source_returns`); and that every
  variable in scope has a stack entry of its own
  (`variables_have_their_own_entries`).
- `src/text.rs` holds character classes and string building.
- `app/main.rs` is the command line program: `c4 <file.c>`.

The machine runs a program for at most `STEP_LIMIT` (2^64 - 1) instructions.
Programs whose arithmetic overflows `i64` are outside the contract of
`execute`; `execute_checked` reports them as `None`.
