# lib: two verified compilers for L1S

`src/` holds two compilers for the small L1S language, each proved with Verus
against contracts over plain-value models of its data:

- `basic`: lexer, parser (specified by a grammar in `basic::grammar`), type
  checker, IR builder that keeps every value in a virtual register, a stack
  allocator that gives each register an 8-byte slot, and a generator of NASM
  text (`basic::codegen`, whose output is stated character by character).
- `ssa`: lexer, parser (`ssa::grammar`), type checker, an IR builder that lowers
  to a graph of labelled blocks (`ssa::table` states what lowering does), an
  optimiser (constant folding, simplification, copy propagation, dead-code
  removal) and a linear-scan register allocator whose result
  `ssa::regalloc::linear_scan` states.

`scope` holds the stack of name scopes both type checkers use, and `text` the
character and number helpers.

`tests/` runs both pipelines on small programs. `app/main.rs` is the command-line
driver of the `basic` compiler: it reads a source file, prints the diagnostics
and writes the assembly next to it.
