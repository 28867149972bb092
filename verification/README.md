# v2

A miniature JavaScript engine in the shape of V8: a lexer, a recursive
descent parser, a compiler to register-based bytecode, an interpreter with a
flat call stack and an accumulator, Smi-tagged values, and a managed heap with
a mark-and-sweep collector. The library in `src/` is verified with Verus
against a mathematical statement of what each part does; `app/` is the thin
command-line wrapper around it.

## Layout

- `src/value.rs` — tagged values (Smi or heap reference) and their round trips.
- `src/text.rs` — character classes, decimal printing and string helpers.
- `src/lex.rs` — the token grammar (`lex_spec`) and the lexer.
- `src/ast.rs` — the syntax tree, its mathematical form, and how it prints.
- `src/parser.rs` — the program grammar (`p_program`) and the parser.
- `src/symbols.rs` — ordered name tables used by the compiler.
- `src/heap.rs` — the heap, reachability, and the collector (`swept`).
- `src/bytecode.rs` — the instruction set and the compiler (`c_stmts`).
- `src/disasm.rs` — the bytecode listing.
- `src/machine.rs` — the semantics of one interpreter step and of a run.
- `src/isolate.rs` — the isolate: `eval`, `run`, garbage collection roots.
- `src/vm.rs` — the frame-per-call machine that runs a `Program`.
- `src/correctness.rs` — a source-level evaluator and the proof that compiled
  straight-line programs compute the value it gives.
- `app/main.rs` — the command line: reads a file, evaluates it, prints the result.

## Running

    g8 <file.js>

prints the value the program leaves in the accumulator.
