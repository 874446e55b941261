# stackforge

A small dynamically typed scripting language: source text is lexed, parsed
into an AST, and executed either by a tree-walking interpreter or by a
compiler to bytecode and a stack-based VM. The library is written in Verus;
every function in `src/` carries a contract that Verus proves.

## Layout

- `src/text.rs`, `src/error.rs`: byte-level text helpers; errors tagged with
  their phase and source line.
- `src/token.rs`, `src/lexer.rs`: tokens and the lexer, specified by a
  functional model of the token stream (`lex_result`).
- `src/ast.rs`, `src/grammar.rs`, `src/parser.rs`: the syntax tree and its
  model, the grammar as a functional parser over the token model, and the
  recursive-descent / Pratt parser proved to compute it exactly.
- `src/value.rs`, `src/heap.rs`, `src/builtins.rs`: values, the heap of
  arrays and maps, indexing, printing, and the builtins `len`, `push`, `pop`,
  `keys`.
- `src/interpreter.rs`: the tree-walking interpreter, proved against a
  big-step semantics.
- `src/chunk.rs`, `src/codegen.rs`, `src/compiler.rs`: bytecode, the model of
  the code emitted for each construct, and the compiler proved to emit it.
- `src/vm.rs`: the VM, proved against a small-step semantics of the bytecode.
- `src/agree.rs`: the proof that the VM, running compiled code, agrees with
  the interpreter on scripts without calls, arrays or maps (`let`, `print`,
  expression statements, blocks, `if` and `while`).
- `src/lib.rs`: `run_ast` and `run_vm`, whose contracts chain the models, and
  the laws relating the two back ends.
- `app/main.rs`: the command-line program (`stackforge [--ast|--vm] file`).

## Numbers

Numbers are the integers that a 64-bit float holds exactly (magnitude at most
2^53). A result outside that range, a division with a remainder, and a
fractional literal are reported as errors rather than rounded.

## Agreement of the back ends

Both back ends evaluate all the values of a `print` statement before
showing any of them, and a map literal that repeats a key keeps its last
value. Source texts may hold fewer than `0xffff_ffff` newlines, the most
lines a 32-bit line counter numbers.
