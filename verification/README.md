# teac

The verified core of a compiler for TeaLang, a small statically-typed teaching
language, to LLVM-style IR and AArch64 assembly. The data structures and passes
are written in Verus: their behaviour is stated in `requires`/`ensures`
contracts and proved.

This is not a working compiler end to end. The TeaLang grammar (and so the
parser proper), the generation of IR from the syntax tree, the instruction
selection of the backend (the per-statement emitters) and the assembly printer
are not part of this crate. The command-line driver in `app/` therefore stops
with an error where it would need them; the passes and the backend stages that
are here work on IR and instructions built by other means, as the tests do.

## Layout

- `src/ast*` — the abstract syntax tree of TeaLang programs.
- `src/ir*` — the intermediate representation: types, values, statements, basic
  blocks and functions; conversion of written types to IR types; the textual IR
  printer.
- `src/opt*` — control-flow graphs, dominators (sets, tree, frontiers),
  promotion of stack slots to SSA registers (`mem2reg`) and PHI elimination.
- `src/common*` — graphs and a worklist liveness analysis (its result is the
  least solution of the dataflow equations), decimal text, target symbol names.
- `src/codegen*` — the AArch64 backend: register types, instructions, stack
  frames and struct layouts, graph-coloring register allocation (interfering
  registers never share a color) and the rewriting of instructions over
  physical registers.
- `src/parser*` — the parser's state, its errors and the quoting of source
  snippets in error messages.
- `app/` — the command-line driver: argument handling, file I/O and the pass
  manager.
- `tests/` — tests of the library on concrete programs and values.
