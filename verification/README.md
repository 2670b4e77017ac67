# solomon

The middle and back end of a HolyC compiler, written in Verus: every
function carries a contract that Verus proves. It takes the compiler from its
SSA intermediate representation down to machine code and object files; the
lexer is the one front-end piece here. The parser, semantic analysis,
monomorphisation, the lowering of the syntax tree to the IR, the syntax-tree
code generators and the tree-walking interpreter are not part of this crate.

## Layout

- `src/lexer.rs`, `src/token.rs`: the lexer, with the token language it
  recognises stated as spec functions (`lexed`, `tokens_of`).
- `src/fmt.rs`: printf format specs — parsing, the C-format rewrite and the
  integer and string layouts.
- `src/ir.rs`: the SSA intermediate representation.
- `src/simplify.rs`: constant folding, algebraic identities, power-of-two
  strength reduction and trivial-`phi` removal, with the value each rewrite
  preserves.
- `src/licm.rs`, `src/ivsr.rs`: loop-invariant code motion and
  induction-variable strength reduction, given the loop analysis.
- `src/copies.rs`, `src/destruct.rs`: parallel-copy sequencing and the
  out-of-SSA pass; the moves on each edge are proved to do what the `phi`s
  did.
- `src/liveness.rs`, `src/regalloc.rs`: liveness, live intervals and the
  linear-scan register allocator, with interference-freedom proved.
- `src/backend.rs`: the IR scans the native backends share (reachable
  functions, runtime features, implicit globals, the block-walk driver).
- `src/arm64.rs`, `src/x86_64.rs`: instruction encoders and the Mach-O and
  ELF object writers; `src/codegen.rs`: the backend interface and its error.
- `src/builtins.rs`, `src/sema.rs`, `src/interp.rs`, `src/text.rs`: builtin
  signatures, name helpers, the interpreter's byte helpers, and string
  utilities.

`tests/` holds the executable tests.
