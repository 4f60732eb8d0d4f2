# Core back end of the nash compiler, verified

The passes that take the Core intermediate language of the nash compiler to
Untyped Plutus Core, written in Verus with their contracts proved.

- `ir`: Core terms, their mathematical view (`Tm`), free variables and a
  supply of fresh names.
- `program`: free variables in traversal order, the reachable closure of
  top-level bindings, and assembly of a module into a closed UPLC program
  (version 1.1.0, De Bruijn indices).
- `debruijn`: named UPLC terms to De Bruijn form.
- `emission`: dependency order of specializations (Tarjan's components), the
  `let` / `letrec` nesting that binds them around a root, and the steps of
  the compile loop that fills specializations (which one is pending, and
  recording its compiled value).
- `recursion`: removal of recursive groups by self-application and
  dispatchers, with the static-parameter analysis; the result is stated
  exactly up to the choice of fresh names, including how every recursive
  call is redirected.
- `lower`: lowering of Core to UPLC, as an exact function of the input, and
  the error a malformed input gives.
- `closed`: lowering introduces no free variable.
- `accessors`: sharing of decoders, list steps and field reads within a
  scope.
- `strings`: sharing of string literals through fresh bindings.
- `source_lets`: the usage analysis and the Boolean-consumer carrying used by
  source-let reductions.
- `uplc`: UPLC terms and their view.

`app/` runs the compile loop that fills pending specializations, with the
compile step supplied by the caller.

Tests under `tests/` run the passes on concrete programs; a small evaluator
there runs the lowered terms.
