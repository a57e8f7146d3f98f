# onu_refactor

A compiler front and middle end for the Ọ̀nụ language, written in Verus:
every function in `src/` carries a contract that Verus proves.

## Layout

- `src/` — the verified library:
  - front end: `lexer`, `layout` (indentation to `Indent`/`Dedent`),
    `parser` (discourse units, headers, expressions), `matrix_parser`,
    `svo_parser`, `error_recovery`, `analyzer`, `lowering` (AST to HIR);
  - the registry of behaviors and shapes with C-style type layout
    (`registry`, `registry_service`);
  - lowering of the HIR to MIR (`mir_lowering`, `stdlib_lowering`), with
    consumed dynamic values dropped after their last use; `lowering_rel`
    states, step by step, the builder states and results of each form;
  - MIR and its passes: `mir_builder`, `integer_upgrade`, `memo`
    (memoisation by a caching wrapper and an inner function), `inline`,
    `lifetime` (stack promotion of buffers that do not escape), `idiom`,
    `promotion`, `safety`;
  - WebAssembly code generation to a module description (`wasm`).
- `tests/` — the tests, run against the compiled library.
- `app/` — the command-line program around the library: reading and
  writing files, the environment, and the binary encoding (with
  `wasm-encoder`) of the WebAssembly module the library describes; it runs
  the whole pipeline from source text to a `.wasm` file.

Laws of the library (what holds across calls) are public proof functions
whose names begin with `law_`.
