# silverscript_state

The statement and contract-state code generator of a covenant-script compiler, verified with
Verus. It turns checked statements of an entrypoint into Kaspa script bytes: stack-local
bindings, `require` forms, `if`/blocks, state reads of foreign inputs (with their framing
guard and script binding) and the validation of a successor output's state.

The statements given to the compiler carry no source positions (parsing is not part of
this library), so errors carry none either.

Every executable function states the code it appends as a sequence of chunks (`Chunk`), the
error it returns, and how the compiler's scope changes; script bytes are appended through
`kaspa_txscript::script_builder::ScriptBuilder`, whose behaviour is stated in `src/script.rs`.

Layout of `src/`:

- `types`, `expr`, `ast`, `error`, `opcodes`: the data the compiler works on.
- `push`, `layout`, `framing`: the byte layout of encoded state and what its framing guard
  establishes.
- `script`, `stack`, `type_map`, `locals`: the builder, the run-time stack bindings, the
  declared types and fresh local names.
- `codegen`: expressions.
- `state`, `output`, `state_read`: reading and writing contract state.
- `statement`, `entrypoint`: statements, blocks and whole entrypoints. A call statement
  compiles the two output-state validations, or a builtin of the caller's
  `BuiltinRegistry` (each builtin is its opcodes after its evaluated arguments, and whether
  it leaves a value, which the statement drops); any other name is reported as a call
  inline lowering should have removed.
- `recorder`: the debug recorder, a log of where each entrypoint and each statement begins
  and ends in the script, with the stack bindings there, and where an `if`'s branches
  begin.
- `balance`: the laws that statements and blocks keep the stack balanced.
- `machine`: a model of the script engine for the opcodes the emitted code is made of, and
  the laws that the framing guard succeeds exactly when the state region it reads is
  canonically framed, that a state read's binding succeeds exactly when the input commits to
  the window it reads (and, for a templated read, its template hashes to the expected
  hash), that a field read pushes exactly its payload (decoded, for a number or a bool), that a
  parameter's size check accepts exactly the sizes its type allows, that the state encoder
  writes each field as its header and payload joined in field order, and that the output
  check of `validateOutputState` passes exactly when the output pays to this script with
  its state replaced.
