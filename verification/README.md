# bytecode

A stack-based byte-code interpreter (`LOAD_VAL`, `ADD`, `MULTIPLY`,
`WRITE_VAR`, `READ_VAR`, ending in `RETURN_VALUE`), an interpreter for the same
language with counted loops (`LOOP_START n` … `LOOP_END`), and the file-name
test of a search for files by extension, verified with Verus.

- `src/text.rs` — whitespace, trimming, splitting, infix search and decimal
  numerals over characters, each with its model as spec functions.
- `src/table.rs` — a name-keyed table with distinct names, viewed as a `Map`.
- `src/interpreter.rs` — the language's model (`step`, `run_from`,
  `evaluation`), the interpreter proved against it, and the laws on variables.
- `src/interpreter_with_loops.rs` — the model of loops (`run_lines`,
  `run_times`), the interpreter proved against it, and the laws relating it to
  the plain interpreter.
- `src/filter_by_extension.rs` — the verified file-name test.
- `app/lib.rs` — the directory walk over the file system, which uses that test.

Faults that stop a program are returned as `Fault` values by the
`try_evaluate_byte_code` functions; `evaluate_byte_code` requires a program
that runs without a fault.

The instructions can be extended with `ByteCode::extend_instructions`, which
binds a name to an operation of the caller's own: any function or closure
from the stack, the variables, the command and the command before it to a new
stack and new variables (`src/custom.rs`, trait `CustomOperation`). The
contract of `parse_and_execute_cmd` states that such a command runs that
operation once on exactly these arguments and leaves what it returns; the
exact models of whole programs (`run_from`, `run_times`) cover commands that
run built-in operations. An interpreter holds operations of one type `F`;
`NoCustomOperation` is the type of one to which none is added.
