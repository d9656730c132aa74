# minish

A tiny Unix shell: `"..."`/`'...'` quoting, multi-stage pipelines whose stages
run concurrently, `<`/`>` redirection, and the builtins `cd`, `pwd` and `exit`.

The shell's logic is a library verified with Verus; the program around it
does the input and output.

- `src/lexer.rs` — breaks a line into tokens (`tokenize`), specified by `lex`.
- `src/parser.rs` — turns tokens into a pipeline of commands (`parse`),
  specified by `parse_tokens`.
- `src/line.rs` — what a line amounts to: an error, nothing, or a pipeline to run.
- `src/exec.rs` — the decisions of a pipeline's run as a state machine:
  `run_pipeline` starts a run, `step` takes the outcome of each action and
  returns the next one.
- `src/builtin.rs` — the builtins' own decisions (the status `exit` ends with).
- `app/main.rs` — the REPL and `-c` mode; opens files, spawns and waits for
  processes, changes directory, as the library's actions say.

Laws proved in the library include: blanks only separate tokens; a quoted
string is one literal word; joining two pipelines with `|` concatenates
their commands; a run spawns every stage before it waits, never finishes
with a child left unwaited, and ends with the status of its last stage
(127 for a missing program, 1 for a file that cannot be opened).
