# shell

The logic of a small interactive shell, verified with Verus, and the program
around it.

- `src/` is the verified library:
  - `text` and `number`: strings as sequences of characters (whitespace,
    trimming, splitting, joining, replacing, padding) and decimal numbers.
  - `arg_parser`: the scanner that splits a line into words (quotes,
    backslashes) as a state machine, and the removal of output redirections.
  - `command`, `common`: identifying the command of a line, and the helpers
    that completion uses on lines.
  - `completion_specs`, `completion`: the completion scripts of commands, the
    sorted set of executable names, and the candidates offered.
  - `shell_context`: what the shell does for each command, as an action for
    the program to carry out, with the texts it prints.
  - `job`: the table of background jobs and its report.
- `app/` is the program: the line editor, files, processes and the terminal.
- `tests/` runs the library on concrete lines.
