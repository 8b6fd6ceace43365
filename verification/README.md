# shell_core

The logic of a small interactive shell, written in Verus and proved against its
contracts, with the terminal and process handling around it in `app/`.

- `src/tokenize.rs`: splitting a command line into words (quotes, backslash escapes, `~`).
- `src/command.rs`: taking output redirections (`>`, `1>`, `2>`, `>>`, `1>>`, `2>>`) off a
  line and deciding what runs it.
- `src/builtins.rs`: `echo`, `exit`, `pwd`, `cd` and `type`, and the `PATH` lookup, as
  functions from what they need of the system to what they write and return.
- `src/completion.rs`: the word under the cursor, ordered candidate sets, the longest
  common prefix and the two-press Tab protocol.
- `src/line_editor.rs`: how each key changes the line and the cursor.
- `src/shell.rs`: trimming a line and when the read loop stops.
- `src/ordered.rs`, `src/text.rs`: byte order on strings and string helpers.
- `app/`: raw terminal mode, reading keys, reading directories and `PATH`, opening
  redirection files, starting programs.
