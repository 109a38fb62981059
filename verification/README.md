# mash

A small interactive shell. The library (`src/`) is verified with Verus; the
program around it (`app/`) reads lines with `rustyline`, runs processes and
does the file and terminal I/O.

## Layout

- `src/text.rs`: character and string helpers (white space classes, decimal
  numbers, joining, `~` replacement).
- `src/args.rs`: the tokenizer (words, quotes, backslashes, `>`, `>>`, `1>`,
  `1>>`, `2>`, `2>>`, `|`) and its laws.
- `src/stream.rs`: token sources with look-ahead, the stack of sources that
  alias expansion uses, and the measure that bounds it.
- `src/parser.rs`: the Pratt parser with alias expansion, error recovery and
  the proof that parsing terminates.
- `src/precedence.rs`: how the operators bind (a redirection tighter than a
  pipe; pipes to the left).
- `src/cmd.rs`: builtins and external commands.
- `src/builtin.rs`: what each builtin writes and changes.
- `src/aliases.rs`: the alias store and its file format.
- `src/plan.rs`: the order of steps that runs an expression.
- `src/completion.rs`: completion of command names.
- `app/`: the interactive program.
- `tests/`: tests of the library.
