# shell_core

The decisions of a small interactive shell, written and proved in Verus, and the
program around them.

The library in `src/` turns values into values: a line into the commands of a
pipeline, words into redirections, a command into the step to carry out, the
state of jobs, history and registered completion scripts into the next state
and the messages to write. Every function states in its contract what it
returns; laws that relate several functions stand beside them as public proof
functions whose names start with `law_`.

- `text`, `number`, `order`: strings, decimal notation, the order of texts
- `lexer`, `lexer_laws`, `redirect`, `pipeline`: reading a line and connecting its commands
- `command`, `builtins`, `completions`, `history`, `jobs`: carrying commands out
- `paths`, `completer`: finding programs and completing words

What is taken on trust are a few functions of the standard library:
`String::push`, `Path::parent`, `Path::file_name`, equality of `Path`, and
`String::from_utf8_lossy`.

`app/` is the shell itself. It reads lines, looks at files, forks processes and
writes messages, as the library decides.
