# seal

A small Unix-like shell whose core logic is a verified library.

`src/` holds the parts that decide: the lexer (a state machine over the
characters of a line, with quoting and backslash escapes), the parser
(tokens to a pipeline of commands with arguments and redirections), word
expansion (`~`, `$NAME`, glob patterns), file-name completion and
highlighting, the job table behind `jobs`, `fg` and `&`, the messages of the
builtins, the prompt, and the plan by which a pipeline's stages are wired.
Each public function states in its contract what it returns, and the laws
that tie the functions together are proof functions in the same modules.

`app/` is the program around it: the read-eval loop, process creation,
signals and terminals, files, the Lua engine and the line editor. It hands
the library plain values and acts on what comes back.

`tests/` runs the library on concrete inputs.
