# carli

`carli` is a small interactive Unix shell. This crate holds its command
language and its decisions as a library verified with Verus, and the program
around it.

- `src/` is the verified library.
  - `parser.rs`: reading a command line: quoting, escapes, comments, `$NAME`,
    `${NAME}` and `$?` expansion, `<`, `>`, `>>` redirection and `|`
    pipelines, specified by a model of the scanner (`lex`) and of how tokens
    become commands (`pipeline_spec`, `parse_spec`).
  - `word_laws.rs`, `pipeline_laws.rs`, `parser_laws.rs`: laws of the
    language proved over that model: a word written as plain, escaped,
    single-quoted, double-quoted and `$` pieces stands for the concatenation
    of their values, whitespace separates words, a comment runs to the end of
    the line, redirection paths take their words' values with or without
    spaces around the operators, `|` separates pipeline stages and every
    stage needs a command, every escaped character is literal, the previous
    status matters only through `$?`, variables take the first matching
    entry, and tokens gather into a command exactly when every redirection
    names its file and there is at most one of each kind.
  - `shell.rs`: the built-in commands' decisions (`exit`, `cd`, `export`,
    statuses).
  - `jobs.rs`: job control: selecting jobs for `fg` and `bg`, job lines,
    waiting for a foreground pipeline and reaping tracked jobs.
  - `session.rs`: invocation, session mode, what each read and each command
    does to the session, startup-file processing.
  - `paths.rs`, `prompt.rs`, `text.rs`: startup-file locations, `which`,
    the prompt template, and text helpers (whitespace, names, numerals).
- `app/main.rs` is the program: terminal, signal, process and file work
  (through `nix` and `rustyline`), driven by the library's decisions.
- `tests/` exercises the library on concrete inputs.

The process environment is handed to the parser as a list of name and value
pairs, so that expansion is a function of its inputs.
