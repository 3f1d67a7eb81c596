# lom

Tooling around the Lom language, verified with Verus: the lexer, the source
formatter, diagnostics and their JSON/human renderings, fix plans and their
application to a source text, the fix history file format, the language
server's message framing and request fields, package manifests and dependency
resolution, a JSON reader and writer, and the command-line arguments.

## Layout

- `src/` — the verified library. Each module states what its functions return
  over spec functions and views; the laws that relate several functions are
  public proof functions:
  - `lexer.rs` — tokens of a source text, strict and recovering;
  - `fmt.rs` — re-indentation driven by the token stream;
  - `diagnostics.rs`, `fix.rs`, `apply.rs` — diagnostics, fix plans, applying
    plans to a source;
  - `fix_history.rs`, `history_proof.rs` — history records and their reading
    back;
  - `json.rs`, `json_proof.rs` — JSON text to values and back;
  - `package.rs` — `lom.toml` and the dependency walk (a state machine that asks
    for the file work it needs);
  - `lsp.rs`, `cli.rs` — JSON-RPC framing, request fields, arguments;
  - `ast.rs`, `parser.rs` — the syntax tree and its value view (a float
    literal keeps its text), syntax errors and the result of a tolerant parse;
  - `info.rs`, `doc.rs`, `dump.rs` — declaration summaries, API documentation
    and AST dumps of a parsed program, with their renderings;
  - `repl.rs`, `builtins.rs`, `text.rs` — REPL input completeness, built-in
    names, shared text functions.

The language's parser, type checker and interpreter are not part of the crate;
the functions that work on a parsed program (declaration summaries, docs,
dumps, hover and completion, public names of a package) take the tree as an
argument.
- `tests/` — tests run against the compiled library.
- `app/` — the `lom` command: file and stream input/output around the library.
