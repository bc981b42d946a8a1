# byo_tools

The verified core of three small command-line tools, written in Verus:

- a CRLF to LF converter (`crlf`, `stream`, `convert_cli`): conversion of
  buffers held in memory and of streams read piece by piece, and the
  decisions of its command line;
- the file-name rules of a gzip front end (`paths`);
- the process list of a top-like monitor (`procs`, `order`, `sort`, `view`):
  sorting by a key with the selection kept, and filtering by name.

`src/` is the library. Verus checks every function there against its
contract, except six small wrappers around `std::path` and
`str::to_lowercase`, whose contracts are trusted: each only names what the
std call returns. `app/` holds what Verus does not see: the converter's `main`, the
reads and writes, the file-system side of the path rules, and the terminal
rendering (which formats floats and builds ratatui values). `tests/` runs
the library on concrete inputs.
