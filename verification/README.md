# lipi — verified core of the LIPI language tools

LIPI is a programming language written in Devanagari with Hindi/Sanskrit
keywords. This crate holds the parts of its tooling that are pure logic, each
function stated with a `requires`/`ensures` contract over a mathematical model
and proved with Verus.

## Layout

- `src/` — the verified library
  - `types`, `ast`, `typecheck` — gradual type hints, the syntax tree and the static type checker
  - `parser` — the SOV grammar: from the tokenizer's tokens to the syntax tree, with error recovery
  - `interp` — string interpolation (`"नमस्ते {नाम}"`) into expressions
  - `roman`, `phonetic` — Roman and phonetic input to Devanagari source
  - `opcode`, `serializer` — the bytecode and its `.libc` file format
  - `regex_engine`, `pratimaan` — the pattern language and its functions
  - `combin`, `random` — combinations, Cartesian products, the generator, UUIDs
  - `sangrah` — list helpers: deque ends, chaining, counting, ordered-dictionary lookup, zip rows
  - `zip`, `suraksha` — archives (store and DEFLATE), CRC-32, Hamming(7,4)
  - `tomlparse`, `xmlparse`, `yaml`, `pkg` — configuration readers, the package manifest
  - `server` — request paths and routing of the web server
  - `sqltok` — the tokenizer of the embedded SQL statements
  - `tui`, `repl`, `excerpt` — the editor buffer, the prompt's decisions, error excerpts
  - `registry` — the names under which the standard-library functions are registered
  - `name_table`, `text` — sorted name tables and text helpers
- `app/` — the `lipi` command: terminal I/O for the editor, file and socket
  I/O, and the standard-library functions that compute in floating point or
  reach raw memory
- `tests/` — tests of the library

Each module states its laws as public proof functions, for example that reading back a written archive, manifest or
bytecode file gives the same value, or that undo reverts an edit.
