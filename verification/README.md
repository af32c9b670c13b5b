# jungle_rust

A Dou Shou Qi (Jungle, Animal Chess) engine whose core is verified with Verus: the rules,
the FEN and move notation, the alpha-beta search, the retrograde endgame tables and the
UCI-style command session each carry contracts that Verus proves.

## Layout

- `src/board.rs`, `src/movegen.rs`, `src/status.rs`: the board, move generation and game status.
- `src/eval.rs`: the handcrafted evaluation.
- `src/fen.rs`, `src/notation.rs`, `src/text.rs`: FEN text, move text and the string helpers.
- `src/search.rs`: the searches (iterative deepening with a table, the fixed-depth search, the
  incremental root analysis).
- `src/tablebase.rs`, `src/solver.rs`, `src/tbfile.rs`: table indexing, the three solvers and
  the byte format of a store of tables.
- `src/protocol.rs`: the UCI-style command session.
- `src/api.rs`: the entry points on FEN text (for the Python and browser bindings).
- `app/`: the command-line front end, the file I/O, the wall clock that times searches under a
  time limit, the learned (floating-point) evaluation and the Python and browser bindings.

Searches with a time limit read time through the library's `Clock` trait; the library itself
has only `NoClock` (a clock that never advances), and the program supplies a wall clock.
- `tests/`: the tests, run against the compiled library.
