# Vault

A bitboard chess engine whose core is verified with Verus.

The library (`src/`) holds the engine's logic with machine-checked contracts:

- `defs`, `bits`, `board`, `zobrist`: pieces and colours, bitboards, the position with
  its redundant parts (bitboards, occupancies, king squares, Zobrist key) kept in step.
- `fen`: reading a position from Forsyth-Edwards Notation and writing it back; reading
  back what is written gives the same position.
- `movegen`: attack sets, pseudo-legal move generation (exactly the pseudo-legal moves,
  each listed once and scored by MVV-LVA or the history and killer tables, in
  generation order: pawn pushes, double pushes, captures, en passant, then knights,
  bishops, rooks, queens, king and castling, each stage by origin square), move lists
  and sorting.
- `makemove`: playing and taking back moves; taking back restores the position.
- `consistency`: a check that the redundant parts of a position agree.
- `perft`: counting leaf nodes of the legal move tree, and the per-move split; each
  count is the sum, over the legal moves, of the counts below them.
- `search`: static evaluation (tapered piece-square tables, mobility, pawn structure,
  king shield), static exchange evaluation, repetition detection, the transposition
  table, quiescence, alpha-beta and iterative deepening. For a search without a time
  limit the contracts give the quiescence and alpha-beta scores as relations over the
  moves in the order tried (the table's move first, then by descending score; each
  child scored in the window of its moment, the transposition, killer and history
  tables threaded from one child to the next), how a quiet move that cuts the search
  off updates the killer and history tables, and what the table holds afterwards.
- `test_suites`, `uci`, `text`: standard algebraic notation both ways, coordinate
  notation, the options of the `go` command, time allotment, square and move names.

`tests/` exercises the library on concrete positions. `app/` is the program around it:
the UCI loop on standard input, a runner for EPD test suites, and perft divide output.
