# filler

A bot for the Filler game, verified with Verus.

Each turn the engine writes the Anfield and a piece; the bot answers with the
top-left corner where it puts the piece. A move is legal when every solid cell of
the piece lands on the board, exactly one covers a cell of the bot and none covers
a cell of the opponent. Among the legal moves the bot plays the one nearest (in
Euclidean distance) to the opponent's centre of mass, the first in row-major order
on a tie, and answers `0 0` when no move is legal. Distances are compared exactly,
in integers.

Layout:

- `src/types.rs`: players and their marks, positions, pieces and the grid.
- `src/text.rs`: characters, white space, words and numbers of a line.
- `src/parser.rs`: the player line, header dimensions, grid and piece parsing.
- `src/turn.rs`: the state machine that collects the lines of one turn, and the
  laws of reading a turn.
- `src/render.rs`: how the engine writes a turn, and the law that such a turn is
  read back as written.
- `src/placement.rs`: the legality rules and the search for legal moves.
- `src/strategy.rs`: opponent cells, the opponent's centre of mass and the choice
  of the move.
- `app/main.rs`: standard input and output, and the opponent's centre of mass as
  floating-point numbers.
