# boardgames

Rules and algorithms of a handful of small games, written in Verus and
proved against their contracts.

- `src/chess` — board model, pseudo-legal and legal move generation,
  check and game status, move application, perft, and the alpha-beta
  move chooser (proved to pick a legal move that leaves its own king safe).
- `src/game2048` — two 2048 engines: `board` (sliding by rotation, with
  animation records) with `session` (the game loop of the animated front
  end), and `grid` (line by line, with move/merge/spawn records). Moves are
  proved to keep the total of the tiles; a stuck board cannot move.
- `src/othello` — flips along the eight rays, legal moves, turn passing,
  the flip animation queue, and an alpha-beta minimax whose result is proved
  against plain minimax.
- `src/minesweeper` — a 9x9 board (`board`) and a field of any size with
  flag and question marks (`field`). The first click never loses, exactly
  the asked number of mines is laid, and a click opens exactly the squares
  the flood reaches.
- `src/maze` — a depth-first maze carver proved to produce a spanning tree
  of the path cells (every cell reachable from the start, one passage fewer
  than cells), and the player's movement rules.
- `src/calculator.rs` — key entry of a pocket calculator (display text,
  expression line) and digit grouping of the display, proved to add nothing
  but separators.
- `src/random.rs` — the calls into `rand`, with what the library relies on;
  `src/text.rs` builds `String`s from characters.

`app/` holds the front ends: the 2048 window (macroquad), a terminal
minesweeper, and a terminal calculator whose floating-point arithmetic stays
outside the verified library.
