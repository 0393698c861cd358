# chesszilla

A small UCI chess engine whose rules, move generation, search and protocol
handling are proved correct with Verus.

## Layout

- `src/types.rs` – bitboards, colors, piece kinds, pieces and squares.
- `src/mv.rs` – moves packed into 32 bits and their long algebraic text.
- `src/zobrist.rs` – Zobrist keys and the hash of a position.
- `src/position.rs` – the position, making and taking back moves, repetition counts.
- `src/fen.rs` – reading Forsyth-Edwards Notation.
- `src/movegen.rs` – attack detection, pseudo-legal and legal move generation, perft.
- `src/eval.rs` – material and piece-square evaluation.
- `src/search.rs` – move ordering, the transposition table, quiescence search,
  negamax with alpha-beta pruning, iterative deepening.
- `src/game.rs` – a game: a position and the history of its moves.
- `src/uci.rs` – parsing UCI commands, time budgets, and a session that answers them.
- `src/text.rs`, `src/bits.rs` – text and bit helpers.
- `app/main.rs` – the engine program: reads commands from standard input and
  writes the answers to standard output.

## What is proved

Every function states its result over mathematical models (`Seq`, `int`,
spec functions of the board). Among the properties:

- taking back a move with the state `make_move` returned restores the position;
- a move keeps the bitboards and the stored hash consistent with the board;
- legal move generation returns exactly the pseudo-legal moves, in order, that
  do not leave the mover's king attacked, and `perft` counts the leaves of that tree;
- FEN parsing accepts exactly the texts its specification describes and
  reports the first error otherwise;
- evaluation is negated by mirroring the board and swapping colors;
- move ordering is a stable sort by descending score;
- quiescence search returns the quiescence value as fail-hard alpha-beta
  does, and a depth-one search picks a move of the best value;
- negamax returns the alpha-beta combination of its children's results:
  the moves in hash-move order are searched one ply shallower with the
  window the earlier moves left, until one reaches `beta`, and the best
  negated child score is returned and stored; a root search does the same
  over every move and names the first move of the best score; a timed
  search answers with such a finished root search to some depth up to its
  limit, or, when none finished, with the first move in ordering order;
- a FEN string fixes the position completely, and perft follows its
  recurrence;
- every search leaves the position as it was and only names legal moves;
  a node where Black is to move with the move number at its largest, where
  no move can be made, scores its static evaluation;
- a `position` command sets up the game its move texts replay to.
