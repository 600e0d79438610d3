# chess_engine

A bitboard chess move generator with a command line front end, written in Verus.

The library (`src/`) is verified:

- `bitboard`, `attacks`: squares, bitboards, and the squares each piece attacks, stated
  geometrically (rays, knight and king steps) and computed by loops proved against them.
- `board`, `parsing`: the position array (twelve piece bitboards, the two colours, and an
  information word with turn, castling rights, en passant square and move counters), and the
  reading and writing of FEN text, with the exact error for each malformed field.
- `moves`, `fen`, `movegen`: move codes and their text, playing a move, check, and
  pseudo-legal and legal move generation, each stated by a specification of the position.
- `perft`: counting the leaves of the legal move tree.
- `diagram`, `fish`, `edge_cases`, `bitwalk`, `bench`: the board diagram, the text exchanged
  with a UCI engine, the edge-case positions, and the computations that the speed tests time
  (random words come from `rand` through two trusted wrappers).
- `roundtrip`, `laws`, `safety`, `validity`, `distinct`: proofs that FEN writing and reading are inverse,
  that playing a move flips the turn and never grows castling rights, that the legal moves are
  exactly the pseudo-legal moves that leave the mover's king unattacked, and that legal moves
  keep a valid position valid, so that perft can count from any valid position, and that
  the legal move list names each move once.
- `cli`: the decisions of the command loop, from a line of input to the reply.
- `compare`, `timing`: comparing two perft results move by move, and the statistics of a run
  of move generation timings.

Legal moves are found by playing each pseudo-legal move on a copy of the position and keeping
those after which the mover's king is not attacked (every attacker counts, the other king
included); there are no check or pin masks. On positions that play can reach this is the list
of legal moves of chess; on others, such as two kings side by side, it can differ from a
mask-based generator.

`app/` holds the command loop, printing, timing, and the Stockfish process.
