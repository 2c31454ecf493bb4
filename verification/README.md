# mushroom_bot

A bot for the Mushroom game: on a board of 10 by 17 cells holding mushroom values 0 to 9,
the players in turn claim a rectangle whose mushrooms sum to exactly ten and whose every
side touches a mushroom; the rectangle is emptied and its cells become the player's. The
player with more cells at the end wins.

The library under `src/` is written in Verus and verified:

- `board`, `movegen`, `eval`, `mquality`, `types`: the board with its incrementally kept
  features and hash, exact legal-move generation, the evaluation;
- `search`: alpha-beta search with a transposition table, move ordering, killer and history
  heuristics, iterative deepening with aspiration windows;
- `opponent_db`, `db_builder`, `db_text`, `bytes`: the opponent database (`data.bin`), its
  reader, its writer, and the text files it is built from;
- `protocol`: the decisions of the judge's line protocol (`READY`, `INIT`, `TIME`, `OPP`,
  `FINISH`);
- `tuning`, `board_text`, `text`: the helpers of the tools (weight tuner, opening book,
  benchmark) and the byte-level text reading they share;
- `clock`, `timer`: time, through trusted wrappers of `std::time`.

`app/` is the program around it: the protocol loop on standard input and output, file and
environment access, the floating-point fingerprint matching, and the tools, run as
`mushroom_bot build_data ...`, `mushroom_bot tuner ...`, `mushroom_bot bench_search ...` and
`mushroom_bot gen_opening_book ...`.
