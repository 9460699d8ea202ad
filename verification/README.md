# tiltak (verified)

A library for the board game Tak, written in Verus: the rules of the game and the
formats it is written in, each function with a contract that Verus proves.

## Layout

- `src/position/` — positions and moves. `mod.rs` holds the position and its view;
  `movegen.rs` generates the legal moves, `make_move.rs` plays and takes back moves,
  `roads.rs` and `group_data.rs` find connected groups, roads and critical squares,
  `game_result.rs` decides when a game is over, `tps.rs` reads and writes TPS,
  `ptn_move.rs` and `playtak.rs` read and write moves in PTN and in the playtak
  protocol, `position_gen.rs` numbers all legal positions (encoding and decoding),
  `symmetry.rs` mirrors, rotates and recolours positions, `zobrist.rs` hashes them.
- `src/ptn/` — reading and writing whole games in PTN.
- `src/evaluation/` — the integer parts of the evaluation: the feature counts, and the
  quantised neural network: its board encoding, accumulators, output layer, and the cache
  that updates the hidden layers by the features that changed (proved to give the same
  evaluation as building them afresh).
- `src/natural.rs` — natural numbers, through `num-bigint`, for position indices.
- `src/text.rs` — text helpers: splitting into words, decimal numbers.
- `src/playtak_chat.rs` — reading commands sent to the engine in playtak chat.
- `app/` — a small command line front end: plays moves, decodes and counts positions,
  rewrites PTN files and reads playtak time controls.
- `tests/` — tests of the library on concrete values.

The laws the library keeps (taking back a move, reading back what was written in
TPS, PTN or playtak notation, encoding a decoded position, and others) are stated
and proved as public proof functions next to the functions they speak of.
