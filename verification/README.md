# wisdom

A Xiangqi (Chinese chess) engine whose rules, searches and data handling are verified
with [Verus](https://github.com/verus-lang/verus).

`src/` is the library. The contracts of its functions are proved by Verus, but for those of
a few calls outside, which are believed: `String::push` and `String::from_utf8` of std,
`shuffle` of `rand`, `SafeTensors::deserialize` of `safetensors`, and `from_str` and
`to_string_pretty` of `serde_json`.

| Modules | What they hold |
| --- | --- |
| `board`, `moves`, `movement`, `xiangqi`, `rules`, `symmetry` | the board, packed moves, how pieces move, check, repetition |
| `zobrist`, `scores`, `tt` | hash keys, the table of an alpha-beta search, the table of network evaluations |
| `ordering`, `search`, `minimax`, `perft` | alpha-beta with quiescence, what it computes, counting lines of play |
| `bits`, `mcts`, `eval_queue`, `nn` | tree search, batches for the network, tensors and action indices |
| `text`, `fen`, `ucci` | text, positions and moves as text, the engine that answers commands |
| `dataset`, `records`, `training`, `selfplay`, `convert`, `json` | training data, batches, self-play, weights and their records |
| `gui` | what clicks and buttons do |

Statements that relate several functions are public proof functions whose names begin
with `law_`: that taking a move back restores the position, that reading a written
position gives it back, that alpha-beta computes the minimax value where its table only
gives hints and pruned lines are draws, that a playout leaves one visit and its credits,
less the virtual loss, on each node of its path, that the visits of the root and of its
children count the playouts, and so on. Each states its own conditions.

Floating-point numbers appear in the library as the 32 bits of their representation.
Arithmetic on them, threads, channels, files, the screen and the network itself are in
`app/`, which is ordinary Rust around the library. `tests/` run the library.
