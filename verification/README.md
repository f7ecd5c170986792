# solver

A verified library of puzzle solvers for permutation puzzles (cubes of any
size, globes, wreaths), written in Verus. Puzzles are given as piece names
separated by `;`, moves as named permutations; solutions are move names
joined by `.`.

## Layout

- `src/` — the library, every function verified:
  - text, moves and move tables: `text`, `moves`, `notation`, `move_table`,
    `perm`, `pieces`, `cancel` (shortening of solutions);
  - cube solving: `cube_index`, `cube_seq`, `cube_text`, `middle`,
    `centres`, `centre_rot`, `four_faces`, `four_bfs`, `four_solve`,
    `face_bfs`, `face_gen`, `face_solve`, `green`, `green_solve`,
    `move_gen`, `move_table`, `cube_finish`; the pieces of the edge stage:
    `cube_edge` (edge targets, sticker labels, distance bounds, the parity
    sequence), `cube_edge_seq` (the move sequences of the edge search) and
    `edge_table` (the distance tables of the edge search, read from their
    move files);
  - reading the outside solver's answer: `answer`;
  - searches: `search` (Dijkstra over packed positions, with the law that
    the recorded paths are cheapest), the ring and face searches in `green`
    and `face_bfs`;
  - globes: `globe`, `globe_cost`, `globe_sim`, `globe_beam`,
    `globe_first`, `globe_greedy`, `globe_odd`, `globe_solve`,
    `packed_set`;
  - wreaths: `wreath`, `wreath_cost`, `wreath_beam`.
- `tests/` — tests of the library on concrete values.
- `app/` — the program around the library: reading the puzzle and move
  tables (CSV), running the outside cube solver, and writing submissions.

Calls into outside crates (`itertools`, `rand`, `serde_json`) and a few
std functions go through small trusted wrappers whose contracts state what
the outside code does; everything else is proved.
