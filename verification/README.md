# maze_raycast

The verified core of a small first-person maze game: a seeded maze
generator, breadth-first search over the maze, wall queries, the overhead
map, pixel-buffer drawing, texture storage, and the game's per-frame
decisions (level choice, winning, moving on to the next level).

Layout:

- `src/` — the library, written in Verus; every function carries a contract
  that Verus proves.
  - `grid.rs` — walks over open cells (`within`, `reachable`, `distance`) and
    `breadth_first`, proved to compute shortest distances.
  - `carve.rs` — the randomised depth-first walk that carves the maze, with
    its step function as a specification.
  - `maze.rs` — `Maze`: generation, wall queries, start heading, goal and
    collectible cells.
  - `framebuffer.rs`, `minimap.rs`, `render.rs`, `texture.rs`, `welcome.rs` —
    drawing.
  - `game.rs` — screens and per-frame transitions.
- `tests/` — tests of the library.
- `app/` — the program around it: window, keyboard and mouse (minifb), sound
  (rodio), gamepad (gilrs), image files (image), and the parts that compute
  on floating point (ray casting, shading, sprites, player movement).
