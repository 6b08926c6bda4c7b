# wanderer_tales

The map logic of a hex-grid exploration game, written in Verus and proved
against its contracts.

## Layout

- `src/` — the verified library:
  - `hex_vector` — cube coordinates, neighbours and grid distance;
  - `hex_walk` — the ring and spiral walks around a cell, in closed form;
  - `hex_walk_laws` — what the walks cover: every ring cell at its radius,
    no cell twice, the whole disk or annulus;
  - `rotation` — lexicographic order, rotations of a cyclic pattern and its
    canonical (smallest, then first) rotation, with the two-pointer scan;
  - `booth` — the invariants behind Booth's failure-table scan;
  - `cycle`, `lexigraphical_cycle` — patterns stored in canonical rotation,
    found by the naive, two-pointer and Booth algorithms;
  - `map_items`, `map_updates` — tile, mesh and material kinds, and the
    decisions of the map spawner (sight ranges after a move, tile mesh
    patterns from neighbour heights, height levels);
  - `source_table` — the table from cells to their source entities and the
    walks that fill and empty it;
  - `render_map` — the links from source entities to render entities.
- `tests/` — the behaviour of the library on concrete values.
- `app/` — the game's ECS plumbing around the library: systems, components,
  floating-point layout and noise, randomness.
