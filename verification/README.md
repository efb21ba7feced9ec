# mover_nav

The movement and navigation logic of a small tile-based game, verified with
Verus.

`src/` is the verified library:

- `mover.rs` — goal queues (by `Priority`) and waypoint lists of moving
  bodies, the idle-goal rule and the waypoint steering decision;
- `queue.rs` — the goal queue, the `priority-queue` crate's `PriorityQueue`
  behind trusted wrappers whose contracts speak of its entry map;
- `physical.rs` — object outlines and the cells an object occupies;
- `grid.rs` — the occupancy grid, how objects are stamped into it and how
  it is rebuilt each frame;
- `navigation.rs` — neighbour expansion, the planner's distance estimate,
  the A* route search (the `pathfinding` crate's `astar` behind a trusted
  wrapper), path simplification, route updates after a search, and the
  stand-alone search;
- `heuristic.rs` — the Manhattan estimate;
- `single.rs` — exact integer descriptions of the single-precision roundings
  the estimates and the path simplification go through;
- `texture.rs` — the pixel data of generated sprite sheets.

`tests/` exercises the library, including cross-checks of the single-precision
descriptions against real `f32` arithmetic.

`app/` is the headless game loop around the library: configuration loading,
sprite-sheet files, the single-precision physics, and the searches whose
ends lie beyond the library's search box.
