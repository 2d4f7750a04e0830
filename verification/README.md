# motion planning

Motion planning for 2D robots: A* on occupancy grids, rapidly-exploring
random trees (RRT), artificial potential fields and trajectory generation.

- `src/` is the library verified with Verus. `astar_path` holds the
  occupancy grid, its 4- and 8-connected neighbourhoods, the A* search state
  and path reconstruction; `rrt` holds the parent links of the RRT tree and
  the xorshift generator. The A* search state is proved to return only walks
  over free cells from the start to the goal, and to run out of open nodes
  only when no such walk exists.
- `app/` is ordinary Rust on top of it: 2D points and obstacles, the world
  placement of the grid, the floating-point scores that drive A*, the RRT
  and potential-field planners and trajectories.
- `tests/` exercises the library.
