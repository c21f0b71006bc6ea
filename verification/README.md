# codecraft_bot

The game logic of a bot for CodeCraft 2020, a real-time strategy game played on a square grid.
The library is written in Verus: every function states its behaviour in `requires`/`ensures`
and Verus proves it.

## Layout

- `src/vec2.rs`, `src/rect.rs`, `src/range.rs`, `src/grid.rs`: grid points, rectangles,
  ranges and the orders in which cells are visited.
- `src/map.rs`: the tiles the player sees and the cells locked for planned buildings.
- `src/search.rs`, `src/path.rs`: reachability and path searches (breadth-first and A*) over
  the map.
- `src/pairs.rs`: sorting of integer keys in the order of std.
- `src/entity_simulator.rs`, `src/entity_planner.rs`: a tick-by-tick simulation of fights and
  the search for the best moves of one entity.
- `src/build_simulator.rs`, `src/build_planner.rs`: the economy and the search for a build order.
- `src/world.rs`: what the bot knows of the game, with the resource and population that tasks
  set aside each tick.
- `src/tasks.rs`, `src/groups.rs`, `src/roles.rs`: tasks, groups of units and the roles that
  turn into actions.
- `src/stats.rs`, `src/config.rs`, `src/debug.rs`, `src/bot.rs`: counters, tuning, key chords
  and start positions.
- `app/`: the parts that need floating point or serialisation.
- `tests/`: tests on concrete values.
