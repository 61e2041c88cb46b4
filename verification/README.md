# sludge

The data structures and rules of the `sludge` 2D game engine, written in
Verus and proved against their contracts.

## Layout

`src/` is the verified library:

- `chunked_grid`: sparse grids stored in square chunks of `chunk_size` by
  `chunk_size` cells (of values, and of bits backed by `hibitset`), with the
  cell/chunk index arithmetic and its round-trip laws.
- `tile_grid`: tile ids and the lookup of a cell's tile.
- `scene_graph`: a forest of layered objects listed depth first, parents
  before children and siblings by layer.
- `spatial_hash`: objects hashed into the buckets of the grid cells their
  bounds touch.
- `dependency_graph` and `dispatcher`: named values ordered by their
  dependencies (through `petgraph`'s topological sort), and the systems
  run in that order.
- `input`: key and mouse bindings, edge- and level-triggered buttons.
- `layer_manager`: which entities are on which draw layer.
- `sprite`: the frame order of animation tags.
- `api::log`: the `log` module that Lua scripts see (through `rlua`).
- `graphics::text`: the character sets of font atlases.
- `fmod`: GUIDs and their text form (through `regex`).
- `hierarchy`: the parent links between entities, kept in an order where
  parents come before their children, and what each update reports.
- `scheduler`: the decisions of the cooperative scheduler of Lua threads:
  which wakeup is due, what a thread's yields mean, waiting for named
  events, and handles on the threads of a `thunderdome` arena that go stale
  when a thread is woken.
- `ecs`, `conf`: the plain component and configuration types.

`app/` holds what the library cannot: conversions from `miniquad` events,
the floating-point parts (axis motion, world-unit boxes, animation timing),
serde copies of library types, the `log` crate sink, the dispatch of
boxed systems, the hierarchy's reading of the ECS world and the resuming
of Lua threads for the scheduler.

`tests/` exercises the library on concrete values.
