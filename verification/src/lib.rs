//! Verified core of the `sludge` game engine: chunked grids, tile grids,
//! scene graphs, input bindings, dependency ordering and the small plain
//! data types that the engine's systems pass around.

pub mod api;
pub mod bitset;
pub mod chunked_grid;
pub mod conf;
pub mod dependency_graph;
pub mod dispatcher;
pub mod ecs;
pub mod fmod;
pub mod graphics;
pub mod hierarchy;
pub mod input;
pub mod layer_manager;
pub mod scene_graph;
pub mod scheduler;
pub mod spatial_hash;
pub mod sprite;
pub mod tile_grid;
