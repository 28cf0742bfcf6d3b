use vstd::prelude::*;

pub mod board;
pub mod components;
pub mod coordinates;
pub mod queue;
pub mod systems;
pub mod tile;
pub mod tile_map;

pub use board::Board;
pub use components::{BombNeighbor, Covered, TileCover, Uncover};
pub use coordinates::Coordinates;
pub use queue::Queue;
pub use systems::{handle_discover_event, handle_input, BombExplosionEvent, TileDiscoverEvent, TileMarkEvent};
pub use tile::Tile;
pub use tile_map::{GenerationError, TileMap};
