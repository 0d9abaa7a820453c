//! Dungeon Saver library: procedural dungeon generation following the 2D6
//! pen & paper rules, an autonomous explorer with A* pathfinding, a
//! following camera, ASCII room rendering and map export.
pub mod dungeon;
pub mod explorer;
pub mod export;
pub mod renderer;
pub mod rng;
pub mod screensaver;
pub mod text;
pub mod theme;

pub use dungeon::{DungeonGenerator, Room};
pub use rng::SeededRng;
pub use export::MapExporter;
