//! The explorer: A* pathfinding over the dungeon and the explorer's behavior.
pub mod behavior;
pub mod pathfinder;

pub use behavior::{Explorer, ExplorerState};
pub use pathfinder::Pathfinder;
