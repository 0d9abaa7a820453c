//! Dungeon generation following 2D6 pen & paper rules: room generation,
//! exit placement and connection tracking.
pub mod generator;
pub mod room;

pub use generator::DungeonGenerator;
pub use room::{Exit, Room, RoomType, Wall};
