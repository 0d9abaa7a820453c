//! Rendering: camera/panning, ASCII room rendering and the cell layout of a frame.
pub mod camera;
pub mod canvas;
pub mod simple_room;

pub use camera::Camera;
pub use canvas::{Canvas, Cell};
pub use simple_room::{MultiRoomRenderer, SimpleRoom};
