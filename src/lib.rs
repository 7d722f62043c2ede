pub mod bits;
pub mod game;
pub mod input;
pub mod render;
pub mod snake;
pub mod state;
