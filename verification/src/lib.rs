//! Maze generation, path search, pixel-buffer drawing and the per-frame
//! decisions of a small first-person maze game.
pub mod carve;
pub mod framebuffer;
pub mod game;
pub mod grid;
pub mod maze;
pub mod minimap;
pub mod render;
pub mod texture;
pub mod welcome;
