//! A minesweeper field with verified game rules: construction from mine
//! locations, revealing with automatic spreading over empty cells, flagging,
//! the automatic reveal and flag helpers, and the win and loss conditions.

pub mod field;
pub mod grid;
pub mod flood;
pub mod play;
pub mod status;
pub mod render;
pub mod menu;
pub mod game;
pub mod laws;
pub mod keys;
