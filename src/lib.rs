//! Generator and replay viewer for a token-moving puzzle on a square board.
pub mod board;
pub mod count;
pub mod generator;
pub mod parse;
pub mod render;
pub mod rnd;
pub mod text;
