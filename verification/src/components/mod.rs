//! What the board widget needs from the library.

pub mod board;
