//! A small two-player Reversi (Othello) core: an 8×8 board with
//! stone placement and capture flipping, cursor navigation, and turn
//! alternation, together with a renderer that produces the display
//! text for a terminal front end.

pub mod board;
pub mod game;
pub mod render;
