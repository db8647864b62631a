//! Tile-matching solitaire engine: the board model, the exposure rule, match
//! enumeration, a generator of solvable deals, and the board layout formats.

pub mod color;
pub mod game;
pub mod generate;
pub mod map;
pub mod play;
