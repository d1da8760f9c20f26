//! A bot for the Filler game: it reads the Anfield and the piece it is given,
//! finds every legal placement of the piece and picks the one that comes
//! closest to the opponent's territory.

pub mod types;
pub mod placement;
pub mod strategy;
pub mod text;
pub mod parser;
pub mod turn;
pub mod render;
