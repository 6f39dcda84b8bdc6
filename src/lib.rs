//! A move-search engine for Omok (Gomoku with the double-three restriction)
//! on a 15 by 15 board.
pub mod board;
pub mod rule;
pub mod eval;
pub mod prune;
pub mod model;
pub mod hash;
pub mod tt;
