//! Core engine of a falling-block puzzle game: piece shapes and rotation,
//! the playfield grid with collision detection, piece locking, line clearing
//! and scoring, and the pre-game / playing / game-over lifecycle.

pub mod block;
pub mod board;
pub mod game;
pub mod laws;
