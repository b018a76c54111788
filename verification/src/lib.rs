//! Rule engine for a two-player disc-flipping board game on an 8x8 grid.
//!
//! The library covers the game's logic: the grid of cells with its candidate
//! overlay, the multi-directional capture engine, the turn state machine with
//! pass, forced skip, resignation, domination and stalemate handling, and the
//! score count at game end. Rendering and input collection are left to the
//! caller; the library exposes the grid and the outcome of each turn.

pub mod board;
pub mod capture;
pub mod game;
