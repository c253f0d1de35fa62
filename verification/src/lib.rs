//! Simulation core of a tile-matching puzzle: a deterministic state machine
//! over a 2D grid of tiles with tick-driven tile motion, selection and
//! swapping, match scanning, and gravity-based refill.

pub mod board;
pub mod events;
pub mod game;
pub mod motion;
pub mod resolve;
pub mod scan;
pub mod selection;
pub mod validate;
