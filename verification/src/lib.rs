//! A Rummikub-style run placement engine.
//!
//! Given a board of runs and groups and a hand of tiles, the library
//! searches for a placement order that keeps the board valid and places
//! as many tiles as possible.

pub mod mutations;
pub mod structures;
