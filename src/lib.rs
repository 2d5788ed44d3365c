//! A deferred, dependency-ordered scheduler for units of work, with a bridge
//! that mirrors resources between two worlds.
pub mod text;
pub mod graph;
pub mod laws;
pub mod bridge;
pub mod game_data;
