//! Core simulation for a grid-based territory-capture arcade game.
//!
//! A player cuts trails through open territory while balls bounce around the
//! board; completed trails convert enclosed ball-free regions into owned
//! territory. This crate holds the verified simulation engine: the board and
//! cell model, the player trail state machine, the ball physics, the spawn
//! placement policy, and the flood-fill region classifier. Rendering and
//! input layers live outside and drive the engine only through direction
//! requests and discrete ticks.

pub mod entity;
pub mod game;
pub mod grid;
pub mod region;
pub mod renderer;
mod rng;

pub use entity::{Ball, Direction, Enemy, Player, Position};
pub use game::{Game, GameState};
pub use grid::Cell;
pub use renderer::Input;
