//! Simulation core of a grid-based snake game: the board and its
//! cell/world coordinate mapper, the snake's body with its occupancy
//! map, per-tick movement, collision resolution, food spawning, the
//! difficulty-driven speed curve, and the Menu/InGame session machine.
//!
//! Rendering, input devices and the host scheduler are external
//! collaborators: the core only consumes resolved directional intents
//! and a difficulty selection, and exposes score, body, food, the
//! game-over signal and the tick interval for them to project.

pub mod grid;
pub mod rng;
pub mod session;
pub mod speed;
