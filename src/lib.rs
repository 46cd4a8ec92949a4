//! Interaction and highlight state of a grid tactics board: pointer hit
//! testing by z-priority, unit selection and movement, and highlight markers
//! kept in line with that state every frame.

pub mod grid;
pub mod highlight;
pub mod animation;
pub mod world;
