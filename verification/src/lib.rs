//! Determinism lints for game-simulation code: the rule logic of the Rust,
//! Godot and Unreal front ends, stated and proved over plain-value models of
//! the syntax each front end walks.

pub mod config;
pub mod reach;
pub mod text;
pub mod findings;
pub mod lints;
pub mod godot;
pub mod cxx;
pub mod unreal;
