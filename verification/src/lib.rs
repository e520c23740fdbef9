//! Simulation core of a turn-based roguelike: a tile grid populated by
//! entities that fight with reactive card decks, a field-of-view engine,
//! and a procedural map generator, all driven by one deterministic
//! per-level random generator.

pub mod cards;
pub mod combat;
pub mod entity;
pub mod game;
pub mod gen;
pub mod grid;
pub mod level;
pub mod rng;
pub mod text;
pub mod turn;
pub mod vision;
