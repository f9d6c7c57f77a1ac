//! Replay judge for a noisy 2-D navigation problem: exact integer geometry,
//! parsing of instances and move sequences, and a turn-by-turn scoring engine.

pub mod emit;
pub mod gen;
pub mod geometry;
pub mod minmax;
pub mod model;
pub mod parse_in;
pub mod parse_out;
pub mod sim;
pub mod text;
pub mod view;
