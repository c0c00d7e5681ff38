//! Streaming decoder for rhythm-game beatmap text: the game mode and the
//! ordered hit objects of a beatmap, with every function verified against a
//! mathematical model of the format.
pub mod structs;
pub mod helpers;
pub mod service;
pub mod laws;

pub use helpers::{parse_hit_object_line, parse_int_fast};
pub use structs::{HitObject, HitObjectType, OsuParser};
