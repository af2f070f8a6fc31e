//! What holds of encoding and decoding together.

pub mod equality;
pub mod partial;
pub mod parts;
pub mod round_trip;
pub mod sound;
pub mod verdict;
