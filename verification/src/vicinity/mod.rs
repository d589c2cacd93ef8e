//! Climbing from puzzle to puzzle towards a higher braid rating.

pub mod puzzle_text;
pub mod moves;
pub mod expand;
pub mod minimal;
pub mod tridagon;
pub mod entries;
pub mod climb;
pub mod stream;
pub mod step_laws;
pub mod climb_laws;
pub mod manifest;
