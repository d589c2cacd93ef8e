//! What the commands decide and compute, apart from reading and writing.

pub mod selection;
pub mod naming;
pub mod modes;
pub mod seed_lines;
pub mod output_lines;
pub mod rate_batch;
pub mod statistics;
pub mod text_laws;
pub mod reading_laws;
pub mod pilot;
pub mod lists;
