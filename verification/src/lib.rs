//! Rotation scheduling: assigns the people of a roster to contiguous turns
//! that cover a range of calendar days.

pub mod algo;
pub mod calendar;
pub mod config;
pub mod input;
pub mod laws;
pub mod load;
pub mod output;
