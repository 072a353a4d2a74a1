//! File data: which blocks a file has, and writing to them without touching
//! what a snapshot still reads.
pub mod area;
pub mod isolation;
pub mod runs;
pub mod sharing;
pub mod writer;
