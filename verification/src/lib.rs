//! Shell integration for a terminal: OSC 133 prompt marks and OSC 7 working directories.

pub mod index;

pub use index::{Column, Direction, Line, Point};
pub mod grid;
pub mod prompt;
pub mod term;
pub mod resize;
pub mod working_directory;
