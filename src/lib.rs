//! Reads the lines of a seekable byte stream from the last to the first,
//! one block at a time.
pub mod lines;
pub mod scanner;
pub mod back_lines;
pub mod reading;
