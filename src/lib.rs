//! An FM index over a text: the Burrows-Wheeler transform built by sorting
//! the text's rotations, and backward search that counts a pattern's
//! occurrences from the transform and its tables.

pub mod bwt;
pub mod counting;
pub mod laws;
pub mod occurrences;
pub mod rotation;
