//! Doubles, given by their bits, and the text that denotes them.
pub mod big;
pub mod round;
pub mod shortest;
pub mod spelled;
pub mod text;
pub mod whole;
