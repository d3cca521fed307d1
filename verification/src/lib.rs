pub mod coordinate;
pub mod program;
pub mod random;
pub mod universe;
pub mod tally;
pub mod soup;
