pub mod mask;
pub mod board;
pub mod deduce;
pub mod search;
pub mod consistent;
pub mod solutions;
pub mod tally;
pub mod generate;
pub mod laws;
