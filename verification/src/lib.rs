//! Connect Four: the board, the detection of runs of discs, and a
//! look-ahead opponent.

pub mod ai;
pub mod board;
pub mod natural;
pub mod order;
pub mod probability;
pub mod runs;
pub mod turn;
