//! Decision core of a Battleship-playing agent.

pub mod grid;
pub mod summation;
pub mod alpha_beta;
pub mod solver;
pub mod random;
pub mod layout;
pub mod ranking;
pub mod hunter;
pub mod genetics;
