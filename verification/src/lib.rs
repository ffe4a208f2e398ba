//! Mastermind: grading of guesses, enumeration of all codes, the state of an
//! interactive game and a brute-force search for an optimal guessing strategy.

pub mod mastermind_gameplay;
pub mod mastermind_io;
pub mod mastermind_mechanics;
pub mod mastermind_solver;
pub mod toy;
