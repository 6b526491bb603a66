//! Towers of Hanoi: a three-peg puzzle state with checked moves, a command
//! parser, text rendering, and an incremental solver that computes the next
//! move from any legal placement of the disks.
pub mod peg;
pub mod game;
pub mod state;
pub mod solver;
pub mod render;
