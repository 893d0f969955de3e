//! A verified constraint-propagation solver for the Battleships grid puzzle.
//!
//! A board holds a grid of cells — unknown, water, or one of nine ship-square
//! shapes — together with per-row and per-column remaining ship-square
//! counters and an optional manifest of ship sizes still to find. A fixed
//! pipeline of deduction rules runs until a whole pass changes nothing; every
//! rule only narrows cells and keeps the counters consistent, so the solver
//! never guesses and never takes a deduction back. The text format that
//! boards are read from and written to round-trips exactly.

pub mod board;
pub mod buffer;
pub mod chars;
pub mod error;
pub mod layout;
pub mod neighbor;
pub mod parse;
pub mod ship;
pub mod solve;
pub mod square;
