//! A falling-sand cellular automaton: sand, water and concrete on a
//! fixed-size grid, advanced one tick at a time.

pub mod cell;
pub mod rules;
pub mod universe;

pub use cell::Cell;
pub use universe::Universe;
