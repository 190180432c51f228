//! A discrete-time cellular automaton on a fixed-size grid of typed cells
//! that move, push and duplicate one another along their facing directions.

pub mod board;
pub mod cells;
pub mod chain;
pub mod directions;
pub mod fps;
pub mod grid;
pub mod laws;
pub mod menu;
