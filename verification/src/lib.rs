//! Conway's Game of Life on a torus, with the cells packed into a bit set.

pub mod bitset;
pub mod grid;
pub mod patterns;
pub mod theorems;
pub mod universe;
