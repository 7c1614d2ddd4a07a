//! Generation and deductive checking of Slant puzzles.

pub mod grid;
pub mod dsu;
pub mod numbers;
pub mod solver;
mod random;
pub mod generator;
pub mod cycles;
pub mod forest;
pub mod deduction;

pub use crate::cycles::find_cycles;
pub use crate::dsu::Dsu;
pub use crate::generator::{Puzzle, fill_from_order, generate_puzzle, hide_hints};
pub use crate::grid::{CellState, get_node_index};
pub use crate::numbers::calculate_numbers;
pub use crate::solver::{check_deductive_solvability, deduce_solution};
pub mod lights_out;
pub use crate::lights_out::{invert_matrix, solve_lights_out};
