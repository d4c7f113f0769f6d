//! Grid mazes carved by a randomized backtracking walk, and solvers that
//! explore them with walkers that fork at every junction.

pub mod maze;
pub mod nodes;
pub mod solver;
