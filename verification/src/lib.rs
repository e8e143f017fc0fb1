//! A solver for liquid/color-sort puzzles.
//!
//! A puzzle is a fixed set of containers, each holding a stack of colored
//! units up to a shared capacity.  A move pours the maximal top run of one
//! color from a source container into a destination container.  The goal is
//! a state in which every container is empty or full of a single color,
//! subject to optional per-container constraints (must end full, must end
//! empty).  The solver runs a best-first search over the finite state space,
//! deduplicating states by a canonical key that ignores container order.

pub mod canonical;
pub mod container;
pub mod errors;
pub mod solver;
pub mod state;
pub mod transition;
pub mod validate;
pub mod with_score;
