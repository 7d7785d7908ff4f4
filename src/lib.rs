//! A generic A* best-first search engine: an indexed min-heap open list with
//! insert-or-improve semantics, and two search drivers, one that reports only
//! the goal state and one that also reconstructs the path of transitions.

pub mod astar_state;
pub mod open_list;
pub mod traced;
pub mod untraced;

pub use astar_state::AStarState;
pub use open_list::OpenList;
pub use traced::{reconstruct_path, traced_astar, TracedResult, TracedState, TracedStateWrapper};
pub use untraced::{untraced_astar, UntracedResult, UntracedState};
