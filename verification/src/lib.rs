//! State-space search over the missionaries-and-cannibals river crossing.
//!
//! Three cannibals and three missionaries have to cross a river in a boat
//! that holds two. On no bank may the cannibals outnumber the missionaries
//! that stand there. The library models the states of the puzzle, generates
//! the crossings that lead from one state to the next, and searches for a
//! sequence of crossings that brings all the missionaries to the left bank:
//! breadth first, depth first, greedy best first, or by A*.

pub mod cannibals;

pub use cannibals::frontier::Frontier;
pub use cannibals::frontier::Strategy;
pub use cannibals::frontier::WorldStateHeapWrapper;
pub use cannibals::search::run_a_star;
pub use cannibals::search::run_bfs;
pub use cannibals::search::run_dfs;
pub use cannibals::search::run_greedy_best_first;
pub use cannibals::search::search;
pub use cannibals::search::solve;
pub use cannibals::search::Phase;
pub use cannibals::search::SearchDriver;
pub use cannibals::search::SearchReport;
pub use cannibals::side_state::SideState;
pub use cannibals::visited::VisitedSet;
pub use cannibals::world_state::BoatSide;
pub use cannibals::world_state::WorldState;
pub use cannibals::world_state::WorldStateError;
pub use cannibals::world_state::WorldStateResult;
