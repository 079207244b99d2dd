//! The river-crossing puzzle: its states, their encoding and the search engine.

pub mod breadth_first;
pub mod frontier;
pub mod notation;
pub mod ordering;
pub mod search;
pub mod search_laws;
pub mod side_state;
pub mod text;
pub mod visited;
pub mod world_state;
