//! Best-first search over the boards of a sliding-tile merge puzzle.
//!
//! - `line`: one row or column sliding toward an edge, with its merges.
//! - `board`: the 4×4 board, the four moves, and the tile that each move adds.
//! - `heuristic`: the score that orders the frontier.
//! - `parents`: the record of where each board came from, and paths read back from it.
//! - `closed_set`: the boards already expanded.
//! - `frontier`: the entries waiting to be expanded, lowest cost first.
//! - `search`: the search itself, one step at a time or to the end.
pub mod line;
pub mod board;
pub mod heuristic;
pub mod parents;
pub mod closed_set;
pub mod frontier;
pub mod search;

pub use board::{Direction, GameBoard};
pub use heuristic::heuristic;
pub use parents::{reconstruct_path, ParentMap};
pub use search::{a_star_search, Search, SearchStep};
