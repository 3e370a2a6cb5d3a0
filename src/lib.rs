//! Shortest paths on an 8-connected grid by jump point search.
//!
//! `location` holds integer coordinates and their arithmetic, `grid` the
//! obstacle map with its move and pruning rules, `jps` the jump scan and the
//! successor generation, `search` the queue-driven search, and `tools` the
//! reconstruction of a path from the predecessors a search records.

pub mod grid;
pub mod jps;
pub mod location;
pub mod search;
pub mod tools;
