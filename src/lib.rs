// Resolution of upgrade paths over a release update graph.
pub mod version;
pub mod graph;
pub mod order;
pub mod resolve;
pub mod laws;
