//! Level generation for a grid-based word-connection puzzle: wall layout and
//! connectivity, pairwise navigation tables, path decomposition into straight
//! segments and a word solver that fills the segments from a dictionary.

pub mod chance;
pub mod edge_map;
pub mod generator;
pub mod grid;
pub mod layout;
pub mod navigation;
pub mod position;
pub mod solver;
pub mod walks;
pub mod words;
