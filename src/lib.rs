//! Graph and grid traversal algorithms with verified contracts: reachability,
//! connected components, component sizes, unweighted shortest paths and
//! island detection on a grid of cell labels.

pub mod cells;
pub mod components;
pub mod error;
pub mod graph;
pub mod grid;
pub mod islands;
pub mod names;
pub mod paths;
pub mod reach;
pub mod traversal;

pub use cells::CellSet;
pub use error::ValidationError;
pub use graph::Graph;
pub use grid::{Edges, Grid};
pub use names::NameSet;
pub mod order;
