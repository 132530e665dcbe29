//! Watershed from minima on regular grids: a minimax-path forest grown from
//! the masked cells of a 2D or 3D grid, with the two priority queues and the
//! grid adjacency it is built on.

pub mod adjacency;
pub mod array;
pub mod bucket_queue;
pub mod heap;
pub mod ift;
pub mod image;
pub mod priority_queue;
pub mod watershed;

pub use crate::watershed::{watershed_from_costs, watershed_from_minima, WatershedError};
