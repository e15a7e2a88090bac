//! Irregular 2D nesting: geometry kernel, no-fit polygons, layout and a
//! genetic search over part orders and rotations.
//!
//! All coordinates are fixed-point integers (clipper units); turning the
//! floating-point input of a drawing into these units is left to the caller.
pub mod clip;
pub mod ga;
pub mod geometry;
pub mod layout;
pub mod line_merge;
pub mod nfp;
pub mod order;
pub mod part;
mod rng;

pub use ga::{GaError, GeneticAlgorithm};
pub use geometry::{Bounds, Point, Polygon};
pub use layout::{GAConfig, Individual, Placement};
pub use part::Part;
