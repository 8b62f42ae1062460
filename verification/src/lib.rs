//! Wave function collapse over a 2D grid of tile candidates.
//!
//! Tiles ("modules") carry one connector fingerprint per side; the engine
//! fills a grid of cells ("slots") so that neighbouring resolved cells have
//! matching connectors, by randomized entropy-guided collapse and
//! constraint propagation.

pub mod conector;
pub mod direction;
pub mod module;
mod rng;
pub mod slot;
pub mod subseq;
pub mod wave;

pub use conector::ConnectorID;
pub use direction::Direction;
pub use module::Module;
pub use slot::Slot;
pub use wave::get_constraint_fn;
pub use wave::Constraint;
pub use wave::Contradiction;
pub use wave::EdgeSampler;
pub use wave::Image;
pub use wave::Wave;
