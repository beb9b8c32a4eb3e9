//! Depth first search as an iterator over the visits.

pub mod walk;
pub use self::walk::Walk;
