//! Reporting of all intersecting pairs among axis-aligned integer rectangles.
//!
//! The fast detector sorts the rectangles' x-boundaries, bisects that sequence
//! recursively and joins the two halves of every split by merge scans over the
//! y-axis. Its contract is stated against the plain pairwise predicate
//! [`Rect::intersects`].

pub mod brute;
pub mod buckets;
pub mod canonical;
pub mod classify;
pub mod detect;
pub mod events;
pub mod keyed;
pub mod laws;
pub mod order;
pub mod random;
pub mod rect;
pub mod report;
pub mod split;
pub mod stab;

pub use crate::brute::brute_force_intersect;
pub use crate::canonical::to_comparable;
pub use crate::detect::intersect;
pub use crate::random::{random_rects, random_rects_detailed};
pub use crate::rect::Rect;
