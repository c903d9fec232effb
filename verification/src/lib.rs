//! A vantage-point tree: a metric-space index for nearest-neighbor and
//! radius queries.
//!
//! A vantage-point tree stores a set of points related by a *metric*, a
//! distance function `d` with the following properties for all points
//! `x`, `y` and `z`:
//!
//! - `d(x, y) == 0` exactly when `x == y`
//! - `d(x, y) == d(y, x)`
//! - `d(x, z) <= d(x, y) + d(y, z)`
//!
//! The tree recursively splits the point set in two around a chosen
//! *vantage point*, according to how far each point lies from it. A query
//! compares its distance to a subtree's vantage point against the split
//! radius and the triangle inequality to skip subtrees that provably hold
//! no answer.

pub mod kbest;
pub mod laws;
pub mod median;
pub mod metric;
mod rng;
pub mod vptree;

pub use median::less_eq;
pub use median::quick_select_by;
pub use median::small_median;
pub use median::small_median_by;
pub use metric::LinePoint;
pub use metric::MetricItem;
pub use metric::PlanePoint;
pub use vptree::VPNode;
pub use vptree::VPTree;
