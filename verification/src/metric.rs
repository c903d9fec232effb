//! The metric capability that stored points must provide, together with
//! two ready-made point types on the line and the integer grid.

use vstd::prelude::*;

verus! {

/// Defines a metric for items in a metric space.
///
/// A metric is a function `d` on a set `S` with the following properties
/// for all `x`, `y` and `z`:
///
///  - `d(x, y) == 0` exactly when `x == y`
///  - `d(x, y) == d(y, x)`
///  - `d(x, z) <= d(x, y) + d(y, z)`
///
/// `dist` is the mathematical distance and `distance` computes it. An
/// implementation must prove the metric laws: the tree prunes subtrees
/// with the triangle inequality, so a `distance` that broke the laws
/// would make queries return wrong answers.
pub trait MetricItem: Sized {
    /// The distance to another element of the metric space.
    spec fn dist(&self, other: &Self) -> u64;

    /// The metric laws for `dist`.
    proof fn metric_laws(a: &Self, b: &Self, c: &Self)
        ensures
            a.dist(b) == 0 <==> a == b,
            a.dist(b) == b.dist(a),
            a.dist(c) <= a.dist(b) + b.dist(c),
    ;

    /// Return the distance to another element in the metric space.
    fn distance(&self, other: &Self) -> (d: u64)
        ensures
            d == self.dist(other),
    ;
}

/// A point on a line; the metric is the absolute difference of the
/// coordinates.
#[derive(Clone, Copy, Debug, PartialEq, Eq, Structural)]
pub struct LinePoint {
    pub v: u64,
}

impl MetricItem for LinePoint {
    open spec fn dist(&self, other: &Self) -> u64 {
        if self.v >= other.v {
            (self.v - other.v) as u64
        } else {
            (other.v - self.v) as u64
        }
    }

    proof fn metric_laws(a: &Self, b: &Self, c: &Self) {
    }

    fn distance(&self, other: &Self) -> (d: u64) {
        if self.v >= other.v {
            self.v - other.v
        } else {
            other.v - self.v
        }
    }
}

/// A point of the integer grid; the metric is the taxicab distance, the
/// sum of the absolute coordinate differences.
#[derive(Clone, Copy, Debug, PartialEq, Eq, Structural)]
pub struct PlanePoint {
    pub x: u32,
    pub y: u32,
}

impl MetricItem for PlanePoint {
    open spec fn dist(&self, other: &Self) -> u64 {
        ((if self.x >= other.x {
            self.x - other.x
        } else {
            other.x - self.x
        }) + (if self.y >= other.y {
            self.y - other.y
        } else {
            other.y - self.y
        })) as u64
    }

    proof fn metric_laws(a: &Self, b: &Self, c: &Self) {
    }

    fn distance(&self, other: &Self) -> (d: u64) {
        let dx: u64 = if self.x >= other.x {
            (self.x - other.x) as u64
        } else {
            (other.x - self.x) as u64
        };
        let dy: u64 = if self.y >= other.y {
            (self.y - other.y) as u64
        } else {
            (other.y - self.y) as u64
        };
        dx + dy
    }
}

} // verus!
