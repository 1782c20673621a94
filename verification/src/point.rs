//! A point of the spatial index: a fixed-length vector of integer
//! coordinates together with an opaque payload identifying the record it
//! came from.

use vstd::prelude::*;

verus! {

/// A value in the index: `coords` is the embedding vector (all points of one
/// index share the same length, the dimensionality `D`), `payload` is an
/// opaque record identifier carried through to query results.
pub struct VectorPoint {
    pub coords: Vec<i32>,
    pub payload: u64,
}

impl VectorPoint {
    /// Dimensionality of this point.
    pub open spec fn dim(&self) -> nat {
        self.coords@.len()
    }

    pub fn new(coords: Vec<i32>, payload: u64) -> (p: VectorPoint)
        ensures
            p.coords@ == coords@,
            p.payload == payload,
    {
        VectorPoint { coords, payload }
    }

    /// The coordinate along dimension `k`; the caller must guarantee that
    /// `k` is in range.
    pub fn coordinate(&self, k: usize) -> (c: i32)
        requires
            k < self.coords@.len(),
        ensures
            c == self.coords@[k as int],
    {
        self.coords[k]
    }
}

/// The coordinate of a point along one axis, as a mathematical integer.
pub open spec fn coord(p: VectorPoint, axis: int) -> int {
    p.coords@[axis] as int
}

} // verus!
