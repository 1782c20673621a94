//! The query pipeline: pure orchestration between the external embedding
//! collaborator and the spatial index. The collaborator's outcome is
//! handed in as a value; the pipeline checks it, runs the query, and
//! returns the ranked result, propagating failures untouched.

use vstd::prelude::*;

use crate::errors::RetrievalError;
use crate::index::SpatialIndex;
use crate::point::VectorPoint;
use crate::query::Neighbor;
use crate::query::knn_post;

verus! {

/// Turns the collaborator's embedding vectors into index points, the
/// point at position `i` carrying payload `i` (the record's number in
/// the source order).
pub fn index_points(embeddings: Vec<Vec<i32>>) -> (pts: Vec<VectorPoint>)
    ensures
        pts@.len() == embeddings@.len(),
        forall|i: int|
            0 <= i < pts@.len() ==> (#[trigger] pts@[i]).coords@ == embeddings@[i]@
                && pts@[i].payload == i as u64,
{
    let ghost orig = embeddings@;
    let mut rest = embeddings;
    let mut pts: Vec<VectorPoint> = Vec::new();
    while rest.len() > 0
        invariant
            pts@.len() + rest@.len() == orig.len(),
            rest@ =~= orig.subrange(pts@.len() as int, orig.len() as int),
            forall|i: int|
                0 <= i < pts@.len() ==> (#[trigger] pts@[i]).coords@ == orig[i]@
                    && pts@[i].payload == i as u64,
        decreases rest@.len(),
    {
        let ghost pre = rest@;
        let v = rest.remove(0);
        let id = pts.len() as u64;
        pts.push(VectorPoint { coords: v, payload: id });
        proof {
            assert(rest@ =~= orig.subrange(pts@.len() as int, orig.len() as int));
        }
    }
    pts
}

/// Runs one query: takes the collaborator's outcome for the query text,
/// checks its dimensionality against the index, and returns the ranked
/// k-nearest result. An embedding failure is propagated untouched; a
/// vector of the wrong dimensionality is a `DimensionMismatch`.
pub fn run_query(
    index: &SpatialIndex,
    embedded: Result<Vec<i32>, RetrievalError>,
    k: usize,
) -> (r: Result<Vec<Neighbor>, RetrievalError>)
    requires
        index.wf(),
    ensures
        embedded is Err ==> r == Result::<Vec<Neighbor>, RetrievalError>::Err(embedded->Err_0),
        embedded is Ok && embedded->Ok_0@.len() != index.dim ==> r == Result::<
            Vec<Neighbor>,
            RetrievalError,
        >::Err(RetrievalError::DimensionMismatch),
        embedded is Ok && embedded->Ok_0@.len() == index.dim ==> r is Ok && knn_post(
            index.points@,
            embedded->Ok_0@,
            k as int,
            r->Ok_0@,
        ),
{
    match embedded {
        Err(e) => Err(e),
        Ok(v) => {
            if v.len() != index.dim {
                Err(RetrievalError::DimensionMismatch)
            } else {
                Ok(index.k_nearest(&v, k))
            }
        },
    }
}

} // verus!
