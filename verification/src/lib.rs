//! Semantic nearest-neighbor retrieval core: a spatial index (k-d tree) over
//! fixed-dimension integer coordinate vectors, with an exact k-nearest-neighbor
//! query, plus the record model and the query pipeline around it.

pub mod dist;
pub mod errors;
pub mod index;
pub mod laws;
pub mod permute;
pub mod pipeline;
pub mod point;
pub mod query;
pub mod records;
