//! Classical-cipher cryptanalysis: inverse transforms, key derivation,
//! English-likeness scoring, a bounded top-K collector and a period
//! estimator based on the index of coincidence.

pub mod text;
pub mod shift;
pub mod keyspace;
pub mod score;
pub mod transform;
pub mod topk;
pub mod search;
pub mod coincidence;
pub mod factors;
