//! A string-keyed hash table built from a fixed number of independently
//! growable buckets, together with small element-wise vector helpers.

pub mod hashtable;
pub mod loops;
pub mod simd;
