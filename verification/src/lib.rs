//! Exact maximum-clique computation for complements of generalised Johnson
//! graphs: a bitset-backed graph representation, a builder for the
//! J_{+/-}(n, k, t) construction, and an exact branch-and-bound solver with
//! suffix-bound memoisation.

pub mod bitset;
pub mod graphs;
pub mod laws;
pub mod ostergard;
