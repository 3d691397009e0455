//! Hash-based Owen scrambling of Sobol' points: the generator, the scramblers,
//! the scrambling-hash family, and the statistics used to judge a hash.

pub mod bits;
pub mod hash_gen;
pub mod image;
mod rng;
pub mod search;
pub mod sobol;
pub mod stats;
