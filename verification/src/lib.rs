//! A verified genetic-algorithm engine for the Colonel Blotto game: candidate
//! strategies allocate a fixed pool of soldiers across scored castles and
//! evolve over generations through selection, crossover and mutation.

pub mod ga;
pub mod individual;
mod rng;
pub mod sampler;
pub mod selection;
pub mod sums;
pub mod tournament;
pub mod util;
pub mod variation;
