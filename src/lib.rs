//! A keyed permutation of `[0, range)` for any `range`: a Feistel network over
//! the smallest enclosing power of two, folded onto the requested domain by
//! cycle walking. The permutation is computed one index at a time, with no
//! table of the domain held in memory.

pub mod bits;
pub mod mixing;
pub mod model;
pub mod walk;
mod rng;

pub use model::{PerfectRngView, params_for};
pub use rng::{PerfectRng, PerfectRngError, DEFAULT_ROUNDS};
