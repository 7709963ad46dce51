//! The process-wide random source behind identifier generation.

use vstd::prelude::*;

verus! {

/// Relies on rand::random, the thread-local generator, for identifier
/// material. The value drawn is random: nothing is assumed about it.
pub assume_specification<T>[ rand::random::<T> ]() -> (r: T)
    where
        rand::distributions::Standard: rand::distributions::Distribution<T>,
;

} // verus!
