//! Seeding of the replicas that train parts of an epoch: from its own seed, every replica
//! derives the same four kinds of streams as a new machine does.
use crate::models::config::{clause_seed, literal_seed, stream_rng, LITERAL_XOR};
use crate::rng::{rng_next, Rng};
use vstd::prelude::*;

verus! {

/// The sample stream of a replica.
pub fn replica_rng(sd: u64) -> (r: Rng)
    ensures
        r@ == rng_next(sd),
{
    Rng::new(sd)
}

/// The stream of active literals of a replica.
pub fn literal_rng(sd: u64) -> (r: Rng)
    ensures
        r@ == literal_seed(sd),
{
    Rng::new(sd ^ LITERAL_XOR)
}

/// The stream of clause `i` of a replica.
pub fn clause_rng(sd: u64, i: usize) -> (r: Rng)
    requires
        i < usize::MAX,
    ensures
        r@ == clause_seed(sd, i as int),
{
    stream_rng(sd, i as u64)
}

/// The stream of class `c` of a replica with `n_clauses` clauses in all.
pub fn class_rng(sd: u64, c: usize, n_clauses: usize) -> (r: Rng)
    requires
        c + n_clauses < usize::MAX,
    ensures
        r@ == clause_seed(sd, c + n_clauses),
{
    stream_rng(sd, c as u64 + n_clauses as u64)
}

} // verus!
