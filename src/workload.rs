use vstd::prelude::*;

use rand::rngs::StdRng;
use rand::Rng;

use crate::model::ops_in_range;

verus! {

#[verifier::external_type_specification]
#[verifier::external_body]
pub struct ExStdRng(StdRng);

/// Relies on rand's `Rng::gen_range`: on the non-empty range `0..bound` it
/// returns a value of that range. It panics only on an empty range.
#[verifier::external_body]
fn random_index(rng: &mut StdRng, bound: usize) -> (r: usize)
    requires
        bound > 0,
    ensures
        r < bound,
{
    rng.gen_range(0..bound)
}

/// Draws `n_operations` column pairs, each index uniformly from
/// `[0, n_cols)`. The two indices of a pair may be equal.
pub fn random_operations(rng: &mut StdRng, n_cols: usize, n_operations: usize) -> (ops: Vec<
    (usize, usize),
>)
    requires
        n_cols > 0,
    ensures
        ops@.len() == n_operations,
        ops_in_range(ops@, n_cols as int),
{
    let mut ops: Vec<(usize, usize)> = Vec::with_capacity(n_operations);
    let mut j: usize = 0;
    while j < n_operations
        invariant
            0 <= j <= n_operations,
            n_cols > 0,
            ops@.len() == j,
            ops_in_range(ops@, n_cols as int),
        decreases n_operations - j,
    {
        let column_a = random_index(rng, n_cols);
        let column_b = random_index(rng, n_cols);
        ops.push((column_a, column_b));
        j = j + 1;
    }
    ops
}

} // verus!
