//! Pairwise distinctness of a list of values.

use vstd::prelude::*;
use itertools::Itertools;

verus! {

/// `Itertools::all_unique` on the values of a vector: whether no value occurs twice.
/// An empty vector has only unique values.
#[verifier::external_body]
pub(crate) fn all_unique(values: &Vec<u64>) -> (unique: bool)
    ensures
        unique == values@.no_duplicates(),
{
    values.iter().all_unique()
}

} // verus!
