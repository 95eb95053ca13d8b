//! Random choices, drawn from the thread-local generator of the `rand` crate.
//!
//! The verifier does not look into `rand`. Each function here makes one call
//! into it, and its contract, taken on trust from the source of `rand`, says
//! only what holds of every outcome.

use crate::fbas::NodeId;
use rand::distributions::WeightedError;
use rand::seq::SliceRandom;
use rand::{thread_rng, Rng};
use vstd::prelude::*;

verus! {

/// `rand::distributions::WeightedError`, opaque to the verifier.
#[verifier::external_type_specification]
#[verifier::external_body]
pub struct ExWeightedError(WeightedError);

/// The sum of the numbers of links of the nodes `targets`.
pub open spec fn weight_sum(targets: Seq<NodeId>, outlinks: Seq<Vec<NodeId>>) -> nat
    decreases targets.len(),
{
    if targets.len() == 0 {
        0
    } else {
        weight_sum(targets.drop_last(), outlinks) + outlinks[targets.last() as int]@.len()
    }
}

/// Whether `sample` holds entries of `items` taken from positions that are
/// all different.
pub open spec fn is_sample_of(sample: Seq<NodeId>, items: Seq<NodeId>) -> bool {
    exists|at: Seq<int>|
        #![trigger at.len()]
        {
            &&& at.len() == sample.len()
            &&& at.no_duplicates()
            &&& forall|i: int|
                0 <= i < at.len() ==> 0 <= #[trigger] at[i] < items.len() && sample[i] == items[at[i]]
        }
}

/// The number of links of `node`.
pub(crate) fn degree_in(outlinks: &Vec<Vec<NodeId>>, node: NodeId) -> (r: usize)
    requires
        node < outlinks@.len(),
    ensures
        r == outlinks@[node as int]@.len(),
{
    outlinks[node].len()
}

/// `SliceRandom::choose_weighted` on `targets`, the weight of a node being
/// the number of its links: one of the targets that has a link, or an error
/// if there is no such target. The weights are summed up in a `usize`.
#[verifier::external_body]
pub(crate) fn choose_weighted_by_degree(
    targets: &Vec<NodeId>,
    outlinks: &Vec<Vec<NodeId>>,
) -> (r: Result<NodeId, WeightedError>)
    requires
        forall|k: int| 0 <= k < targets@.len() ==> #[trigger] targets@[k] < outlinks@.len(),
        weight_sum(targets@, outlinks@) <= usize::MAX,
    ensures
        match r {
            Ok(node) => targets@.contains(node) && outlinks@[node as int]@.len() > 0,
            Err(_) => forall|k: int|
                0 <= k < targets@.len() ==> outlinks@[#[trigger] targets@[k] as int]@.len() == 0,
        },
{
    targets.choose_weighted(&mut thread_rng(), |&x| degree_in(outlinks, x)).copied()
}

/// `SliceRandom::choose` on `items`: one of them, or nothing if there is
/// none.
#[verifier::external_body]
pub(crate) fn choose_one(items: &Vec<NodeId>) -> (r: Option<NodeId>)
    ensures
        match r {
            Some(node) => items@.contains(node),
            None => items@.len() == 0,
        },
{
    items.choose(&mut thread_rng()).copied()
}

/// `SliceRandom::choose_multiple` on `items`: `amount` of them, or all if
/// there are fewer, from positions that are all different, in any order.
#[verifier::external_body]
pub(crate) fn choose_multiple(items: &Vec<NodeId>, amount: usize) -> (r: Vec<NodeId>)
    ensures
        r@.len() == if amount <= items@.len() {
            amount as nat
        } else {
            items@.len()
        },
        is_sample_of(r@, items@),
{
    items.choose_multiple(&mut thread_rng(), amount).copied().collect()
}

/// `SliceRandom::shuffle` on `items`: the same entries in some order.
#[verifier::external_body]
pub(crate) fn shuffle(items: &mut Vec<NodeId>)
    ensures
        final(items)@.to_multiset() == old(items)@.to_multiset(),
{
    items.shuffle(&mut thread_rng())
}

/// `Rng::gen_ratio`: a coin that comes up `true` with a chance of
/// `numerator` in `denominator`; always if the two are equal, never if
/// `numerator` is zero.
#[verifier::external_body]
pub(crate) fn flip(numerator: u32, denominator: u32) -> (r: bool)
    requires
        0 < denominator,
        numerator <= denominator,
    ensures
        numerator == denominator ==> r,
        numerator == 0 ==> !r,
{
    thread_rng().gen_ratio(numerator, denominator)
}

} // verus!
