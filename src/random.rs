//! Sources of randomness. Every random choice the simulation makes goes
//! through the items of this module, each of which makes one call into `rand`.
use vstd::prelude::*;
use rand::distributions::Distribution;
use rand::seq::SliceRandom;
use rand::Rng;

verus! {

/// The thread-local generator of `rand`; opaque to the library.
#[verifier::external_type_specification]
#[verifier::external_body]
pub struct ExThreadRng(rand::rngs::ThreadRng);

/// A categorical distribution over indices, drawn by weights. It holds a
/// `rand` weighted index, which Verus cannot see into.
#[verifier::external_body]
pub struct Sampler {
    dist: rand::distributions::WeightedIndex<usize>,
}

/// The weights that a sampler draws by.
pub uninterp spec fn weights_of(d: Sampler) -> Seq<usize>;

/// Sum of a sequence of weights.
pub open spec fn weight_sum(w: Seq<usize>) -> nat
    decreases w.len(),
{
    if w.len() == 0 {
        0
    } else {
        weight_sum(w.drop_last()) + w.last() as nat
    }
}

/// The weights after replacing the weight at each listed index.
pub open spec fn apply_updates(w: Seq<usize>, updates: Seq<(usize, usize)>) -> Seq<usize>
    decreases updates.len(),
{
    if updates.len() == 0 {
        w
    } else {
        let last = updates.last();
        apply_updates(w, updates.drop_last()).update(last.0 as int, last.1)
    }
}

/// Relies on `rand::thread_rng`: hands out the thread-local generator.
pub assume_specification[ rand::thread_rng ]() -> rand::rngs::ThreadRng;

/// Relies on `Rng::gen_range` over an inclusive range: a value between the
/// bounds, both included; it panics on an empty range.
#[verifier::external_body]
pub(crate) fn random_in_range(rng: &mut rand::rngs::ThreadRng, lo: usize, hi: usize) -> (r: usize)
    requires
        lo <= hi,
    ensures
        lo <= r <= hi,
{
    rng.gen_range(lo..=hi)
}

/// Relies on `SliceRandom::choose`: `None` on an empty slice, else one of
/// its elements.
#[verifier::external_body]
pub(crate) fn choose_one<T: Copy>(rng: &mut rand::rngs::ThreadRng, v: &Vec<T>) -> (r: Option<T>)
    ensures
        r.is_none() <==> v@.len() == 0,
        r matches Some(x) ==> v@.contains(x),
{
    v.as_slice().choose(rng).copied()
}

/// Relies on `SliceRandom::choose_multiple`: `min(amount, len)` elements of
/// the slice, drawn without replacement (at distinct indices, so distinct
/// elements when the slice holds no element twice).
#[verifier::external_body]
pub(crate) fn choose_several<T: Copy>(
    rng: &mut rand::rngs::ThreadRng,
    v: &Vec<T>,
    amount: usize,
) -> (r: Vec<T>)
    ensures
        r@.len() == if amount < v@.len() { amount as int } else { v@.len() as int },
        forall|i: int| 0 <= i < r@.len() ==> v@.contains(#[trigger] r@[i]),
        v@.no_duplicates() ==> r@.no_duplicates(),
{
    v.as_slice().choose_multiple(rng, amount).copied().collect()
}

/// Relies on `WeightedIndex::new`: it fails exactly when there is no weight
/// or all weights are zero (a `usize` weight is never negative); the total
/// is accumulated in `usize`.
#[verifier::external_body]
pub(crate) fn weighted_new(weights: &Vec<usize>) -> (r: Option<Sampler>)
    requires
        weight_sum(weights@) <= usize::MAX,
    ensures
        r.is_some() <==> (weights@.len() > 0 && weight_sum(weights@) > 0),
        r matches Some(d) ==> weights_of(d) == weights@,
{
    rand::distributions::WeightedIndex::new(weights.iter()).ok().map(|dist| Sampler { dist })
}

/// Relies on `WeightedIndex::update_weights`: with strictly increasing
/// indices that are in range it fails only when the new weights are all
/// zero, and then leaves the distribution as it was.
#[verifier::external_body]
pub(crate) fn weighted_update(
    d: &mut Sampler,
    updates: &Vec<(usize, usize)>,
) -> (r: bool)
    requires
        forall|i: int, j: int|
            0 <= i < j < updates@.len() ==> updates@[i].0 < updates@[j].0,
        forall|i: int| 0 <= i < updates@.len() ==> (#[trigger] updates@[i]).0 < weights_of(*old(d)).len(),
        weight_sum(weights_of(*old(d))) + weight_sum(updates@.map_values(|u: (usize, usize)| u.1)) <= usize::MAX,
    ensures
        r <==> weight_sum(apply_updates(weights_of(*old(d)), updates@)) > 0,
        r ==> weights_of(*final(d)) == apply_updates(weights_of(*old(d)), updates@),
        !r ==> *final(d) == *old(d),
{
    let pairs: Vec<(usize, &usize)> = updates.iter().map(|(i, w)| (*i, w)).collect();
    d.dist.update_weights(&pairs).is_ok()
}

/// Relies on `Distribution::sample` for `WeightedIndex`: the index of a
/// weight that is not zero.
#[verifier::external_body]
pub(crate) fn weighted_sample(
    d: &Sampler,
    rng: &mut rand::rngs::ThreadRng,
) -> (r: usize)
    ensures
        r < weights_of(*d).len(),
        weights_of(*d)[r as int] > 0,
{
    d.dist.sample(rng)
}

} // verus!
