//! Random partitioning of the image list into training and validation sets.
//!
//! The list is shuffled by a caller-supplied seedable generator, then cut at
//! `floor(len * ratio)`. A ratio outside `[0, 1]` is not rejected; the cut
//! index is clamped to the list length.

use vstd::prelude::*;
use vstd::seq_lib::lemma_multiset_commutative;
use crate::model::{ImageView, UnifiedImage};

verus! {

#[verifier::external_type_specification]
#[verifier::external_body]
pub struct ExStdRng(rand::rngs::StdRng);

/// Relies on rand's `StdRng::seed_from_u64`: builds a generator from a seed,
/// so that one seed reproduces one shuffle order within a build.
#[verifier::external_body]
pub fn rng_from_seed(seed: u64) -> rand::rngs::StdRng {
    <rand::rngs::StdRng as rand::SeedableRng>::seed_from_u64(seed)
}

/// Relies on rand's `SliceRandom::shuffle`: a Fisher–Yates pass of in-place
/// swaps, so the slice afterwards holds the same elements rearranged.
#[verifier::external_body]
fn shuffle_images(v: &mut Vec<UnifiedImage>, rng: &mut rand::rngs::StdRng)
    ensures
        final(v)@.len() == old(v)@.len(),
        final(v)@.map_values(|im: UnifiedImage| im@).to_multiset() == old(v)@.map_values(
            |im: UnifiedImage| im@,
        ).to_multiset(),
{
    rand::seq::SliceRandom::shuffle(v.as_mut_slice(), rng);
}

/// How many images go to training: `floor(len * ratio)`, the ratio given in
/// micro units, clamped to the list length.
pub open spec fn spec_train_count(n: nat, train_ratio_micro: u64) -> nat {
    let k = (n * train_ratio_micro) / 1_000_000;
    if k > n {
        n
    } else {
        k as nat
    }
}

/// Law: splitting partitions the images — training takes exactly
/// `floor(len * ratio)` of them, the two parts cover the whole list, and
/// every image lands in exactly one part, counted with multiplicity.
pub fn split_images(images: Vec<UnifiedImage>, train_ratio_micro: u64, rng: &mut rand::rngs::StdRng)
    -> (r: (Vec<UnifiedImage>, Vec<UnifiedImage>))
    ensures
        r.0@.len() == spec_train_count(images@.len() as nat, train_ratio_micro),
        r.0@.len() + r.1@.len() == images@.len(),
        r.0@.map_values(|im: UnifiedImage| im@).to_multiset().add(
            r.1@.map_values(|im: UnifiedImage| im@).to_multiset(),
        ) == images@.map_values(|im: UnifiedImage| im@).to_multiset(),
{
    let ghost orig = images@.map_values(|im: UnifiedImage| im@);
    let mut v = images;
    shuffle_images(&mut v, rng);
    let n = v.len();
    proof {
        assert((n as int) * (train_ratio_micro as int) <= (u64::MAX as int) * (u64::MAX as int))
            by (nonlinear_arith)
            requires
                0 <= n as int <= u64::MAX as int,
                0 <= train_ratio_micro as int <= u64::MAX as int,
        ;
    }
    let prod: u128 = (n as u128) * (train_ratio_micro as u128);
    let k128: u128 = prod / 1_000_000u128;
    let k: usize = if k128 > (n as u128) {
        n
    } else {
        k128 as usize
    };
    let ghost shuffled = v@.map_values(|im: UnifiedImage| im@);
    let val = v.split_off(k);
    proof {
        assert(v@ + val@ =~= v@ + val@);
        let f = |im: UnifiedImage| im@;
        assert((v@ + val@).map_values(f) =~= shuffled);
        lemma_multiset_commutative(v@.map_values(f), val@.map_values(f));
        assert(v@.map_values(f) + val@.map_values(f) =~= (v@ + val@).map_values(f));
    }
    (v, val)
}

/// Law: under a partition, the counts of any image in the two parts sum to
/// its count in the whole, so none is lost or duplicated.
pub proof fn lemma_partition_counts(
    train: Seq<ImageView>,
    val: Seq<ImageView>,
    all: Seq<ImageView>,
    x: ImageView,
)
    requires
        train.to_multiset().add(val.to_multiset()) == all.to_multiset(),
    ensures
        train.to_multiset().count(x) + val.to_multiset().count(x) == all.to_multiset().count(x),
{
    broadcast use vstd::multiset::group_multiset_axioms;

}

} // verus!
