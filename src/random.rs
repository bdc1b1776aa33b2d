//! The pseudo-random stream that topology building and message routing draw
//! from, and the draws made on it.
use crate::world::Entity;
use rand::seq::{IteratorRandom, SliceRandom};
use rand::{Rng, SeedableRng};
use vstd::prelude::*;

verus! {

#[verifier::external_type_specification]
#[verifier::external_body]
pub struct ExStdRng(rand::rngs::StdRng);

/// Relies on rand's `SeedableRng::seed_from_u64` for `StdRng`: a generator
/// whose stream depends on `seed` alone.
#[verifier::external_body]
pub(crate) fn seeded_rng(seed: u64) -> rand::rngs::StdRng {
    rand::rngs::StdRng::seed_from_u64(seed)
}

/// Relies on rand's `Rng::gen_range` over `usize`: a value of the half-open
/// range `lo..hi`, which must not be empty.
#[verifier::external_body]
pub(crate) fn draw_in_range(rng: &mut rand::rngs::StdRng, lo: usize, hi: usize) -> (r: usize)
    requires
        lo < hi,
    ensures
        lo <= r < hi,
{
    rng.gen_range(lo..hi)
}

/// Relies on rand's `IteratorRandom::choose`: `None` if and only if there is
/// nothing to choose from, else one of the items.
#[verifier::external_body]
pub(crate) fn choose_one(rng: &mut rand::rngs::StdRng, items: &Vec<Entity>) -> (r: Option<Entity>)
    ensures
        r is None <==> items@.len() == 0,
        r matches Some(x) ==> items@.contains(x),
{
    items.iter().choose(rng).copied()
}

/// Relies on rand's `SliceRandom::choose_multiple`: `min(amount, len)` items
/// taken from distinct positions of the slice.
#[verifier::external_body]
pub(crate) fn choose_several(
    rng: &mut rand::rngs::StdRng,
    items: &Vec<Entity>,
    amount: usize,
) -> (r: Vec<Entity>)
    ensures
        r@.len() == if amount <= items@.len() { amount as int } else { items@.len() as int },
        forall|i: int| 0 <= i < r@.len() ==> items@.contains(#[trigger] r@[i]),
        items@.no_duplicates() ==> r@.no_duplicates(),
{
    items.choose_multiple(rng, amount).copied().collect()
}

} // verus!
