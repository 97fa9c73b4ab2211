//! Random numbers drawn from the thread-local generator.
use rand::Rng;
use vstd::prelude::*;

verus! {

/// Draws a number in `0..bound` with `rand::Rng::gen_range` on `rand::thread_rng()`.
/// Only the range of the outcome is stated: its value rests on chance. `gen_range` panics on an
/// empty range, hence `bound > 0`; `thread_rng` panics only when the operating system's
/// generator cannot seed it.
#[verifier::external_body]
pub(crate) fn random_below(bound: usize) -> (r: usize)
    requires
        bound > 0,
    ensures
        r < bound,
{
    rand::thread_rng().gen_range(0..bound)
}

/// `pair_count` pairs of coordinates, each drawn at random from `0..size`.
pub fn random_x_y_pairs(size: usize, pair_count: usize) -> (pairs: Vec<(usize, usize)>)
    requires
        size > 0,
    ensures
        pairs@.len() == pair_count,
        forall|i: int| 0 <= i < pair_count ==> #[trigger] pairs@[i].0 < size && pairs@[i].1 < size,
{
    let mut pairs: Vec<(usize, usize)> = Vec::with_capacity(pair_count);
    for _i in 0..pair_count
        invariant
            size > 0,
            pairs@.len() == _i,
            forall|i: int| 0 <= i < pairs@.len() ==> #[trigger] pairs@[i].0 < size && pairs@[i].1 < size,
    {
        let x = random_below(size);
        let y = random_below(size);
        pairs.push((x, y));
    }
    pairs
}

} // verus!
