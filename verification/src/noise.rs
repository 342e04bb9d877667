//! The random split behind the noise estimate of a column.
//!
//! The estimate compares the variances of two halves of a column's numbers,
//! drawn at random. This module draws the halves, as positions in the list of
//! the column's numbers; the arithmetic on the numbers is the caller's. Two
//! calls on the same input may give different halves.

use rand::seq::SliceRandom;
use vstd::prelude::*;

verus! {

#[verifier::external_type_specification]
#[verifier::external_body]
pub struct ExThreadRng(rand::rngs::ThreadRng);

/// `rand::thread_rng` hands out the generator of the current thread. Nothing
/// is claimed of it.
pub assume_specification[ rand::thread_rng ]() -> (rng: rand::rngs::ThreadRng);

/// Calls `rand::seq::SliceRandom::shuffle` on the items of `order`. The
/// shuffle only swaps items, so `order` holds after the call what it held
/// before it, each item as often; nothing is claimed of the new order.
#[verifier::external_body]
fn shuffle(order: &mut Vec<usize>, rng: &mut rand::rngs::ThreadRng)
    ensures
        final(order)@.to_multiset() == old(order)@.to_multiset(),
{
    order.shuffle(rng);
}

/// The least number of values for which noise is estimated.
pub const MIN_NOISE_SAMPLE: usize = 10;

/// The positions `0` to `n - 1`, in order.
pub open spec fn positions(n: nat) -> Seq<usize> {
    Seq::new(n, |i: int| i as usize)
}

/// The positions `0` to `count - 1`, in order.
pub fn all_positions(count: usize) -> (out: Vec<usize>)
    ensures
        out@ == positions(count as nat),
{
    let mut out: Vec<usize> = Vec::new();
    let mut i: usize = 0;
    while i < count
        invariant
            i <= count,
            out@ == positions(i as nat),
        decreases count - i,
    {
        out.push(i);
        assert(out@ =~= positions((i + 1) as nat));
        i += 1;
    }
    out
}

/// Cuts a list in two at the middle: the first half holds the first
/// `len / 2` items, the second half the rest.
pub fn split_halves(order: Vec<usize>) -> (halves: (Vec<usize>, Vec<usize>))
    ensures
        halves.0@ == order@.take(order.len() as int / 2),
        halves.1@ == order@.skip(order.len() as int / 2),
{
    let mut first = order;
    let mid = first.len() / 2;
    let second = first.split_off(mid);
    (first, second)
}

/// Draws the two halves for a noise estimate over `count` values: the
/// positions `0` to `count - 1` in a random order, cut in two at the middle.
/// With fewer than ten values there is no estimate, and no split.
pub fn noise_split(count: usize) -> (out: Option<(Vec<usize>, Vec<usize>)>)
    ensures
        out is Some <==> count >= MIN_NOISE_SAMPLE,
        out matches Some((first, second)) ==> {
            &&& first.len() == count / 2
            &&& second.len() == count - count / 2
            &&& (first@ + second@).to_multiset() == positions(count as nat).to_multiset()
            &&& forall|k: int| 0 <= k < first.len() ==> (#[trigger] first[k]) < count
            &&& forall|k: int| 0 <= k < second.len() ==> (#[trigger] second[k]) < count
        },
{
    if count < MIN_NOISE_SAMPLE {
        return None;
    }
    let mut order = all_positions(count);
    let mut rng = rand::thread_rng();
    shuffle(&mut order, &mut rng);
    let ghost shuffled = order@;
    proof {
        shuffled.to_multiset_ensures();
        positions(count as nat).to_multiset_ensures();
        assert forall|k: int| 0 <= k < shuffled.len() implies (#[trigger] shuffled[k]) < count by {
            assert(shuffled.contains(shuffled[k]));
            assert(positions(count as nat).to_multiset().count(shuffled[k]) > 0);
            assert(positions(count as nat).contains(shuffled[k]));
        }
    }
    let (first, second) = split_halves(order);
    assert(first@ + second@ =~= shuffled);
    Some((first, second))
}

} // verus!
