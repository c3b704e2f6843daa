//! Orders and pairings of numbers, as two outside crates make them.

use itertools::Itertools;
use rand::seq::SliceRandom;
use vstd::prelude::*;

verus! {

/// Every pair of an item of `a` and an item of `b`: the pairs with the first
/// item of `a` come first, each run in the order of `b`.
pub open spec fn product_of<A, B>(a: Seq<A>, b: Seq<B>) -> Seq<(A, B)> {
    Seq::new(a.len() * b.len(), |k: int| (a[k / b.len() as int], b[k % b.len() as int]))
}

/// The numbers below `side` in increasing order.
pub open spec fn numbers_below(side: nat) -> Seq<u32> {
    Seq::new(side, |i: int| i as u32)
}

/// `Itertools::cartesian_product` on the items of two vectors, collected.
/// The contract says what the iterator of the crate yields: for every item
/// of the first vector in turn, its pair with every item of the second in
/// turn. Not proved here.
#[verifier::external_body]
pub(crate) fn cartesian_product<A: Copy, B: Copy>(a: &Vec<A>, b: &Vec<B>) -> (pairs: Vec<(A, B)>)
    requires
        a@.len() * b@.len() <= usize::MAX,
    ensures
        pairs@ == product_of(a@, b@),
{
    a.iter().copied().cartesian_product(b.iter().copied()).collect()
}

/// `SliceRandom::shuffle` with the generator of the thread, `thread_rng`.
/// The crate swaps items of the slice, so whatever the outcome the vector
/// holds the same items as often as before; which order comes out is left
/// open. Not proved here. The generator of the thread panics where the
/// system cannot seed it, which no condition on the vector can rule out.
#[verifier::external_body]
pub(crate) fn shuffle(values: &mut Vec<u32>)
    ensures
        final(values)@.to_multiset() == old(values)@.to_multiset(),
{
    values.shuffle(&mut rand::thread_rng());
}

/// The numbers below `side` in increasing order.
pub fn range(side: u32) -> (numbers: Vec<u32>)
    ensures
        numbers@ == numbers_below(side as nat),
{
    let mut numbers: Vec<u32> = Vec::new();
    let mut i: u32 = 0;
    while i < side
        invariant
            i <= side,
            numbers@ == numbers_below(i as nat),
        decreases side - i,
    {
        numbers.push(i);
        proof {
            assert(numbers@ =~= numbers_below((i + 1) as nat));
        }
        i += 1;
    }
    numbers
}

/// The numbers below `side` in an order that chance decides.
pub fn shuffled(side: u32) -> (numbers: Vec<u32>)
    ensures
        is_order(numbers@, side as nat),
{
    let mut numbers = range(side);
    shuffle(&mut numbers);
    numbers
}

/// `order` holds every number below `side` once and nothing else.
pub open spec fn is_order(order: Seq<u32>, side: nat) -> bool {
    order.to_multiset() == numbers_below(side).to_multiset()
}

/// What an order of the numbers below `side` is, item by item.
pub proof fn lemma_order(order: Seq<u32>, side: nat)
    requires
        is_order(order, side),
        side <= u32::MAX,
    ensures
        order.len() == side,
        order.no_duplicates(),
        forall|v: u32| order.contains(v) <==> v < side,
{
    let plain = numbers_below(side);
    order.to_multiset_ensures();
    plain.to_multiset_ensures();
    assert(plain.no_duplicates()) by {
        assert forall|i: int, j: int| 0 <= i < j < plain.len() implies plain[i] != plain[j] by {
            assert(plain[i] == i && plain[j] == j);
        }
    }
    plain.lemma_multiset_has_no_duplicates();
    order.lemma_multiset_has_no_duplicates_conv();
    assert forall|v: u32| order.contains(v) <==> v < side by {
        assert(order.contains(v) <==> order.to_multiset().count(v) > 0);
        assert(plain.contains(v) <==> plain.to_multiset().count(v) > 0);
        if v < side {
            assert(plain[v as int] == v);
            assert(plain.contains(v));
        }
        if plain.contains(v) {
            let i = choose|i: int| 0 <= i < plain.len() && plain[i] == v;
            assert(v == i);
        }
    }
}

} // verus!
