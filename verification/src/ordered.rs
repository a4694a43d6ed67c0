//! Sets and maps of numbers, kept in ascending order.

use std::collections::{BTreeMap, BTreeSet};
use vstd::prelude::*;
use vstd::std_specs::btree::{group_btree_axioms, increasing_seq};
use vstd::std_specs::cmp::OrdSpec;
use vstd::std_specs::iter::IteratorSpec;
use vstd::laws_cmp::{group_laws_cmp, obeys_cmp};
use crate::rows::rising;

verus! {

/// Put a number into the set.
pub fn put(nums: &mut BTreeSet<u32>, n: u32)
    ensures
        final(nums)@ == old(nums)@.insert(n),
{
    broadcast use group_btree_axioms, group_laws_cmp;

    nums.insert(n);
}

/// Note the place that goes with a number.
pub fn note(places: &mut BTreeMap<u32, usize>, n: u32, place: usize)
    ensures
        final(places)@ == old(places)@.insert(n, place),
{
    broadcast use group_btree_axioms, group_laws_cmp;

    places.insert(n, place);
}

/// The place that goes with a number, if one was noted.
pub fn noted(places: &BTreeMap<u32, usize>, n: u32) -> (r: Option<usize>)
    ensures
        r == if places@.contains_key(n) {
            Some(places@[n])
        } else {
            None
        },
{
    broadcast use group_btree_axioms, group_laws_cmp;

    match places.get(&n) {
        Some(place) => Some(*place),
        None => None,
    }
}

/// The numbers of the set in ascending order, each once.
pub fn ascending(nums: &BTreeSet<u32>) -> (r: Vec<u32>)
    ensures
        rising(r@),
        forall|n: u32| #[trigger] r@.contains(n) <==> nums@.contains(n),
{
    broadcast use group_btree_axioms, group_laws_cmp;

    let mut r: Vec<u32> = Vec::new();
    let ghost row = nums.iter().remaining();
    for x in it: nums.iter()
        invariant
            it.seq() == row,
            r@.len() == it.index(),
            forall|i: int| 0 <= i < r@.len() ==> r@[i] == *row[i],
    {
        r.push(*x);
    }
    proof {
        assert(r@ =~= row.unref());
        assert(row.unref().to_set() == nums@);
        assert(obeys_cmp::<&u32>());
        assert(increasing_seq(row));
        assert forall|i: int, j: int| 0 <= i < j < r@.len() implies r@[i] < r@[j] by {
            assert(OrdSpec::cmp_spec(&row[i], &row[j]) is Less);
        }
    }
    r
}

} // verus!
