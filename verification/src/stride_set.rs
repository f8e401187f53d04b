//! An ordered set of strides, kept in the standard library's `BTreeSet`.
use vstd::prelude::*;
use std::collections::BTreeSet;
use vstd::std_specs::iter::IteratorSpec;

verus! {

broadcast use {vstd::laws_cmp::group_laws_cmp, vstd::std_specs::btree::group_btree_axioms};

/// Each value is larger than the one before it.
pub open spec fn strictly_increasing(s: Seq<u32>) -> bool {
    forall|i: int, j: int| 0 <= i < j < s.len() ==> s[i] < s[j]
}

/// Adds `x` to the set when `cond` holds.
pub fn insert_if(set: &mut BTreeSet<u32>, cond: bool, x: u32)
    ensures
        final(set)@ == if cond { old(set)@.insert(x) } else { old(set)@ },
{
    if cond {
        set.insert(x);
    }
}

/// The values of the set in increasing order.
pub fn sorted_elements(set: &BTreeSet<u32>) -> (v: Vec<u32>)
    ensures
        strictly_increasing(v@),
        v@.to_set() == set@,
{
    let ghost keys = vstd::std_specs::btree::spec_btree_keys_iter(set).remaining();
    let mut v: Vec<u32> = Vec::new();
    for x in it: set.iter()
        invariant
            it.seq() == keys,
            v@.len() == it.index(),
            forall|i: int| 0 <= i < it.index() ==> v@[i] == *keys[i],
    {
        v.push(*x);
    }
    proof {
        assert(vstd::laws_cmp::obeys_cmp::<u32>());
        assert(vstd::laws_cmp::obeys_cmp::<&u32>());
        assert(vstd::std_specs::btree::increasing_seq(keys));
        assert(v@ =~= keys.unref());
        assert forall|i: int, j: int| 0 <= i < j < v@.len() implies v@[i] < v@[j] by {
            assert(v@[i] == *keys[i] && v@[j] == *keys[j]);
            assert(vstd::std_specs::cmp::OrdSpec::cmp_spec(&keys[i], &keys[j]) is Less);
        }
    }
    v
}

} // verus!
