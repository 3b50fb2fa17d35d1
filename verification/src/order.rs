//! Ascending sequences of entity numbers.

use vstd::prelude::*;
use vstd::std_specs::btree::{axiom_increasing_seq_meaning, increasing_seq};
use vstd::std_specs::cmp::OrdSpec;

verus! {

/// Whether `s` ascends strictly.
pub open spec fn ascending(s: Seq<u32>) -> bool {
    forall|i: int, j: int| 0 <= i < j < s.len() ==> s[i] < s[j]
}

/// The keys that a `BTreeMap` hands out in its own order ascend as numbers.
pub proof fn lemma_increasing_is_ascending(keys: Seq<u32>)
    requires
        increasing_seq(keys),
    ensures
        ascending(keys),
{
    axiom_increasing_seq_meaning::<u32>(keys);
    assert forall|i: int, j: int| 0 <= i < j < keys.len() implies keys[i] < keys[j] by {
        assert(keys[i].cmp_spec(&keys[j]) is Less);
    }
}

} // verus!
