use std::cmp::Ordering;
use std::collections::BTreeSet;
use vstd::laws_cmp::obeys_cmp;
use vstd::prelude::*;
use vstd::std_specs::btree::{axiom_increasing_seq_meaning, increasing_seq};
use vstd::std_specs::cmp::OrdSpec;
use vstd::std_specs::iter::IteratorSpec;

verus! {

/// Whether the key `a` comes before the key `b`: by the first part, then by
/// the second.
pub open spec fn key_precedes(a: (u8, u64), b: (u8, u64)) -> bool {
    a.0 < b.0 || (a.0 == b.0 && a.1 < b.1)
}

/// An ordered set hands out its keys the first in order first.
pub proof fn lemma_keys_ascend(keys: &BTreeSet<(u8, u64)>)
    ensures
        forall|i: int, j: int|
            0 <= i < j < keys.iter().remaining().len() ==> key_precedes(
                #[trigger] keys.iter().remaining().unref()[i],
                #[trigger] keys.iter().remaining().unref()[j],
            ),
{
    broadcast use vstd::laws_cmp::group_laws_cmp;

    let listed = keys.iter().remaining();
    assert(increasing_seq(listed));
    assert(obeys_cmp::<u8>());
    assert(obeys_cmp::<u64>());
    assert(obeys_cmp::<(u8, u64)>());
    assert(obeys_cmp::<&(u8, u64)>());
    axiom_increasing_seq_meaning(listed);
    assert forall|i: int, j: int| 0 <= i < j < listed.len() implies key_precedes(
        #[trigger] listed.unref()[i],
        #[trigger] listed.unref()[j],
    ) by {
        assert(OrdSpec::cmp_spec(&listed[i], &listed[j]) == Ordering::Less);
    }
}

} // verus!
