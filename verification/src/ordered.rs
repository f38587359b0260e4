use std::collections::BTreeSet;
use vstd::laws_cmp::obeys_cmp;
use vstd::prelude::*;
use vstd::std_specs::btree::{increasing_seq, spec_btree_keys_iter};
use vstd::std_specs::cmp::OrdSpec;
use vstd::std_specs::iter::IteratorSpec;

verus! {

proof fn lemma_increasing_pair<K: Ord>(s: Seq<K>, i: int, j: int)
    requires
        increasing_seq(s),
        obeys_cmp::<K>(),
        0 <= i < j < s.len(),
    ensures
        s[i].cmp_spec(&s[j]) is Less,
{
}

proof fn lemma_increasing_indices(s: Seq<&usize>)
    requires
        increasing_seq(s),
    ensures
        forall|i: int, j: int| 0 <= i < j < s.len() ==> *s[i] < *s[j],
{
    assert(obeys_cmp::<usize>());
    assert(obeys_cmp::<&usize>());
    assert forall|i: int, j: int| 0 <= i < j < s.len() implies *s[i] < *s[j] by {
        lemma_increasing_pair(s, i, j);
    }
}

/// Whether a sequence is strictly increasing.
pub open spec fn strictly_increasing(v: Seq<usize>) -> bool {
    forall|i: int, j: int| 0 <= i < j < v.len() ==> v[i] < v[j]
}

/// The members of a set of indices, in increasing order.
pub fn sorted_indices(s: &BTreeSet<usize>) -> (v: Vec<usize>)
    ensures
        v@.to_set() == s@,
        strictly_increasing(v@),
{
    let mut v: Vec<usize> = Vec::new();
    proof {
        lemma_increasing_indices(spec_btree_keys_iter(s).remaining());
    }
    for t in it: s.iter()
        invariant
            it.seq() == spec_btree_keys_iter(s).remaining(),
            v@ == it.seq().take(it.index() as int).unref(),
    {
        v.push(*t);
        proof {
            assert(it.seq().take(it.index() + 1).unref() == it.seq().take(
                it.index() as int,
            ).unref().push(*it.seq()[it.index() as int]));
        }
    }
    proof {
        let all = spec_btree_keys_iter(s).remaining();
        assert(all.take(all.len() as int) == all);
    }
    v
}

} // verus!
