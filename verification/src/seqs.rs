//! Sequence facts shared by the sorting and grouping routines.
use vstd::prelude::*;

verus! {

/// Swapping two positions of a sequence keeps its multiset of elements.
pub proof fn lemma_seq_swap_multiset<A>(s: Seq<A>, i: int, j: int)
    requires
        0 <= i < s.len(),
        0 <= j < s.len(),
    ensures
        s.update(i, s[j]).update(j, s[i]).to_multiset() == s.to_multiset(),
{
    broadcast use vstd::seq_lib::group_to_multiset_ensures;
    broadcast use vstd::multiset::group_multiset_axioms;

    if i == j {
        assert(s.update(i, s[j]).update(j, s[i]) =~= s);
    } else {
        let s1 = s.update(i, s[j]);
        assert(s1[j] == s[j]);
        let m0 = s.to_multiset();
        let m1 = s1.to_multiset();
        assert(m1 == m0.insert(s[j]).remove(s[i]));
        let m2 = s1.update(j, s[i]).to_multiset();
        assert(m2 == m1.insert(s[i]).remove(s[j]));
        assert(m0.count(s[i]) > 0);
        assert(m2 =~= m0);
    }
}

} // verus!
