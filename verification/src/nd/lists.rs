//! Index lists: sorting, lexicographic order, filtering and counting.
use vstd::prelude::*;
use vstd::relations::{sorted_by, total_ordering};
use crate::nd::handles::{copy_usizes, index_leq, lemma_index_leq_total};

verus! {

/// Lexicographic order of index lists; a proper prefix comes first.
pub open spec fn lex_le(a: Seq<usize>, b: Seq<usize>) -> bool
    decreases a.len(),
{
    if a.len() == 0 {
        true
    } else if b.len() == 0 {
        false
    } else if a[0] != b[0] {
        a[0] < b[0]
    } else {
        lex_le(a.drop_first(), b.drop_first())
    }
}

/// `lex_le` as a relation.
pub open spec fn lex_leq() -> spec_fn(Seq<usize>, Seq<usize>) -> bool {
    |a: Seq<usize>, b: Seq<usize>| lex_le(a, b)
}

pub proof fn lemma_lex_reflexive(a: Seq<usize>)
    ensures
        lex_le(a, a),
    decreases a.len(),
{
    if a.len() > 0 {
        lemma_lex_reflexive(a.drop_first());
    }
}

pub proof fn lemma_lex_antisymmetric(a: Seq<usize>, b: Seq<usize>)
    requires
        lex_le(a, b),
        lex_le(b, a),
    ensures
        a == b,
    decreases a.len(),
{
    if a.len() > 0 {
        lemma_lex_antisymmetric(a.drop_first(), b.drop_first());
        assert(a =~= seq![a[0]] + a.drop_first());
        assert(b =~= seq![b[0]] + b.drop_first());
    } else {
        assert(b.len() == 0);
        assert(a =~= b);
    }
}

pub proof fn lemma_lex_transitive(a: Seq<usize>, b: Seq<usize>, c: Seq<usize>)
    requires
        lex_le(a, b),
        lex_le(b, c),
    ensures
        lex_le(a, c),
    decreases a.len(),
{
    if a.len() > 0 && b.len() > 0 && c.len() > 0 && a[0] == b[0] && b[0] == c[0] {
        lemma_lex_transitive(a.drop_first(), b.drop_first(), c.drop_first());
    }
}

pub proof fn lemma_lex_total(a: Seq<usize>, b: Seq<usize>)
    ensures
        lex_le(a, b) || lex_le(b, a),
    decreases a.len(),
{
    if a.len() > 0 && b.len() > 0 && a[0] == b[0] {
        lemma_lex_total(a.drop_first(), b.drop_first());
    }
}

/// `lex_leq` is a total order.
pub proof fn lemma_lex_leq_total()
    ensures
        total_ordering(lex_leq()),
{
    assert forall|a: Seq<usize>| #[trigger] lex_leq()(a, a) by {
        lemma_lex_reflexive(a);
    }
    assert forall|a: Seq<usize>, b: Seq<usize>| #[trigger] lex_leq()(a, b) && #[trigger] lex_leq()(b, a) implies a == b by {
        lemma_lex_antisymmetric(a, b);
    }
    assert forall|a: Seq<usize>, b: Seq<usize>, c: Seq<usize>| #[trigger] lex_leq()(a, b) && #[trigger] lex_leq()(b, c) implies lex_leq()(a, c) by {
        lemma_lex_transitive(a, b, c);
    }
    assert forall|a: Seq<usize>, b: Seq<usize>| #[trigger] lex_leq()(a, b) || #[trigger] lex_leq()(b, a) by {
        lemma_lex_total(a, b);
    }
}

proof fn lemma_lex_skip(a: Seq<usize>, b: Seq<usize>, i: int)
    requires
        0 <= i <= a.len(),
        i <= b.len(),
        forall|j: int| 0 <= j < i ==> a[j] == b[j],
    ensures
        lex_le(a, b) == lex_le(a.skip(i), b.skip(i)),
    decreases i,
{
    if i > 0 {
        lemma_lex_skip(a.drop_first(), b.drop_first(), i - 1);
        assert(a.drop_first().skip(i - 1) =~= a.skip(i));
        assert(b.drop_first().skip(i - 1) =~= b.skip(i));
    } else {
        assert(a.skip(0) =~= a);
        assert(b.skip(0) =~= b);
    }
}

/// Whether `a` orders at or before `b` lexicographically.
pub fn lex_less_eq(a: &[usize], b: &[usize]) -> (r: bool)
    ensures
        r == lex_le(a@, b@),
{
    let mut i: usize = 0;
    while i < a.len() && i < b.len() && a[i] == b[i]
        invariant
            0 <= i <= a@.len(),
            i <= b@.len(),
            forall|j: int| 0 <= j < i ==> a@[j] == b@[j],
        decreases a.len() - i,
    {
        i = i + 1;
    }
    proof {
        lemma_lex_skip(a@, b@, i as int);
    }
    if i == a.len() {
        true
    } else if i == b.len() {
        false
    } else {
        a[i] < b[i]
    }
}

/// Index lists of a list of vectors.
pub open spec fn list_views(v: Seq<Vec<usize>>) -> Seq<Seq<usize>> {
    v.map_values(|x: Vec<usize>| x@)
}

/// Sort index lists lexicographically (stable insertion sort).
pub fn sort_index_lists(v: &mut Vec<Vec<usize>>)
    ensures
        list_views(final(v)@) == list_views(old(v)@).sort_by(lex_leq()),
{
    let ghost original = list_views(v@);
    let n = v.len();
    proof {
        lemma_lex_leq_total();
    }
    let mut i: usize = 1;
    while i < n
        invariant
            1 <= i || n == 0,
            i <= n || n == 0,
            n == v@.len(),
            list_views(v@).to_multiset() == original.to_multiset(),
            total_ordering(lex_leq()),
            forall|a: int, b: int| 0 <= a < b < i && b < n ==> lex_le(#[trigger] v@[a]@, #[trigger] v@[b]@),
        decreases n - i,
    {
        let mut j = i;
        while j > 0 && !lex_less_eq(v[j - 1].as_slice(), v[j].as_slice())
            invariant
                0 <= j <= i < n,
                n == v@.len(),
                list_views(v@).to_multiset() == original.to_multiset(),
                total_ordering(lex_leq()),
                forall|a: int, b: int| 0 <= a < b <= i && a != j && b != j ==> lex_le(#[trigger] v@[a]@, #[trigger] v@[b]@),
                forall|b: int| j < b <= i ==> lex_le(v@[j as int]@, #[trigger] v@[b]@),
            decreases j,
        {
            let x = copy_usizes(v[j - 1].as_slice());
            let y = copy_usizes(v[j].as_slice());
            let ghost before = list_views(v@);
            proof {
                lemma_lex_total(x@, y@);
            }
            v.set(j - 1, y);
            v.set(j, x);
            proof {
                let after = list_views(v@);
                assert(after =~= before.update(j - 1, before[j as int]).update(j as int, before[j - 1]));
                crate::seqs::lemma_seq_swap_multiset(before, j - 1, j as int);
                assert forall|b: int| j - 1 < b <= i implies lex_le(v@[j - 1]@, #[trigger] v@[b]@) by {
                    if b > j {
                        lemma_lex_transitive(v@[j - 1]@, v@[j as int]@, v@[b]@);
                    }
                }
            }
            j = j - 1;
        }
        proof {
            assert forall|a: int, b: int| 0 <= a < b < i + 1 && b < n implies lex_le(#[trigger] v@[a]@, #[trigger] v@[b]@) by {
                if b == j && a < j {
                    assert(lex_le(v@[j - 1]@, v@[j as int]@));
                    if a < j - 1 {
                        lemma_lex_transitive(v@[a]@, v@[j - 1]@, v@[j as int]@);
                    }
                }
            }
        }
        i = i + 1;
    }
    proof {
        let s = list_views(v@);
        assert forall|a: int, b: int| 0 <= a < b < s.len() implies #[trigger] lex_leq()(s[a], s[b]) by {
            assert(lex_le(v@[a]@, v@[b]@));
        }
        original.lemma_sort_by_ensures(lex_leq());
        vstd::seq_lib::lemma_sorted_unique(s, original.sort_by(lex_leq()), lex_leq());
    }
}

/// Sort indices in increasing order (insertion sort).
pub fn sort_indices(v: &mut Vec<usize>)
    ensures
        final(v)@ == old(v)@.sort_by(index_leq()),
{
    let ghost original = v@;
    let n = v.len();
    proof {
        lemma_index_leq_total();
    }
    let mut i: usize = 1;
    while i < n
        invariant
            i <= n || n == 0,
            n == v@.len(),
            v@.to_multiset() == original.to_multiset(),
            forall|a: int, b: int| 0 <= a < b < i && b < n ==> #[trigger] v@[a] <= #[trigger] v@[b],
        decreases n - i,
    {
        let mut j = i;
        while j > 0 && v[j - 1] > v[j]
            invariant
                0 <= j <= i < n,
                n == v@.len(),
                v@.to_multiset() == original.to_multiset(),
                forall|a: int, b: int| 0 <= a < b <= i && a != j && b != j ==> #[trigger] v@[a] <= #[trigger] v@[b],
                forall|b: int| j < b <= i ==> v@[j as int] <= #[trigger] v@[b],
            decreases j,
        {
            let x = v[j - 1];
            let y = v[j];
            let ghost before = v@;
            v.set(j - 1, y);
            v.set(j, x);
            proof {
                assert(v@ =~= before.update(j - 1, before[j as int]).update(j as int, before[j - 1]));
                crate::seqs::lemma_seq_swap_multiset(before, j - 1, j as int);
            }
            j = j - 1;
        }
        i = i + 1;
    }
    proof {
        assert forall|a: int, b: int| 0 <= a < b < v@.len() implies #[trigger] index_leq()(v@[a], v@[b]) by {}
        original.lemma_sort_by_ensures(index_leq());
        vstd::seq_lib::lemma_sorted_unique(v@, original.sort_by(index_leq()), index_leq());
    }
}

/// A sorted copy of an index list.
pub fn sorted_copy(values: &[usize]) -> (r: Vec<usize>)
    ensures
        r@ == values@.sort_by(index_leq()),
{
    let mut copy = copy_usizes(values);
    sort_indices(&mut copy);
    copy
}

/// `s` without the entries equal to `x`, in order.
pub open spec fn without(s: Seq<usize>, x: usize) -> Seq<usize>
    decreases s.len(),
{
    if s.len() == 0 {
        Seq::empty()
    } else if s.last() == x {
        without(s.drop_last(), x)
    } else {
        without(s.drop_last(), x).push(s.last())
    }
}

/// `s` without the entries that occur in `r`, in order.
pub open spec fn without_all(s: Seq<usize>, r: Seq<usize>) -> Seq<usize>
    decreases s.len(),
{
    if s.len() == 0 {
        Seq::empty()
    } else if r.contains(s.last()) {
        without_all(s.drop_last(), r)
    } else {
        without_all(s.drop_last(), r).push(s.last())
    }
}

/// `s` without position `p`.
pub open spec fn without_position(s: Seq<usize>, p: int) -> Seq<usize> {
    if 0 <= p < s.len() { s.remove(p) } else { s }
}

/// Copy of `values` without the entries equal to `x`.
pub fn copy_without(values: &[usize], x: usize) -> (r: Vec<usize>)
    ensures
        r@ == without(values@, x),
{
    let mut out: Vec<usize> = Vec::new();
    let mut i: usize = 0;
    while i < values.len()
        invariant
            0 <= i <= values@.len(),
            out@ == without(values@.subrange(0, i as int), x),
        decreases values.len() - i,
    {
        proof {
            assert(values@.subrange(0, i + 1).drop_last() =~= values@.subrange(0, i as int));
        }
        if values[i] != x {
            out.push(values[i]);
        }
        i = i + 1;
    }
    proof {
        assert(values@.subrange(0, values@.len() as int) =~= values@);
    }
    out
}

/// Whether `x` occurs in `values`.
pub fn contains_index(values: &[usize], x: usize) -> (r: bool)
    ensures
        r == values@.contains(x),
{
    let mut i: usize = 0;
    while i < values.len()
        invariant
            0 <= i <= values@.len(),
            forall|j: int| 0 <= j < i ==> values@[j] != x,
        decreases values.len() - i,
    {
        if values[i] == x {
            assert(values@[i as int] == x);
            return true;
        }
        i = i + 1;
    }
    false
}

/// Copy of `values` without the entries that occur in `removed`.
pub fn copy_without_all(values: &[usize], removed: &[usize]) -> (r: Vec<usize>)
    ensures
        r@ == without_all(values@, removed@),
{
    let mut out: Vec<usize> = Vec::new();
    let mut i: usize = 0;
    while i < values.len()
        invariant
            0 <= i <= values@.len(),
            out@ == without_all(values@.subrange(0, i as int), removed@),
        decreases values.len() - i,
    {
        proof {
            assert(values@.subrange(0, i + 1).drop_last() =~= values@.subrange(0, i as int));
        }
        if !contains_index(removed, values[i]) {
            out.push(values[i]);
        }
        i = i + 1;
    }
    proof {
        assert(values@.subrange(0, values@.len() as int) =~= values@);
    }
    out
}

/// Copy of `values` without position `p`.
pub fn copy_without_position(values: &[usize], p: usize) -> (r: Vec<usize>)
    ensures
        r@ == without_position(values@, p as int),
{
    let mut out: Vec<usize> = Vec::new();
    let mut i: usize = 0;
    while i < values.len()
        invariant
            0 <= i <= values@.len(),
            out@ == without_position(values@.subrange(0, i as int), p as int),
        decreases values.len() - i,
    {
        let ghost prefix = values@.subrange(0, i as int);
        if i != p {
            out.push(values[i]);
        }
        proof {
            let next = values@.subrange(0, i + 1);
            if p < i {
                assert(next.remove(p as int) =~= prefix.remove(p as int).push(values@[i as int]));
            } else if p == i {
                assert(next.remove(p as int) =~= prefix);
            } else {
                assert(next =~= prefix.push(values@[i as int]));
            }
        }
        i = i + 1;
    }
    proof {
        assert(values@.subrange(0, values@.len() as int) =~= values@);
    }
    out
}

/// Number of entries of `s` equal to `x`.
pub open spec fn count_of(s: Seq<Seq<usize>>, x: Seq<usize>) -> nat
    decreases s.len(),
{
    if s.len() == 0 {
        0
    } else {
        count_of(s.drop_last(), x) + if s.last() == x { 1nat } else { 0nat }
    }
}

/// Elementwise equality of two index lists.
pub fn lists_equal(a: &[usize], b: &[usize]) -> (r: bool)
    ensures
        r == (a@ == b@),
{
    if a.len() != b.len() {
        return false;
    }
    let mut i: usize = 0;
    while i < a.len()
        invariant
            0 <= i <= a@.len(),
            a@.len() == b@.len(),
            forall|j: int| 0 <= j < i ==> a@[j] == b@[j],
        decreases a.len() - i,
    {
        if a[i] != b[i] {
            return false;
        }
        i = i + 1;
    }
    proof {
        assert(a@ =~= b@);
    }
    true
}

/// Number of lists of `lists` equal to `x`.
pub fn count_list(lists: &Vec<Vec<usize>>, x: &[usize]) -> (r: usize)
    ensures
        r == count_of(list_views(lists@), x@),
{
    let mut count: usize = 0;
    let mut i: usize = 0;
    while i < lists.len()
        invariant
            0 <= i <= lists@.len(),
            count == count_of(list_views(lists@.subrange(0, i as int)), x@),
            count <= i,
        decreases lists.len() - i,
    {
        proof {
            assert(list_views(lists@.subrange(0, i + 1)).drop_last() =~= list_views(lists@.subrange(0, i as int)));
        }
        if lists_equal(lists[i].as_slice(), x) {
            count = count + 1;
        }
        i = i + 1;
    }
    proof {
        assert(lists@.subrange(0, lists@.len() as int) =~= lists@);
    }
    count
}

} // verus!
