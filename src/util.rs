use vstd::prelude::*;
use vstd::set_lib::{lemma_int_range, set_int_range, lemma_len_subset};

verus! {

/// The values of `v` as a set of integers.
pub open spec fn ids(v: Seq<usize>) -> Set<int> {
    Set::new(|i: int| exists|k: int| 0 <= k < v.len() && v[k] == i)
}

/// A sequence of distinct values below `n` has at most `n` elements.
pub proof fn lemma_distinct_bounded(v: Seq<usize>, n: int)
    requires
        0 <= n,
        v.no_duplicates(),
        forall|k: int| 0 <= k < v.len() ==> v[k] < n,
    ensures
        v.len() <= n,
{
    let m = v.map_values(|x: usize| x as int);
    assert(m.no_duplicates()) by {
        assert forall|i: int, j: int| 0 <= i < m.len() && 0 <= j < m.len() && i != j implies m[i] != m[j] by {
            assert(v[i] != v[j]);
        }
    }
    m.unique_seq_to_set();
    assert(m.len() == v.len());
    if n >= 0 {
        lemma_int_range(0, n);
        assert forall|x: int| m.to_set().contains(x) implies set_int_range(0, n).contains(x) by {
            let k = choose|k: int| 0 <= k < m.len() && m[k] == x;
            assert(v[k] < n);
        }
        assert(m.to_set().subset_of(set_int_range(0, n)));
        lemma_len_subset(m.to_set(), set_int_range(0, n));
        assert(m.to_set().len() <= n);
    }
}

/// Appending a value adds it to the set of values.
pub proof fn lemma_ids_push(v: Seq<usize>, x: usize)
    ensures
        ids(v.push(x)) == ids(v).insert(x as int),
{
    let w = v.push(x);
    assert forall|i: int| ids(w).contains(i) <==> ids(v).insert(x as int).contains(i) by {
        if ids(v).contains(i) {
            let k = choose|k: int| 0 <= k < v.len() && v[k] == i;
            assert(w[k] == i);
        }
        if i == x as int {
            assert(w[v.len() as int] == x);
        }
        if ids(w).contains(i) && i != x as int {
            let k = choose|k: int| 0 <= k < w.len() && w[k] == i;
            assert(v[k] == i);
        }
    }
    assert(ids(w) =~= ids(v).insert(x as int));
}

/// A vector of `n` times `false`.
pub fn falses(n: usize) -> (r: Vec<bool>)
    ensures
        r@.len() == n,
        forall|i: int| 0 <= i < n ==> !r@[i],
{
    let mut r: Vec<bool> = Vec::new();
    while r.len() < n
        invariant
            r@.len() <= n,
            forall|i: int| 0 <= i < r@.len() ==> !r@[i],
        decreases n - r@.len(),
    {
        r.push(false);
    }
    r
}

} // verus!
