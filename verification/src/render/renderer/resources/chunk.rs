use vstd::prelude::*;

verus! {

/// The indices `0..size` after `Vec::swap_remove` at each of `indices`, in turn.
pub open spec fn swap_removed(size: nat, indices: Seq<usize>) -> Seq<usize>
    decreases indices.len(),
{
    if indices.len() == 0 {
        Seq::new(size, |i: int| i as usize)
    } else {
        let s = swap_removed(size, indices.drop_last());
        s.update(indices.last() as int, s.last()).drop_last()
    }
}

/// Each of `indices` is in bounds when its turn comes.
pub open spec fn swap_removes_fit(size: nat, indices: Seq<usize>) -> bool {
    forall|k: int| 0 <= k < indices.len() ==> #[trigger] indices[k] < size - k
}

/// The pairs `(position, value)` of `s` whose value is not their position,
/// in order.
pub open spec fn moved_entries(s: Seq<usize>) -> Seq<(usize, usize)>
    decreases s.len(),
{
    if s.len() == 0 {
        Seq::empty()
    } else {
        let rest = moved_entries(s.drop_last());
        if s.last() != (s.len() - 1) as usize {
            rest.push(((s.len() - 1) as usize, s.last()))
        } else {
            rest
        }
    }
}

proof fn lemma_swap_removed_len(size: nat, indices: Seq<usize>)
    requires
        swap_removes_fit(size, indices),
    ensures
        swap_removed(size, indices).len() == size - indices.len(),
    decreases indices.len(),
{
    if indices.len() > 0 {
        assert(swap_removes_fit(size, indices.drop_last()));
        lemma_swap_removed_len(size, indices.drop_last());
        assert(indices[indices.len() - 1] < size - (indices.len() - 1));
    }
}

/// After the swap-removes, the pool still holds distinct chunks of the
/// original `0..size`, one fewer per removal.
pub proof fn lemma_swap_removed_distinct(size: nat, indices: Seq<usize>)
    requires
        size <= usize::MAX,
        swap_removes_fit(size, indices),
    ensures
        swap_removed(size, indices).len() == size - indices.len(),
        swap_removed(size, indices).no_duplicates(),
        forall|i: int| 0 <= i < swap_removed(size, indices).len() ==> #[trigger] swap_removed(size, indices)[i] < size,
    decreases indices.len(),
{
    lemma_swap_removed_len(size, indices);
    if indices.len() > 0 {
        let i1 = indices.drop_last();
        assert(swap_removes_fit(size, i1));
        lemma_swap_removed_distinct(size, i1);
        let s = swap_removed(size, i1);
        let x = indices.last() as int;
        assert(indices[indices.len() - 1] < size - (indices.len() - 1));
        let t = s.update(x, s.last()).drop_last();
        assert(swap_removed(size, indices) == t);
        assert forall|a: int, b: int| 0 <= a < t.len() && 0 <= b < t.len() && a != b implies t[a] != t[b] by {
            let l = s.len() - 1;
            let ia = if a == x { l } else { a };
            let ib = if b == x { l } else { b };
            assert(t[a] == s[ia]);
            assert(t[b] == s[ib]);
        }
        assert forall|i: int| 0 <= i < t.len() implies #[trigger] t[i] < size by {
            if i == x {
                assert(t[i] == s[s.len() - 1]);
            } else {
                assert(t[i] == s[i]);
            }
        }
    } else {
        let s = swap_removed(size, indices);
        assert forall|a: int, b: int| 0 <= a < s.len() && 0 <= b < s.len() && a != b implies s[a] != s[b] by {}
    }
}

/// The moved entries of `s` are exactly its positions whose value differs from
/// the position, each paired with that value, once each, by ascending position.
pub proof fn lemma_moved_entries_exact(s: Seq<usize>)
    requires
        s.len() <= usize::MAX,
    ensures
        forall|k: int|
            0 <= k < moved_entries(s).len() ==> {
                let e = #[trigger] moved_entries(s)[k];
                &&& e.0 < s.len()
                &&& e.1 == s[e.0 as int]
                &&& e.0 != e.1
            },
        forall|i: int| 0 <= i < s.len() && #[trigger] s[i] != i ==> moved_entries(s).contains((i as usize, s[i])),
        forall|j: int, k: int|
            0 <= j < k < moved_entries(s).len() ==> (#[trigger] moved_entries(s)[j]).0 < (
            #[trigger] moved_entries(s)[k]).0,
    decreases s.len(),
{
    if s.len() > 0 {
        let s1 = s.drop_last();
        lemma_moved_entries_exact(s1);
        let m1 = moved_entries(s1);
        let m = moved_entries(s);
        let n = (s.len() - 1) as usize;
        assert(s.last() == s[n as int]);
        if s.last() != n {
            assert(m == m1.push((n, s.last())));
        } else {
            assert(m == m1);
        }
        assert forall|k: int| 0 <= k < m.len() implies {
            let e = #[trigger] m[k];
            &&& e.0 < s.len()
            &&& e.1 == s[e.0 as int]
            &&& e.0 != e.1
        } by {
            if k < m1.len() {
                assert(m[k] == m1[k]);
                assert(s1[m1[k].0 as int] == s[m1[k].0 as int]);
            }
        }
        assert forall|i: int| 0 <= i < s.len() && #[trigger] s[i] != i implies m.contains((i as usize, s[i])) by {
            if i < n {
                assert(s1[i] == s[i]);
                assert(m1.contains((i as usize, s1[i])));
                let k = choose|k: int| 0 <= k < m1.len() && m1[k] == (i as usize, s1[i]);
                assert(m[k] == m1[k]);
            } else {
                assert(m[m1.len() as int] == (n, s.last()));
            }
        }
        assert forall|j: int, k: int| 0 <= j < k < m.len() implies (#[trigger] m[j]).0 < (#[trigger] m[k]).0 by {
            if k < m1.len() {
                assert(m[j] == m1[j] && m[k] == m1[k]);
            } else {
                assert(m[j] == m1[j]);
                assert(m1[j].0 < s1.len());
            }
        }
    }
}

/// Where the chunks of a pool of `size` end up after `swap_remove` at each of
/// `indices` in turn: the pairs `(new index, old index)` of those that moved.
pub fn post_swap_remove_indices(size: usize, indices: &[usize]) -> (r: Vec<(usize, usize)>)
    requires
        swap_removes_fit(size as nat, indices@),
    ensures
        r@ == moved_entries(swap_removed(size as nat, indices@)),
        ({
            let s = swap_removed(size as nat, indices@);
            &&& s.len() == size - indices@.len()
            &&& s.no_duplicates()
            &&& forall|i: int| 0 <= i < s.len() ==> #[trigger] s[i] < size
            &&& forall|k: int|
                0 <= k < r@.len() ==> {
                    let e = #[trigger] r@[k];
                    &&& e.0 < s.len()
                    &&& e.1 == s[e.0 as int]
                    &&& e.0 != e.1
                }
            &&& forall|i: int| 0 <= i < s.len() && #[trigger] s[i] != i ==> r@.contains((i as usize, s[i]))
            &&& forall|j: int, k: int| 0 <= j < k < r@.len() ==> (#[trigger] r@[j]).0 < (#[trigger] r@[k]).0
        }),
{
    let mut index_vec: Vec<usize> = Vec::new();
    for i in 0..size
        invariant
            index_vec@ == Seq::new(i as nat, |j: int| j as usize),
    {
        index_vec.push(i);
        proof {
            assert(index_vec@ =~= Seq::new((i + 1) as nat, |j: int| j as usize));
        }
    }
    for k in 0..indices.len()
        invariant
            swap_removes_fit(size as nat, indices@),
            index_vec@ == swap_removed(size as nat, indices@.take(k as int)),
    {
        proof {
            let t = indices@.take(k as int);
            assert(indices@.take(k + 1).drop_last() =~= t);
            assert(swap_removes_fit(size as nat, t));
            lemma_swap_removed_len(size as nat, t);
            assert(indices[k as int] < size - k);
        }
        index_vec.swap_remove(indices[k]);
    }
    proof {
        assert(indices@.take(indices.len() as int) =~= indices@);
    }
    let ghost s = index_vec@;
    let mut moved: Vec<(usize, usize)> = Vec::new();
    for i in 0..index_vec.len()
        invariant
            s == index_vec@,
            moved@ == moved_entries(s.take(i as int)),
    {
        proof {
            assert(s.take(i + 1).drop_last() =~= s.take(i as int));
        }
        if index_vec[i] != i {
            moved.push((i, index_vec[i]));
        }
    }
    proof {
        assert(s.take(s.len() as int) =~= s);
        lemma_swap_removed_distinct(size as nat, indices@);
        lemma_moved_entries_exact(s);
    }
    moved
}

} // verus!
