use crate::math::IVec3;
use vstd::prelude::*;

verus! {

/// The loaded positions that stay relevant, in order.
pub open spec fn kept(loaded: Seq<IVec3>, relevant: Seq<IVec3>) -> Seq<IVec3>
    decreases loaded.len(),
{
    if loaded.len() == 0 {
        Seq::empty()
    } else {
        let rest = kept(loaded.drop_last(), relevant);
        if relevant.contains(loaded.last()) {
            rest.push(loaded.last())
        } else {
            rest
        }
    }
}

/// The indices of the loaded positions that are no longer relevant, ascending.
pub open spec fn dropped(loaded: Seq<IVec3>, relevant: Seq<IVec3>) -> Seq<usize>
    decreases loaded.len(),
{
    if loaded.len() == 0 {
        Seq::empty()
    } else {
        let rest = dropped(loaded.drop_last(), relevant);
        if relevant.contains(loaded.last()) {
            rest
        } else {
            rest.push((loaded.len() - 1) as usize)
        }
    }
}

/// The relevant positions that are not loaded, in order.
pub open spec fn missing(relevant: Seq<IVec3>, loaded: Seq<IVec3>) -> Seq<IVec3>
    decreases relevant.len(),
{
    if relevant.len() == 0 {
        Seq::empty()
    } else {
        let rest = missing(relevant.drop_last(), loaded);
        if loaded.contains(relevant.last()) {
            rest
        } else {
            rest.push(relevant.last())
        }
    }
}

/// A position is kept exactly when it is loaded and relevant.
pub proof fn lemma_kept_members(loaded: Seq<IVec3>, relevant: Seq<IVec3>)
    ensures
        forall|p: IVec3| #[trigger] kept(loaded, relevant).contains(p) <==> loaded.contains(p) && relevant.contains(p),
    decreases loaded.len(),
{
    if loaded.len() > 0 {
        let l1 = loaded.drop_last();
        lemma_kept_members(l1, relevant);
        let k1 = kept(l1, relevant);
        assert forall|p: IVec3| #[trigger] kept(loaded, relevant).contains(p) <==> loaded.contains(p)
            && relevant.contains(p) by {
            if loaded.contains(p) && p != loaded.last() {
                let i = choose|i: int| 0 <= i < loaded.len() && loaded[i] == p;
                assert(l1[i] == p);
            }
            if l1.contains(p) {
                let i = choose|i: int| 0 <= i < l1.len() && l1[i] == p;
                assert(loaded[i] == p);
            }
            if relevant.contains(loaded.last()) {
                assert(k1.push(loaded.last()).last() == loaded.last());
                if k1.contains(p) {
                    let i = choose|i: int| 0 <= i < k1.len() && k1[i] == p;
                    assert(k1.push(loaded.last())[i] == p);
                }
                if k1.push(loaded.last()).contains(p) && p != loaded.last() {
                    let i = choose|i: int| 0 <= i < k1.len() + 1 && k1.push(loaded.last())[i] == p;
                    assert(k1[i] == p);
                }
            }
            assert(loaded.last() == loaded[loaded.len() - 1]);
        }
    }
}

/// A position is missing exactly when it is relevant and not loaded.
pub proof fn lemma_missing_members(relevant: Seq<IVec3>, loaded: Seq<IVec3>)
    ensures
        forall|p: IVec3| #[trigger] missing(relevant, loaded).contains(p) <==> relevant.contains(p) && !loaded.contains(p),
    decreases relevant.len(),
{
    if relevant.len() > 0 {
        let r1 = relevant.drop_last();
        lemma_missing_members(r1, loaded);
        let m1 = missing(r1, loaded);
        assert forall|p: IVec3| #[trigger] missing(relevant, loaded).contains(p) <==> relevant.contains(p)
            && !loaded.contains(p) by {
            if relevant.contains(p) && p != relevant.last() {
                let i = choose|i: int| 0 <= i < relevant.len() && relevant[i] == p;
                assert(r1[i] == p);
            }
            if r1.contains(p) {
                let i = choose|i: int| 0 <= i < r1.len() && r1[i] == p;
                assert(relevant[i] == p);
            }
            if !loaded.contains(relevant.last()) {
                assert(m1.push(relevant.last()).last() == relevant.last());
                if m1.contains(p) {
                    let i = choose|i: int| 0 <= i < m1.len() && m1[i] == p;
                    assert(m1.push(relevant.last())[i] == p);
                }
                if m1.push(relevant.last()).contains(p) && p != relevant.last() {
                    let i = choose|i: int| 0 <= i < m1.len() + 1 && m1.push(relevant.last())[i] == p;
                    assert(m1[i] == p);
                }
            }
            assert(relevant.last() == relevant[relevant.len() - 1]);
        }
    }
}

/// The dropped indices are, in ascending order, exactly those of the loaded
/// positions that are not relevant.
pub proof fn lemma_dropped_members(loaded: Seq<IVec3>, relevant: Seq<IVec3>)
    requires
        loaded.len() <= usize::MAX,
    ensures
        forall|i: usize| #[trigger] dropped(loaded, relevant).contains(i) <==> i < loaded.len() && !relevant.contains(
            loaded[i as int],
        ),
        forall|j: int, k: int|
            0 <= j < k < dropped(loaded, relevant).len() ==> #[trigger] dropped(loaded, relevant)[j]
                < #[trigger] dropped(loaded, relevant)[k],
        forall|j: int| 0 <= j < dropped(loaded, relevant).len() ==> #[trigger] dropped(loaded, relevant)[j] < loaded.len(),
    decreases loaded.len(),
{
    if loaded.len() > 0 {
        let l1 = loaded.drop_last();
        lemma_dropped_members(l1, relevant);
        let d1 = dropped(l1, relevant);
        let d = dropped(loaded, relevant);
        let n = (loaded.len() - 1) as usize;
        assert(loaded.last() == loaded[n as int]);
        assert forall|i: usize| #[trigger] d.contains(i) <==> i < loaded.len()
            && !relevant.contains(loaded[i as int]) by {
            if i < n {
                assert(l1[i as int] == loaded[i as int]);
            }
            if d1.contains(i) {
                let j = choose|j: int| 0 <= j < d1.len() && d1[j] == i;
                assert(i < n);
                if !relevant.contains(loaded.last()) {
                    assert(d[j] == i);
                }
            }
            if !relevant.contains(loaded.last()) {
                assert(d == d1.push(n));
                if d.contains(i) && i != n {
                    let j = choose|j: int| 0 <= j < d.len() && d[j] == i;
                    assert(j < d1.len());
                    assert(d1[j] == i);
                }
                if i == n {
                    assert(d[d1.len() as int] == n);
                }
            } else {
                assert(d == d1);
            }
        }
        assert forall|j: int, k: int| 0 <= j < k < d.len() implies #[trigger] d[j] < #[trigger] d[k] by {
            if !relevant.contains(loaded.last()) {
                assert(d == d1.push(n));
                if k == d1.len() {
                    assert(d1[j] < n);
                } else {
                    assert(d1[j] < d1[k]);
                }
            }
        }
        assert forall|j: int| 0 <= j < d.len() implies #[trigger] d[j] < loaded.len() by {
            if !relevant.contains(loaded.last()) {
                assert(d == d1.push(n));
                if j < d1.len() {
                    assert(d1[j] < n);
                }
            }
        }
    }
}

/// Brings the loaded positions in line with the relevant ones, as
/// `update_loaded_chunks` does, seen as sets: afterwards exactly the relevant
/// positions are loaded; the positions appended are the relevant ones that were
/// not loaded; the indices dropped, highest first, are those of the loaded
/// positions that were not relevant.
pub proof fn lemma_update_loaded_members(loaded: Seq<IVec3>, relevant: Seq<IVec3>)
    requires
        loaded.len() <= usize::MAX,
    ensures
        forall|p: IVec3|
            #[trigger] (kept(loaded, relevant) + missing(relevant, loaded)).contains(p) <==> relevant.contains(p),
        forall|p: IVec3| #[trigger] missing(relevant, loaded).contains(p) <==> relevant.contains(p) && !loaded.contains(p),
        forall|i: usize|
            #[trigger] dropped(loaded, relevant).reverse().contains(i) <==> i < loaded.len() && !relevant.contains(
                loaded[i as int],
            ),
        forall|j: int, k: int|
            0 <= j < k < dropped(loaded, relevant).len() ==> #[trigger] dropped(loaded, relevant).reverse()[j]
                > #[trigger] dropped(loaded, relevant).reverse()[k],
{
    lemma_kept_members(loaded, relevant);
    lemma_missing_members(relevant, loaded);
    lemma_dropped_members(loaded, relevant);
    let kk = kept(loaded, relevant);
    let mm = missing(relevant, loaded);
    let d = dropped(loaded, relevant);
    assert forall|p: IVec3| #[trigger] (kk + mm).contains(p) <==> relevant.contains(p) by {
        if (kk + mm).contains(p) {
            let i = choose|i: int| 0 <= i < (kk + mm).len() && (kk + mm)[i] == p;
            if i < kk.len() {
                assert(kk[i] == p);
                assert(kk.contains(p));
            } else {
                assert(mm[i - kk.len()] == p);
                assert(mm.contains(p));
            }
        }
        if relevant.contains(p) {
            if loaded.contains(p) {
                assert(kk.contains(p));
                let i = choose|i: int| 0 <= i < kk.len() && kk[i] == p;
                assert((kk + mm)[i] == p);
            } else {
                assert(mm.contains(p));
                let i = choose|i: int| 0 <= i < mm.len() && mm[i] == p;
                assert((kk + mm)[kk.len() + i] == p);
            }
        }
    }
    assert forall|i: usize| #[trigger] d.reverse().contains(i) <==> d.contains(i) by {
        if d.contains(i) {
            let j = choose|j: int| 0 <= j < d.len() && d[j] == i;
            assert(d.reverse()[d.len() - 1 - j] == i);
        }
        if d.reverse().contains(i) {
            let j = choose|j: int| 0 <= j < d.len() && d.reverse()[j] == i;
            assert(d[d.len() - 1 - j] == i);
        }
    }
    assert forall|j: int, k: int| 0 <= j < k < d.len() implies #[trigger] d.reverse()[j] > #[trigger] d.reverse()[k] by {
        assert(d[d.len() - 1 - k] < d[d.len() - 1 - j]);
    }
}

fn contains_position(positions: &[IVec3], p: IVec3) -> (r: bool)
    ensures
        r == positions@.contains(p),
{
    for i in 0..positions.len()
        invariant
            forall|j: int| 0 <= j < i ==> positions@[j] != p,
    {
        if positions[i] == p {
            return true;
        }
    }
    false
}

/// Brings the loaded chunk positions in line with the relevant ones: those no
/// longer relevant are dropped and the relevant ones not loaded yet are
/// appended, in order. Returns the indices dropped, highest first (the order
/// in which their buffers are removed, each index valid when its turn comes),
/// and the positions appended (whose buffers are added).
pub fn update_loaded_chunks(loaded: &mut Vec<IVec3>, relevant: &[IVec3]) -> (r: (Vec<usize>, Vec<IVec3>))
    ensures
        r.0@ == dropped(old(loaded)@, relevant@).reverse(),
        r.1@ == missing(relevant@, old(loaded)@),
        final(loaded)@ == kept(old(loaded)@, relevant@) + missing(relevant@, old(loaded)@),
        forall|p: IVec3| #[trigger] final(loaded)@.contains(p) <==> relevant@.contains(p),
        forall|p: IVec3| #[trigger] r.1@.contains(p) <==> relevant@.contains(p) && !old(loaded)@.contains(p),
        forall|i: usize|
            #[trigger] r.0@.contains(i) <==> i < old(loaded)@.len() && !relevant@.contains(old(loaded)@[i as int]),
        forall|j: int, k: int| 0 <= j < k < r.0@.len() ==> #[trigger] r.0@[j] > #[trigger] r.0@[k],
{
    let ghost l0 = loaded@;
    let mut chunk_indexes_to_unload: Vec<usize> = Vec::new();
    let mut still_loaded: Vec<IVec3> = Vec::new();
    for i in 0..loaded.len()
        invariant
            loaded@ == l0,
            chunk_indexes_to_unload@ == dropped(l0.take(i as int), relevant@),
            still_loaded@ == kept(l0.take(i as int), relevant@),
    {
        proof {
            assert(l0.take(i + 1).drop_last() =~= l0.take(i as int));
        }
        if contains_position(relevant, loaded[i]) {
            still_loaded.push(loaded[i]);
        } else {
            chunk_indexes_to_unload.push(i);
        }
    }
    proof {
        assert(l0.take(l0.len() as int) =~= l0);
    }
    let mut chunk_positions_to_load: Vec<IVec3> = Vec::new();
    for j in 0..relevant.len()
        invariant
            loaded@ == l0,
            chunk_positions_to_load@ == missing(relevant@.take(j as int), l0),
    {
        proof {
            assert(relevant@.take(j + 1).drop_last() =~= relevant@.take(j as int));
        }
        if !contains_position(loaded.as_slice(), relevant[j]) {
            chunk_positions_to_load.push(relevant[j]);
        }
    }
    proof {
        assert(relevant@.take(relevant@.len() as int) =~= relevant@);
    }
    let ghost unload = chunk_indexes_to_unload@;
    let mut removal_order: Vec<usize> = Vec::new();
    let mut k = chunk_indexes_to_unload.len();
    while k > 0
        invariant
            k <= unload.len(),
            chunk_indexes_to_unload@ == unload,
            removal_order@ == unload.skip(k as int).reverse(),
        decreases k,
    {
        k = k - 1;
        removal_order.push(chunk_indexes_to_unload[k]);
        proof {
            assert(unload.skip(k as int) =~= seq![unload[k as int]] + unload.skip(k + 1));
            assert(unload.skip(k as int).reverse() =~= unload.skip(k + 1).reverse().push(
                unload[k as int],
            ));
        }
    }
    proof {
        assert(unload.skip(0) =~= unload);
    }
    let ghost kept_part = still_loaded@;
    for j in 0..chunk_positions_to_load.len()
        invariant
            still_loaded@ == kept_part + chunk_positions_to_load@.take(j as int),
    {
        still_loaded.push(chunk_positions_to_load[j]);
        proof {
            assert(chunk_positions_to_load@.take(j + 1) =~= chunk_positions_to_load@.take(j as int).push(
                chunk_positions_to_load@[j as int],
            ));
        }
    }
    proof {
        assert(chunk_positions_to_load@.take(chunk_positions_to_load@.len() as int)
            =~= chunk_positions_to_load@);
    }
    *loaded = still_loaded;
    proof {
        lemma_update_loaded_members(l0, relevant@);
        assert(dropped(l0, relevant@).len() == removal_order@.len());
    }
    (removal_order, chunk_positions_to_load)
}

} // verus!
