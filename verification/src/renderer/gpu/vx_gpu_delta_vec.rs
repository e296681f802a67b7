use vstd::prelude::*;
use vstd::relations::injective_on;
use vstd::set_lib::{lemma_int_range, lemma_map_size, set_int_range};

verus! {

/// An item that lives in one slot of a GPU-side array and is known by a stable
/// id (its `index`), which selects its entry in the id-to-slot mapping.
pub trait GpuIndexedItem: Copy + Sized {
    type WriteEntry: Copy;

    /// The stable id of the item.
    spec fn item_id(&self) -> usize;

    /// What `init` makes of the item.
    spec fn init_spec(self) -> Self;

    /// What `reused` makes of the item.
    spec fn reused_spec(self) -> Self;

    /// What `write` makes of the item placed at `index`.
    spec fn write_spec(self, index: usize) -> Self::WriteEntry;

    fn index(&self) -> (r: usize)
        ensures
            r == self.item_id(),
    ;

    /// The item as it is first placed in the array.
    fn init(self) -> (r: Self)
        ensures
            r == self.init_spec(),
            r.item_id() == self.item_id(),
    ;

    /// The item as it is moved to another slot.
    fn reused(self) -> (r: Self)
        ensures
            r == self.reused_spec(),
            r.item_id() == self.item_id(),
    ;

    /// The upload record that places the item at `index`.
    fn write(self, index: usize) -> (r: Self::WriteEntry)
        ensures
            r == self.write_spec(index),
    ;
}

/// A copy of `m` after one write: a slot inside `m` is overwritten, a slot at its
/// end extends it.
pub open spec fn apply_write<T>(m: Seq<T>, w: (usize, T)) -> Seq<T> {
    if w.0 < m.len() {
        m.update(w.0 as int, w.1)
    } else {
        m.push(w.1)
    }
}

/// A copy of `base` after the writes `ws`, in order.
pub open spec fn apply_writes<T>(base: Seq<T>, ws: Seq<(usize, T)>) -> Seq<T>
    decreases ws.len(),
{
    if ws.len() == 0 {
        base
    } else {
        apply_write(apply_writes(base, ws.drop_last()), ws.last())
    }
}

/// The upload records of the writes `ws`.
pub open spec fn encode_writes<T: GpuIndexedItem>(ws: Seq<(usize, T)>) -> Seq<T::WriteEntry> {
    ws.map_values(|w: (usize, T)| w.1.write_spec(w.0))
}

/// Where the pushes go: the `k`-th to the `k`-th removed slot of `rs`, or,
/// once those run out, past the end `n` of the array, in order; each made
/// ready by `init`.
pub open spec fn push_writes<T: GpuIndexedItem>(pushes: Seq<T>, rs: Seq<usize>, n: nat) -> Seq<(usize, T)> {
    Seq::new(
        pushes.len(),
        |k: int|
            (if k < rs.len() {
                rs[k]
            } else {
                (n + k - rs.len()) as usize
            }, pushes[k].init_spec()),
    )
}

/// How the removed slots `rs[lo..hi]` (ascending) of the array `buf` are
/// closed: while the lowest lies inside the array, either the last slot is the
/// highest removed one and is cut off, or the last item moves, as `reused`
/// makes it, to the lowest removed slot.
pub open spec fn move_writes<T: GpuIndexedItem>(buf: Seq<T>, rs: Seq<usize>, lo: int, hi: int) -> Seq<
    (usize, T),
>
    decreases hi - lo,
{
    if lo >= hi || lo < 0 || hi > rs.len() || rs[lo] >= buf.len() {
        Seq::empty()
    } else if rs[hi - 1] == buf.len() - 1 {
        move_writes(buf.drop_last(), rs, lo, hi - 1)
    } else {
        let moved = buf.last().reused_spec();
        seq![(rs[lo], moved)] + move_writes(
            buf.drop_last().update(rs[lo] as int, moved),
            rs,
            lo + 1,
            hi,
        )
    }
}

/// The writes of a sync of the array `items`, with the pushes `pushes` and
/// the removed slots `rs` (ascending): the pushes first fill removed slots,
/// then the removed slots left are closed from the end.
pub open spec fn sync_writes<T: GpuIndexedItem>(items: Seq<T>, pushes: Seq<T>, rs: Seq<usize>) -> Seq<
    (usize, T),
> {
    let pw = push_writes(pushes, rs, items.len());
    let lo = if pushes.len() < rs.len() {
        pushes.len() as int
    } else {
        rs.len() as int
    };
    pw + move_writes(apply_writes(items, pw), rs, lo, rs.len() as int)
}

/// The ids that have an item.
pub open spec fn live_ids(slots: Seq<Option<usize>>) -> Set<int> {
    Set::new(|d: int| 0 <= d < slots.len() && slots[d] is Some)
}

/// Whether some pushed item has the id `d`.
pub open spec fn pushes_id<T: GpuIndexedItem>(pushes: Seq<T>, d: int) -> bool {
    exists|k: int| 0 <= k < pushes.len() && #[trigger] pushes[k].item_id() == d
}

/// Where an item of the array after a sync comes from: a pushed item, made ready
/// by `init`, or the item that had its id before, either in place or moved
/// (`reused`).
pub open spec fn synced_from<T: GpuIndexedItem>(
    old_items: Seq<T>,
    old_slots: Seq<Option<usize>>,
    pushes: Seq<T>,
    item: T,
) -> bool {
    ||| exists|k: int| 0 <= k < pushes.len() && item == (#[trigger] pushes[k]).init_spec()
    ||| {
        &&& old_slots[item.item_id() as int] is Some
        &&& old_slots[item.item_id() as int]->0 < old_items.len()
        &&& {
            let q = old_slots[item.item_id() as int]->0 as int;
            item == old_items[q] || item == old_items[q].reused_spec()
        }
    }
}

/// `map` sends the id `d` to the slot `p`.
pub open spec fn maps_to(map: Seq<Option<usize>>, d: int, p: int) -> bool {
    map[d] is Some && map[d]->0 == p
}

/// `buf` and `map` agree: `map[d]` names the slot that holds the item of id `d`,
/// and the slots in `dead` hold items that no id maps to.
pub open spec fn indexed<T: GpuIndexedItem>(
    buf: Seq<T>,
    map: Seq<Option<usize>>,
    cap: usize,
    dead: Set<int>,
) -> bool {
    &&& map.len() == cap
    &&& forall|p: int| 0 <= p < buf.len() ==> (#[trigger] buf[p]).item_id() < cap
    &&& forall|d: int|
        0 <= d < cap && (#[trigger] map[d]) is Some ==> map[d]->0 < buf.len() && buf[map[d]->0 as int].item_id() == d
    &&& forall|p: int|
        0 <= p < buf.len() ==> (dead.contains(p) <==> !maps_to(map, (#[trigger] buf[p]).item_id() as int, p))
}

/// The slots `q[lo..hi]`.
pub open spec fn slots_between(q: Seq<usize>, lo: int, hi: int) -> Set<int> {
    Set::new(|p: int| exists|j: int| lo <= j < hi && #[trigger] q[j] as int == p)
}

/// The slots named in a queue of removals.
pub open spec fn slots_in(q: Seq<usize>) -> Set<int> {
    slots_between(q, 0, q.len() as int)
}

pub open spec fn strictly_increasing(q: Seq<usize>) -> bool {
    forall|i: int, j: int| 0 <= i < j < q.len() ==> q[i] < q[j]
}

/// The values of `q`, each once, in ascending order (for a `q` without
/// repeats).
pub open spec fn ascending(q: Seq<usize>) -> Seq<usize> {
    choose|rs: Seq<usize>| strictly_increasing(rs) && rs.to_multiset() == q.to_multiset()
}

proof fn lemma_increasing_same_set(a: Seq<usize>, b: Seq<usize>)
    requires
        strictly_increasing(a),
        strictly_increasing(b),
        forall|x: usize| a.contains(x) <==> b.contains(x),
    ensures
        a == b,
    decreases a.len(),
{
    if a.len() == 0 {
        if b.len() > 0 {
            assert(b.contains(b[0]));
        }
        assert(b =~= a);
    } else {
        assert(a.contains(a.last()));
        assert(b.len() > 0);
        assert(b.contains(b.last()));
        let j = choose|j: int| 0 <= j < b.len() && b[j] == a.last();
        let i = choose|i: int| 0 <= i < a.len() && a[i] == b.last();
        assert(a[i] <= a.last());
        assert(b[j] <= b.last());
        assert(a.last() == b.last());
        let (a1, b1) = (a.drop_last(), b.drop_last());
        assert forall|x: usize| a1.contains(x) <==> b1.contains(x) by {
            if a1.contains(x) {
                let k = choose|k: int| 0 <= k < a1.len() && a1[k] == x;
                assert(a.contains(x) && x < a.last());
                let l = choose|l: int| 0 <= l < b.len() && b[l] == x;
                assert(l != b.len() - 1);
                assert(b1[l] == x);
            }
            if b1.contains(x) {
                let k = choose|k: int| 0 <= k < b1.len() && b1[k] == x;
                assert(b.contains(x) && x < b.last());
                let l = choose|l: int| 0 <= l < a.len() && a[l] == x;
                assert(l != a.len() - 1);
                assert(a1[l] == x);
            }
        }
        lemma_increasing_same_set(a1, b1);
        assert(a =~= a1.push(a.last()));
        assert(b =~= b1.push(b.last()));
    }
}

/// A strictly increasing sequence with the values of `q` is `ascending(q)`.
pub proof fn lemma_ascending(q: Seq<usize>, rs: Seq<usize>)
    requires
        strictly_increasing(rs),
        rs.to_multiset() == q.to_multiset(),
    ensures
        ascending(q) == rs,
{
    broadcast use vstd::seq_lib::group_to_multiset_ensures;

    let a = ascending(q);
    assert(strictly_increasing(a) && a.to_multiset() == q.to_multiset());
    assert forall|x: usize| a.contains(x) <==> rs.contains(x) by {
        assert(a.contains(x) <==> a.to_multiset().count(x) > 0);
        assert(rs.contains(x) <==> rs.to_multiset().count(x) > 0);
    }
    lemma_increasing_same_set(a, rs);
}

/// Filling a dead slot with an item whose id maps nowhere yet.
proof fn lemma_indexed_place<T: GpuIndexedItem>(
    buf: Seq<T>,
    map: Seq<Option<usize>>,
    cap: usize,
    dead: Set<int>,
    p: int,
    x: T,
)
    requires
        indexed(buf, map, cap, dead),
        0 <= p < buf.len(),
        buf.len() <= usize::MAX,
        dead.contains(p),
        x.item_id() < cap,
        map[x.item_id() as int] is None,
    ensures
        indexed(buf.update(p, x), map.update(x.item_id() as int, Some(p as usize)), cap, dead.remove(p)),
{
    let buf2 = buf.update(p, x);
    let map2 = map.update(x.item_id() as int, Some(p as usize));
    assert forall|d: int| 0 <= d < cap && (#[trigger] map2[d]) is Some implies map2[d]->0 < buf2.len()
        && buf2[map2[d]->0 as int].item_id() == d by {
        if d != x.item_id() as int {
            let s = map[d]->0 as int;
            assert(buf[s].item_id() == d);
            if s == p {
                assert(maps_to(map, buf[p].item_id() as int, p));
            }
        }
    }
    assert forall|q: int| 0 <= q < buf2.len() implies (dead.remove(p).contains(q) <==> !maps_to(
        map2,
        (#[trigger] buf2[q]).item_id() as int,
        q,
    )) by {
        if q != p {
            assert(buf2[q] == buf[q]);
            assert(dead.contains(q) <==> !maps_to(map, buf[q].item_id() as int, q));
        }
    }
    assert forall|q: int| 0 <= q < buf2.len() implies (#[trigger] buf2[q]).item_id() < cap by {
        if q != p {
            assert(buf2[q] == buf[q]);
        }
    }
}

/// Appending an item whose id maps nowhere yet.
proof fn lemma_indexed_append<T: GpuIndexedItem>(
    buf: Seq<T>,
    map: Seq<Option<usize>>,
    cap: usize,
    dead: Set<int>,
    x: T,
)
    requires
        indexed(buf, map, cap, dead),
        !dead.contains(buf.len() as int),
        buf.len() <= usize::MAX,
        x.item_id() < cap,
        map[x.item_id() as int] is None,
    ensures
        indexed(buf.push(x), map.update(x.item_id() as int, Some(buf.len() as usize)), cap, dead),
{
    let buf2 = buf.push(x);
    let map2 = map.update(x.item_id() as int, Some(buf.len() as usize));
    assert forall|d: int| 0 <= d < cap && (#[trigger] map2[d]) is Some implies map2[d]->0 < buf2.len()
        && buf2[map2[d]->0 as int].item_id() == d by {
        if d != x.item_id() as int {
            let s = map[d]->0 as int;
            assert(buf[s].item_id() == d);
        }
    }
    assert forall|q: int| 0 <= q < buf2.len() implies (dead.contains(q) <==> !maps_to(
        map2,
        (#[trigger] buf2[q]).item_id() as int,
        q,
    )) by {
        if q < buf.len() {
            assert(buf2[q] == buf[q]);
            assert(dead.contains(q) <==> !maps_to(map, buf[q].item_id() as int, q));
        }
    }
    assert forall|q: int| 0 <= q < buf2.len() implies (#[trigger] buf2[q]).item_id() < cap by {
        if q < buf.len() {
            assert(buf2[q] == buf[q]);
        }
    }
}

/// Dropping a dead last slot.
proof fn lemma_indexed_pop_dead<T: GpuIndexedItem>(
    buf: Seq<T>,
    map: Seq<Option<usize>>,
    cap: usize,
    dead: Set<int>,
)
    requires
        indexed(buf, map, cap, dead),
        buf.len() > 0,
        dead.contains(buf.len() - 1),
    ensures
        indexed(buf.drop_last(), map, cap, dead.remove(buf.len() - 1)),
{
    let buf2 = buf.drop_last();
    let top = buf.len() - 1;
    assert forall|d: int| 0 <= d < cap && (#[trigger] map[d]) is Some implies map[d]->0 < buf2.len()
        && buf2[map[d]->0 as int].item_id() == d by {
        let s = map[d]->0 as int;
        assert(buf[s].item_id() == d);
        if s == top {
            assert(maps_to(map, buf[top].item_id() as int, top));
        }
    }
    assert forall|q: int| 0 <= q < buf2.len() implies (dead.remove(top).contains(q) <==> !maps_to(
        map,
        (#[trigger] buf2[q]).item_id() as int,
        q,
    )) by {
        assert(buf2[q] == buf[q]);
        assert(dead.contains(q) <==> !maps_to(map, buf[q].item_id() as int, q));
    }
    assert forall|q: int| 0 <= q < buf2.len() implies (#[trigger] buf2[q]).item_id() < cap by {
        assert(buf2[q] == buf[q]);
    }
}

/// Moving the live last item down into a dead slot.
proof fn lemma_indexed_move_last<T: GpuIndexedItem>(
    buf: Seq<T>,
    map: Seq<Option<usize>>,
    cap: usize,
    dead: Set<int>,
    p: int,
    x: T,
)
    requires
        indexed(buf, map, cap, dead),
        0 <= p < buf.len() - 1,
        buf.len() <= usize::MAX,
        dead.contains(p),
        !dead.contains(buf.len() - 1),
        x.item_id() == buf.last().item_id(),
    ensures
        indexed(
            buf.drop_last().update(p, x),
            map.update(x.item_id() as int, Some(p as usize)),
            cap,
            dead.remove(p),
        ),
{
    let top = buf.len() - 1;
    let e = x.item_id() as int;
    let buf2 = buf.drop_last().update(p, x);
    let map2 = map.update(e, Some(p as usize));
    assert(buf[top] == buf.last());
    assert(maps_to(map, e, top));
    assert forall|d: int| 0 <= d < cap && (#[trigger] map2[d]) is Some implies map2[d]->0 < buf2.len()
        && buf2[map2[d]->0 as int].item_id() == d by {
        if d != e {
            let s = map[d]->0 as int;
            assert(buf[s].item_id() == d);
            if s == p {
                assert(maps_to(map, buf[p].item_id() as int, p));
            }
            if s == top {
                assert(d == e);
            }
        }
    }
    assert forall|q: int| 0 <= q < buf2.len() implies (dead.remove(p).contains(q) <==> !maps_to(
        map2,
        (#[trigger] buf2[q]).item_id() as int,
        q,
    )) by {
        if q != p {
            assert(buf2[q] == buf[q]);
            assert(dead.contains(q) <==> !maps_to(map, buf[q].item_id() as int, q));
        }
    }
    assert forall|q: int| 0 <= q < buf2.len() implies (#[trigger] buf2[q]).item_id() < cap by {
        if q != p {
            assert(buf2[q] == buf[q]);
        }
    }
}

proof fn lemma_slots_between_drop_first(q: Seq<usize>, lo: int, hi: int)
    requires
        0 <= lo < hi <= q.len(),
        strictly_increasing(q),
    ensures
        slots_between(q, lo + 1, hi) == slots_between(q, lo, hi).remove(q[lo] as int),
{
    assert forall|p: int| #[trigger] slots_between(q, lo + 1, hi).contains(p) <==> slots_between(
        q,
        lo,
        hi,
    ).remove(q[lo] as int).contains(p) by {
        if slots_between(q, lo + 1, hi).contains(p) {
            let j = choose|j: int| lo + 1 <= j < hi && #[trigger] q[j] as int == p;
            assert(q[lo] < q[j]);
        }
        if slots_between(q, lo, hi).remove(q[lo] as int).contains(p) {
            let j = choose|j: int| lo <= j < hi && #[trigger] q[j] as int == p;
            assert(j != lo);
        }
    }
    assert(slots_between(q, lo + 1, hi) =~= slots_between(q, lo, hi).remove(q[lo] as int));
}

proof fn lemma_slots_between_drop_last(q: Seq<usize>, lo: int, hi: int)
    requires
        0 <= lo < hi <= q.len(),
        strictly_increasing(q),
    ensures
        slots_between(q, lo, hi - 1) == slots_between(q, lo, hi).remove(q[hi - 1] as int),
{
    assert forall|p: int| #[trigger] slots_between(q, lo, hi - 1).contains(p) <==> slots_between(
        q,
        lo,
        hi,
    ).remove(q[hi - 1] as int).contains(p) by {
        if slots_between(q, lo, hi - 1).contains(p) {
            let j = choose|j: int| lo <= j < hi - 1 && #[trigger] q[j] as int == p;
            assert(q[j] < q[hi - 1]);
        }
        if slots_between(q, lo, hi).remove(q[hi - 1] as int).contains(p) {
            let j = choose|j: int| lo <= j < hi && #[trigger] q[j] as int == p;
            assert(j != hi - 1);
        }
    }
    assert(slots_between(q, lo, hi - 1) =~= slots_between(q, lo, hi).remove(q[hi - 1] as int));
}

/// Some write of `ws` goes to the slot `p`.
pub open spec fn writes_to<T>(ws: Seq<(usize, T)>, p: int) -> bool {
    exists|i: int| 0 <= i < ws.len() && (#[trigger] ws[i]).0 == p
}

/// `after` is `before` patched by the writes `ws`: the writes go to distinct
/// slots of `after`, each slot written holds its write, and every other slot
/// of `after` holds what `before` held there.
pub open spec fn patches<T>(before: Seq<T>, ws: Seq<(usize, T)>, after: Seq<T>) -> bool {
    &&& forall|i: int, j: int| 0 <= i < j < ws.len() ==> (#[trigger] ws[i]).0 != (#[trigger] ws[j]).0
    &&& forall|i: int| 0 <= i < ws.len() ==> (#[trigger] ws[i]).0 < after.len() && after[ws[i].0 as int] == ws[i].1
    &&& forall|p: int|
        #![trigger after[p]]
        #![trigger writes_to(ws, p)]
        0 <= p < after.len() && !writes_to(ws, p) ==> p < before.len() && after[p] == before[p]
}

/// Where the items are after a sync, by id: each pushed item, made ready by
/// `init`, in the slot that its id now maps to; each item that had a slot
/// either still there and unchanged, or moved to another slot, as `reused`
/// makes it.
pub open spec fn placed<T: GpuIndexedItem>(
    old_items: Seq<T>,
    old_slots: Seq<Option<usize>>,
    pushes: Seq<T>,
    items: Seq<T>,
    slots: Seq<Option<usize>>,
) -> bool {
    &&& forall|k: int|
        0 <= k < pushes.len() ==> {
            let d = (#[trigger] pushes[k]).item_id() as int;
            &&& slots[d] is Some
            &&& items[slots[d]->0 as int] == pushes[k].init_spec()
        }
    &&& forall|d: int|
        0 <= d < old_slots.len() && (#[trigger] old_slots[d]) is Some ==> {
            let q = old_slots[d]->0 as int;
            let p = slots[d]->0 as int;
            &&& slots[d] is Some
            &&& (p == q && items[p] == old_items[q]) || (p != q && items[p] == old_items[q].reused_spec())
        }
}

/// What a sync has done so far: the array `buf` is the old one `b0` patched by
/// the writes `ws`, which go to the removed slots `rq[0..lo]` or past the old
/// end; the pushed items placed so far sit, made ready, in written slots their
/// ids map to; an old item is either in its old slot, not written, or moved to a
/// written slot as `reused` makes it.
spec fn sync_tracked<T: GpuIndexedItem>(
    b0: Seq<T>,
    m0: Seq<Option<usize>>,
    pushed: Seq<T>,
    rq: Seq<usize>,
    lo: int,
    buf: Seq<T>,
    map: Seq<Option<usize>>,
    ws: Seq<(usize, T)>,
) -> bool {
    &&& patches(b0, ws, buf)
    &&& forall|j: int|
        0 <= j < ws.len() ==> slots_between(rq, 0, lo).contains((#[trigger] ws[j]).0 as int) || ws[j].0 >= b0.len()
    &&& forall|k: int|
        0 <= k < pushed.len() ==> {
            let d = (#[trigger] pushed[k]).item_id() as int;
            &&& map[d] is Some
            &&& writes_to(ws, map[d]->0 as int)
            &&& buf[map[d]->0 as int] == pushed[k].init_spec()
        }
    &&& forall|d: int|
        0 <= d < m0.len() && (#[trigger] m0[d]) is Some ==> {
            let q = m0[d]->0 as int;
            let p = map[d]->0 as int;
            &&& map[d] is Some
            &&& (p == q && !writes_to(ws, p)) || (p != q && writes_to(ws, p) && buf[p] == b0[q].reused_spec())
        }
}

/// The slot `rq[lo]` has no write yet.
proof fn lemma_next_slot_unwritten<T: GpuIndexedItem>(
    b0: Seq<T>,
    rq: Seq<usize>,
    lo: int,
    ws: Seq<(usize, T)>,
)
    requires
        0 <= lo < rq.len(),
        strictly_increasing(rq),
        forall|j: int| 0 <= j < rq.len() ==> #[trigger] rq[j] < b0.len(),
        forall|j: int|
            0 <= j < ws.len() ==> slots_between(rq, 0, lo).contains((#[trigger] ws[j]).0 as int) || ws[j].0
                >= b0.len(),
    ensures
        !writes_to(ws, rq[lo] as int),
        forall|j: int| 0 <= j < ws.len() ==> (#[trigger] ws[j]).0 != rq[lo] && (ws[j].0 >= b0.len() || ws[j].0 < rq[lo]),
{
    assert forall|j: int| 0 <= j < ws.len() implies (#[trigger] ws[j]).0 != rq[lo] && (ws[j].0 >= b0.len() || ws[j].0 < rq[lo]) by {
        if ws[j].0 < b0.len() {
            assert(slots_between(rq, 0, lo).contains(ws[j].0 as int));
            let l = choose|l: int| 0 <= l < lo && #[trigger] rq[l] as int == ws[j].0 as int;
            assert(rq[l] < rq[lo]);
        }
    }
}

/// A pushed item placed in the removed slot `rq[lo]`.
proof fn lemma_track_place<T: GpuIndexedItem>(
    b0: Seq<T>,
    m0: Seq<Option<usize>>,
    pq: Seq<T>,
    i: int,
    rq: Seq<usize>,
    lo: int,
    buf: Seq<T>,
    map: Seq<Option<usize>>,
    ws: Seq<(usize, T)>,
    cap: usize,
)
    requires
        sync_tracked(b0, m0, pq.take(i), rq, lo, buf, map, ws),
        0 <= i < pq.len(),
        0 <= lo < rq.len(),
        strictly_increasing(rq),
        forall|j: int| 0 <= j < rq.len() ==> #[trigger] rq[j] < b0.len(),
        b0.len() <= buf.len(),
        indexed(buf, map, cap, slots_between(rq, lo, rq.len() as int)),
        m0.len() == cap,
        forall|k: int| 0 <= k < pq.len() ==> (#[trigger] pq[k]).item_id() < cap,
        pq[i].init_spec().item_id() == pq[i].item_id(),
        map[pq[i].item_id() as int] is None,
        m0[pq[i].item_id() as int] is None,
        forall|k: int, l: int| 0 <= k < l < pq.len() ==> (#[trigger] pq[k]).item_id() != (#[trigger] pq[l]).item_id(),
    ensures
        ({
            let t = rq[lo];
            let item = pq[i].init_spec();
            sync_tracked(
                b0,
                m0,
                pq.take(i + 1),
                rq,
                lo + 1,
                buf.update(t as int, item),
                map.update(item.item_id() as int, Some(t)),
                ws.push((t, item)),
            )
        }),
{
    let t = rq[lo];
    let item = pq[i].init_spec();
    let e = item.item_id() as int;
    let buf2 = buf.update(t as int, item);
    let map2 = map.update(e, Some(t));
    let ws2 = ws.push((t, item));
    lemma_next_slot_unwritten(b0, rq, lo, ws);
    assert(slots_between(rq, lo, rq.len() as int).contains(t as int));
    assert forall|p: int| writes_to(ws2, p) <==> writes_to(ws, p) || p == t as int by {
        if writes_to(ws2, p) {
            let j = choose|j: int| 0 <= j < ws2.len() && (#[trigger] ws2[j]).0 == p;
            if j < ws.len() {
                assert(ws[j] == ws2[j]);
            }
        }
        if writes_to(ws, p) {
            let j = choose|j: int| 0 <= j < ws.len() && (#[trigger] ws[j]).0 == p;
            assert(ws2[j] == ws[j]);
        }
        if p == t as int {
            assert(ws2[ws.len() as int].0 == p);
        }
    }
    // patches
    assert forall|a: int, b: int| 0 <= a < b < ws2.len() implies (#[trigger] ws2[a]).0 != (#[trigger] ws2[b]).0 by {
        assert(ws2[a] == ws[a]);
        if b < ws.len() {
            assert(ws2[b] == ws[b]);
        }
    }
    assert forall|a: int| 0 <= a < ws2.len() implies (#[trigger] ws2[a]).0 < buf2.len() && buf2[ws2[a].0 as int]
        == ws2[a].1 by {
        if a < ws.len() {
            assert(ws2[a] == ws[a]);
        }
    }
    assert forall|p: int|
        #![trigger buf2[p]]
        #![trigger writes_to(ws2, p)]
        0 <= p < buf2.len() && !writes_to(ws2, p) implies p < b0.len() && buf2[p] == b0[p] by {
        assert(p != t as int);
        assert(!writes_to(ws, p));
        assert(buf2[p] == buf[p]);
        assert(buf[p] == b0[p]);
    }
    assert forall|j: int| 0 <= j < ws2.len() implies slots_between(rq, 0, lo + 1).contains((#[trigger] ws2[j]).0 as int)
        || ws2[j].0 >= b0.len() by {
        if j < ws.len() {
            assert(ws2[j] == ws[j]);
            if slots_between(rq, 0, lo).contains(ws[j].0 as int) {
                let l = choose|l: int| 0 <= l < lo && #[trigger] rq[l] as int == ws[j].0 as int;
            }
        } else {
            assert(rq[lo] as int == ws2[j].0 as int);
        }
    }
    let pushed2 = pq.take(i + 1);
    assert forall|k: int| 0 <= k < pushed2.len() implies {
        let d = (#[trigger] pushed2[k]).item_id() as int;
        &&& map2[d] is Some
        &&& writes_to(ws2, map2[d]->0 as int)
        &&& buf2[map2[d]->0 as int] == pushed2[k].init_spec()
    } by {
        assert(pushed2[k] == pq[k]);
        if k < i {
            assert(pq.take(i)[k] == pq[k]);
            let d = pq[k].item_id() as int;
            assert(pq[k].item_id() != pq[i].item_id());
            assert(writes_to(ws, map[d]->0 as int));
            assert(map[d]->0 != t);
            assert(map2[d] == map[d]);
            assert(writes_to(ws2, map[d]->0 as int));
            assert(buf2[map[d]->0 as int] == buf[map[d]->0 as int]);
        } else {
            assert(map2[e] == Some(t));
            assert(writes_to(ws2, t as int));
        }
    }
    assert forall|d: int| 0 <= d < m0.len() && (#[trigger] m0[d]) is Some implies {
        let q = m0[d]->0 as int;
        let p = map2[d]->0 as int;
        &&& map2[d] is Some
        &&& (p == q && !writes_to(ws2, p)) || (p != q && writes_to(ws2, p) && buf2[p] == b0[q].reused_spec())
    } by {
        assert(d != e);
        let q = m0[d]->0 as int;
        let p = map[d]->0 as int;
        assert(map[d] is Some);
        assert((p == q && !writes_to(ws, p)) || (p != q && writes_to(ws, p) && buf[p] == b0[q].reused_spec()));
        assert(buf[p].item_id() == d);
        assert(maps_to(map, buf[p].item_id() as int, p));
        assert(p != t as int);
        assert(map2[d] == map[d]);
        assert(writes_to(ws2, p) == writes_to(ws, p));
        assert(buf2[p] == buf[p]);
    }
    assert(patches(b0, ws2, buf2));
}

/// A pushed item appended past the end, once no removed slot is left.
proof fn lemma_track_append<T: GpuIndexedItem>(
    b0: Seq<T>,
    m0: Seq<Option<usize>>,
    pq: Seq<T>,
    i: int,
    rq: Seq<usize>,
    buf: Seq<T>,
    map: Seq<Option<usize>>,
    ws: Seq<(usize, T)>,
    cap: usize,
)
    requires
        sync_tracked(b0, m0, pq.take(i), rq, rq.len() as int, buf, map, ws),
        0 <= i < pq.len(),
        b0.len() <= buf.len() <= usize::MAX,
        indexed(buf, map, cap, slots_between(rq, rq.len() as int, rq.len() as int)),
        m0.len() == cap,
        forall|k: int| 0 <= k < pq.len() ==> (#[trigger] pq[k]).item_id() < cap,
        pq[i].init_spec().item_id() == pq[i].item_id(),
        map[pq[i].item_id() as int] is None,
        m0[pq[i].item_id() as int] is None,
        forall|k: int, l: int| 0 <= k < l < pq.len() ==> (#[trigger] pq[k]).item_id() != (#[trigger] pq[l]).item_id(),
    ensures
        ({
            let t = buf.len() as usize;
            let item = pq[i].init_spec();
            sync_tracked(
                b0,
                m0,
                pq.take(i + 1),
                rq,
                rq.len() as int,
                buf.push(item),
                map.update(item.item_id() as int, Some(t)),
                ws.push((t, item)),
            )
        }),
{
    let t = buf.len() as usize;
    let item = pq[i].init_spec();
    let e = item.item_id() as int;
    let buf2 = buf.push(item);
    let map2 = map.update(e, Some(t));
    let ws2 = ws.push((t, item));
    let lo = rq.len() as int;
    assert forall|p: int| writes_to(ws2, p) <==> writes_to(ws, p) || p == t as int by {
        if writes_to(ws2, p) {
            let j = choose|j: int| 0 <= j < ws2.len() && (#[trigger] ws2[j]).0 == p;
            if j < ws.len() {
                assert(ws[j] == ws2[j]);
            }
        }
        if writes_to(ws, p) {
            let j = choose|j: int| 0 <= j < ws.len() && (#[trigger] ws[j]).0 == p;
            assert(ws2[j] == ws[j]);
        }
        if p == t as int {
            assert(ws2[ws.len() as int].0 == p);
        }
    }
    assert(!writes_to(ws, t as int)) by {
        if writes_to(ws, t as int) {
            let j = choose|j: int| 0 <= j < ws.len() && (#[trigger] ws[j]).0 == t as int;
        }
    }
    assert forall|a: int, b: int| 0 <= a < b < ws2.len() implies (#[trigger] ws2[a]).0 != (#[trigger] ws2[b]).0 by {
        assert(ws2[a] == ws[a]);
        if b < ws.len() {
            assert(ws2[b] == ws[b]);
        }
    }
    assert forall|a: int| 0 <= a < ws2.len() implies (#[trigger] ws2[a]).0 < buf2.len() && buf2[ws2[a].0 as int]
        == ws2[a].1 by {
        if a < ws.len() {
            assert(ws2[a] == ws[a]);
        }
    }
    assert forall|p: int|
        #![trigger buf2[p]]
        #![trigger writes_to(ws2, p)]
        0 <= p < buf2.len() && !writes_to(ws2, p) implies p < b0.len() && buf2[p] == b0[p] by {
        assert(p != t as int);
        assert(!writes_to(ws, p));
        assert(buf2[p] == buf[p]);
    }
    assert forall|j: int| 0 <= j < ws2.len() implies slots_between(rq, 0, lo).contains((#[trigger] ws2[j]).0 as int)
        || ws2[j].0 >= b0.len() by {
        if j < ws.len() {
            assert(ws2[j] == ws[j]);
        }
    }
    let pushed2 = pq.take(i + 1);
    assert forall|k: int| 0 <= k < pushed2.len() implies {
        let d = (#[trigger] pushed2[k]).item_id() as int;
        &&& map2[d] is Some
        &&& writes_to(ws2, map2[d]->0 as int)
        &&& buf2[map2[d]->0 as int] == pushed2[k].init_spec()
    } by {
        assert(pushed2[k] == pq[k]);
        if k < i {
            assert(pq.take(i)[k] == pq[k]);
            let d = pq[k].item_id() as int;
            assert(pq[k].item_id() != pq[i].item_id());
            assert(writes_to(ws, map[d]->0 as int));
            let j = choose|j: int| 0 <= j < ws.len() && (#[trigger] ws[j]).0 == map[d]->0 as int;
            assert(map2[d] == map[d]);
            assert(writes_to(ws2, map[d]->0 as int));
            assert(buf2[map[d]->0 as int] == buf[map[d]->0 as int]);
        } else {
            assert(map2[e] == Some(t));
            assert(writes_to(ws2, t as int));
        }
    }
    assert forall|d: int| 0 <= d < m0.len() && (#[trigger] m0[d]) is Some implies {
        let q = m0[d]->0 as int;
        let p = map2[d]->0 as int;
        &&& map2[d] is Some
        &&& (p == q && !writes_to(ws2, p)) || (p != q && writes_to(ws2, p) && buf2[p] == b0[q].reused_spec())
    } by {
        assert(d != e);
        let q = m0[d]->0 as int;
        let p = map[d]->0 as int;
        assert(map[d] is Some);
        assert((p == q && !writes_to(ws, p)) || (p != q && writes_to(ws, p) && buf[p] == b0[q].reused_spec()));
        assert(p < buf.len());
        assert(map2[d] == map[d]);
        assert(writes_to(ws2, p) == writes_to(ws, p));
        assert(buf2[p] == buf[p]);
    }
    assert(patches(b0, ws2, buf2));
}

/// The last slot, a removed one, cut off.
proof fn lemma_track_pop<T: GpuIndexedItem>(
    b0: Seq<T>,
    m0: Seq<Option<usize>>,
    pq: Seq<T>,
    rq: Seq<usize>,
    lo: int,
    hi: int,
    buf: Seq<T>,
    map: Seq<Option<usize>>,
    ws: Seq<(usize, T)>,
    cap: usize,
)
    requires
        sync_tracked(b0, m0, pq, rq, lo, buf, map, ws),
        0 <= lo < hi <= rq.len(),
        strictly_increasing(rq),
        forall|j: int| 0 <= j < rq.len() ==> #[trigger] rq[j] < b0.len(),
        0 < buf.len() <= b0.len(),
        rq[hi - 1] == buf.len() - 1,
        indexed(buf, map, cap, slots_between(rq, lo, hi)),
        m0.len() == cap,
        forall|k: int| 0 <= k < pq.len() ==> (#[trigger] pq[k]).item_id() < cap,
    ensures
        sync_tracked(b0, m0, pq, rq, lo, buf.drop_last(), map, ws),
{
    let top = buf.len() - 1;
    let buf2 = buf.drop_last();
    assert(!writes_to(ws, top)) by {
        if writes_to(ws, top) {
            let j = choose|j: int| 0 <= j < ws.len() && (#[trigger] ws[j]).0 == top;
            assert(ws[j].0 < buf.len());
            assert(slots_between(rq, 0, lo).contains(ws[j].0 as int));
            let l = choose|l: int| 0 <= l < lo && #[trigger] rq[l] as int == ws[j].0 as int;
            assert(rq[l] < rq[hi - 1]);
        }
    }
    assert(slots_between(rq, lo, hi).contains(top));
    assert forall|a: int| 0 <= a < ws.len() implies (#[trigger] ws[a]).0 < buf2.len() && buf2[ws[a].0 as int]
        == ws[a].1 by {
        assert(ws[a].0 != top);
    }
    assert forall|p: int|
        #![trigger buf2[p]]
        #![trigger writes_to(ws, p)]
        0 <= p < buf2.len() && !writes_to(ws, p) implies p < b0.len() && buf2[p] == b0[p] by {
        assert(buf2[p] == buf[p]);
    }
    assert forall|k: int| 0 <= k < pq.len() implies {
        let d = (#[trigger] pq[k]).item_id() as int;
        &&& map[d] is Some
        &&& writes_to(ws, map[d]->0 as int)
        &&& buf2[map[d]->0 as int] == pq[k].init_spec()
    } by {
        let d = pq[k].item_id() as int;
        let j = choose|j: int| 0 <= j < ws.len() && (#[trigger] ws[j]).0 == map[d]->0 as int;
        assert(map[d]->0 != top);
    }
    assert forall|d: int| 0 <= d < m0.len() && (#[trigger] m0[d]) is Some implies {
        let q = m0[d]->0 as int;
        let p = map[d]->0 as int;
        &&& map[d] is Some
        &&& (p == q && !writes_to(ws, p)) || (p != q && writes_to(ws, p) && buf2[p] == b0[q].reused_spec())
    } by {
        let p = map[d]->0 as int;
        assert(buf[p].item_id() == d);
        assert(maps_to(map, buf[p].item_id() as int, p));
        assert(p != top);
        assert(buf2[p] == buf[p]);
    }
    assert(patches(b0, ws, buf2));
}

/// The last item, a live one, moved down into the removed slot `rq[lo]`.
proof fn lemma_track_move<T: GpuIndexedItem>(
    b0: Seq<T>,
    m0: Seq<Option<usize>>,
    pq: Seq<T>,
    rq: Seq<usize>,
    lo: int,
    hi: int,
    buf: Seq<T>,
    map: Seq<Option<usize>>,
    ws: Seq<(usize, T)>,
    cap: usize,
    swap: T,
)
    requires
        sync_tracked(b0, m0, pq, rq, lo, buf, map, ws),
        0 <= lo < hi <= rq.len(),
        strictly_increasing(rq),
        forall|j: int| 0 <= j < rq.len() ==> #[trigger] rq[j] < b0.len(),
        0 < buf.len() <= b0.len(),
        rq[lo] < buf.len() - 1,
        !slots_in(rq).contains(buf.len() - 1),
        forall|p: int| 0 <= p < b0.len() && !slots_in(rq).contains(p) ==> #[trigger] maps_to(
            m0,
            b0[p].item_id() as int,
            p,
        ),
        indexed(buf, map, cap, slots_between(rq, lo, hi)),
        !slots_between(rq, lo, hi).contains(buf.len() - 1),
        m0.len() == cap,
        forall|k: int| 0 <= k < pq.len() ==> (#[trigger] pq[k]).item_id() < cap,
        forall|k: int| 0 <= k < pq.len() ==> m0[(#[trigger] pq[k]).item_id() as int] is None,
        swap == buf.last().reused_spec(),
        swap.item_id() == buf.last().item_id(),
    ensures
        ({
            let t = rq[lo];
            sync_tracked(
                b0,
                m0,
                pq,
                rq,
                lo + 1,
                buf.drop_last().update(t as int, swap),
                map.update(swap.item_id() as int, Some(t)),
                ws.push((t, swap)),
            )
        }),
{
    let top = buf.len() - 1;
    let t = rq[lo];
    let e = swap.item_id() as int;
    let buf2 = buf.drop_last().update(t as int, swap);
    let map2 = map.update(e, Some(t));
    let ws2 = ws.push((t, swap));
    lemma_next_slot_unwritten(b0, rq, lo, ws);
    assert(slots_between(rq, lo, hi).contains(t as int));
    assert(!writes_to(ws, top)) by {
        if writes_to(ws, top) {
            let j = choose|j: int| 0 <= j < ws.len() && (#[trigger] ws[j]).0 == top;
        }
    }
    assert(buf[top] == b0[top]);
    assert(buf.last() == buf[top]);
    assert(maps_to(m0, b0[top].item_id() as int, top));
    assert(maps_to(map, buf[top].item_id() as int, top));
    assert forall|p: int| writes_to(ws2, p) <==> writes_to(ws, p) || p == t as int by {
        if writes_to(ws2, p) {
            let j = choose|j: int| 0 <= j < ws2.len() && (#[trigger] ws2[j]).0 == p;
            if j < ws.len() {
                assert(ws[j] == ws2[j]);
            }
        }
        if writes_to(ws, p) {
            let j = choose|j: int| 0 <= j < ws.len() && (#[trigger] ws[j]).0 == p;
            assert(ws2[j] == ws[j]);
        }
        if p == t as int {
            assert(ws2[ws.len() as int].0 == p);
        }
    }
    assert forall|a: int, b: int| 0 <= a < b < ws2.len() implies (#[trigger] ws2[a]).0 != (#[trigger] ws2[b]).0 by {
        assert(ws2[a] == ws[a]);
        if b < ws.len() {
            assert(ws2[b] == ws[b]);
        }
    }
    assert forall|a: int| 0 <= a < ws2.len() implies (#[trigger] ws2[a]).0 < buf2.len() && buf2[ws2[a].0 as int]
        == ws2[a].1 by {
        if a < ws.len() {
            assert(ws2[a] == ws[a]);
            assert(ws[a].0 != top);
        }
    }
    assert forall|p: int|
        #![trigger buf2[p]]
        #![trigger writes_to(ws2, p)]
        0 <= p < buf2.len() && !writes_to(ws2, p) implies p < b0.len() && buf2[p] == b0[p] by {
        assert(p != t as int);
        assert(!writes_to(ws, p));
        assert(buf2[p] == buf[p]);
    }
    assert forall|j: int| 0 <= j < ws2.len() implies slots_between(rq, 0, lo + 1).contains((#[trigger] ws2[j]).0 as int)
        || ws2[j].0 >= b0.len() by {
        if j < ws.len() {
            assert(ws2[j] == ws[j]);
            if slots_between(rq, 0, lo).contains(ws[j].0 as int) {
                let l = choose|l: int| 0 <= l < lo && #[trigger] rq[l] as int == ws[j].0 as int;
            }
        } else {
            assert(rq[lo] as int == ws2[j].0 as int);
        }
    }
    assert forall|k: int| 0 <= k < pq.len() implies {
        let d = (#[trigger] pq[k]).item_id() as int;
        &&& map2[d] is Some
        &&& writes_to(ws2, map2[d]->0 as int)
        &&& buf2[map2[d]->0 as int] == pq[k].init_spec()
    } by {
        let d = pq[k].item_id() as int;
        assert(d != e);
        let s = map[d]->0 as int;
        assert(writes_to(ws, s));
        assert(s != top);
        assert(s != t as int);
        assert(map2[d] == map[d]);
        assert(writes_to(ws2, s));
        assert(buf2[s] == buf[s]);
    }
    assert forall|d: int| 0 <= d < m0.len() && (#[trigger] m0[d]) is Some implies {
        let q = m0[d]->0 as int;
        let p = map2[d]->0 as int;
        &&& map2[d] is Some
        &&& (p == q && !writes_to(ws2, p)) || (p != q && writes_to(ws2, p) && buf2[p] == b0[q].reused_spec())
    } by {
        let q = m0[d]->0 as int;
        if d == e {
            assert(q == top);
            assert(map2[d] == Some(t));
            assert(writes_to(ws2, t as int));
        } else {
            let p = map[d]->0 as int;
            assert(map[d] is Some);
            assert((p == q && !writes_to(ws, p)) || (p != q && writes_to(ws, p) && buf[p] == b0[q].reused_spec()));
            assert(buf[p].item_id() == d);
            assert(maps_to(map, buf[p].item_id() as int, p));
            assert(p != t as int);
            assert(p != top);
            assert(map2[d] == map[d]);
            assert(writes_to(ws2, p) == writes_to(ws, p));
            assert(buf2[p] == buf[p]);
        }
    }
    assert(patches(b0, ws2, buf2));
}

proof fn lemma_apply_writes_push<T>(base: Seq<T>, ws: Seq<(usize, T)>, w: (usize, T))
    ensures
        apply_writes(base, ws.push(w)) == apply_write(apply_writes(base, ws), w),
{
    assert(ws.push(w).drop_last() =~= ws);
}

proof fn lemma_encode_writes_push<T: GpuIndexedItem>(ws: Seq<(usize, T)>, w: (usize, T))
    ensures
        encode_writes(ws.push(w)) == encode_writes(ws).push(w.1.write_spec(w.0)),
{
    assert(encode_writes(ws.push(w)) =~= encode_writes(ws).push(w.1.write_spec(w.0)));
}

/// Sorts the queued slots with `slice::sort`. Trusted: std documents that it
/// sorts in ascending order, so the result is a permutation of the input (same
/// multiset of values) in non-decreasing order.
#[verifier::external_body]
fn sort_slots(v: &mut Vec<usize>)
    ensures
        final(v)@.to_multiset() == old(v)@.to_multiset(),
        forall|i: int, j: int| 0 <= i <= j < final(v)@.len() ==> final(v)@[i] <= final(v)@[j],
{
    v.sort();
}

/// A CPU-side vector of GPU items whose changes (pushes and removals by id) are
/// queued and then turned, by `sync_delta`, into a short list of slot writes for
/// the GPU copy. Removed slots are refilled by pushed items first, then by items
/// moved down from the end, so the array stays dense.
pub struct VxGpuSyncVec<T: GpuIndexedItem> {
    capacity: usize,
    buffer: Vec<T>,
    push_queue: Vec<T>,
    remove_queue: Vec<usize>,
    write_queue: Vec<T::WriteEntry>,
    buffer_mapping: Vec<Option<usize>>,
    synced_writes: Ghost<Seq<(usize, T)>>,
}

impl<T: GpuIndexedItem> VxGpuSyncVec<T> {
    /// The items, in slot order.
    pub closed spec fn items(&self) -> Seq<T> {
        self.buffer@
    }

    /// For each id below the capacity, the slot that holds its item, if any.
    pub closed spec fn slot_of(&self) -> Seq<Option<usize>> {
        self.buffer_mapping@
    }

    /// The items pushed since the last sync.
    pub closed spec fn pending_pushes(&self) -> Seq<T> {
        self.push_queue@
    }

    /// The slots emptied by removals since the last sync.
    pub closed spec fn pending_removals(&self) -> Seq<usize> {
        self.remove_queue@
    }

    pub closed spec fn spec_capacity(&self) -> usize {
        self.capacity
    }

    /// The slot writes produced by the last sync, as (slot, item) pairs.
    pub closed spec fn last_writes(&self) -> Seq<(usize, T)> {
        self.synced_writes@
    }

    pub closed spec fn wf(&self) -> bool {
        &&& indexed(self.buffer@, self.buffer_mapping@, self.capacity, slots_in(self.remove_queue@))
        &&& self.remove_queue@.no_duplicates()
        &&& forall|i: int|
            0 <= i < self.remove_queue@.len() ==> #[trigger] self.remove_queue@[i] < self.buffer@.len()
    }

    /// The pushes since the last sync have distinct ids below the capacity, none
    /// of which has an item in the array.
    pub open spec fn pushes_valid(&self) -> bool {
        &&& forall|k: int|
            0 <= k < self.pending_pushes().len() ==> {
                &&& (#[trigger] self.pending_pushes()[k]).item_id() < self.spec_capacity()
                &&& self.slot_of()[self.pending_pushes()[k].item_id() as int] is None
            }
        &&& forall|k: int, l: int|
            0 <= k < l < self.pending_pushes().len() ==> (#[trigger] self.pending_pushes()[k]).item_id()
                != (#[trigger] self.pending_pushes()[l]).item_id()
    }

    /// What a well-formed array shows of itself: an id map of one entry per id
    /// below the capacity, items whose ids are below it, mapped ids that name a
    /// slot holding the item of that id, and pending removals inside the array.
    pub proof fn lemma_wf_shape(&self)
        requires
            self.wf(),
        ensures
            self.slot_of().len() == self.spec_capacity(),
            forall|p: int| 0 <= p < self.items().len() ==> (#[trigger] self.items()[p]).item_id() < self.spec_capacity(),
            forall|d: int|
                0 <= d < self.spec_capacity() && (#[trigger] self.slot_of()[d]) is Some ==> {
                    &&& self.slot_of()[d]->0 < self.items().len()
                    &&& self.items()[self.slot_of()[d]->0 as int].item_id() == d
                },
            forall|i: int|
                0 <= i < self.pending_removals().len() ==> #[trigger] self.pending_removals()[i]
                    < self.items().len(),
    {
    }

    /// With no removal pending (as after a sync), the array and the id map
    /// agree: every item's id maps to the item's slot, and every mapped id to a
    /// slot that holds the item of that id.
    pub proof fn lemma_synced_index(&self)
        requires
            self.wf(),
            self.pending_removals() == Seq::<usize>::empty(),
        ensures
            self.slot_of().len() == self.spec_capacity(),
            forall|p: int|
                0 <= p < self.items().len() ==> {
                    &&& (#[trigger] self.items()[p]).item_id() < self.spec_capacity()
                    &&& self.slot_of()[self.items()[p].item_id() as int] == Some(p as usize)
                },
            forall|d: int|
                0 <= d < self.spec_capacity() && (#[trigger] self.slot_of()[d]) is Some ==> {
                    &&& self.slot_of()[d]->0 < self.items().len()
                    &&& self.items()[self.slot_of()[d]->0 as int].item_id() == d
                },
    {
        assert forall|p: int| 0 <= p < self.items().len() implies self.slot_of()[(
        #[trigger] self.items()[p]).item_id() as int] == Some(p as usize) by {
            assert(!slots_in(self.remove_queue@).contains(p));
        }
    }

    /// With no removal pending (as after a sync), the array holds one item per
    /// id that has one: its length is the number of those ids.
    pub proof fn lemma_len_is_live_count(&self)
        requires
            self.wf(),
            self.pending_removals() == Seq::<usize>::empty(),
        ensures
            self.items().len() == live_ids(self.slot_of()).len(),
    {
        self.lemma_synced_index();
        let n = self.items().len() as int;
        let f = |p: int| self.items()[p].item_id() as int;
        let x = set_int_range(0, n);
        let y = live_ids(self.slot_of());
        lemma_int_range(0, n);
        assert(injective_on(f, x)) by {
            assert forall|p1: int, p2: int| x.contains(p1) && x.contains(p2) && #[trigger] f(p1) == #[trigger] f(
                p2,
            ) implies p1 == p2 by {
                assert(self.slot_of()[self.items()[p1].item_id() as int] == Some(p1 as usize));
                assert(self.slot_of()[self.items()[p2].item_id() as int] == Some(p2 as usize));
            }
        }
        assert(x.map(f) =~= y) by {
            assert forall|d: int| #[trigger] y.contains(d) implies x.map(f).contains(d) by {
                let p = self.slot_of()[d]->0 as int;
                assert(x.contains(p) && f(p) == d);
            }
            assert forall|d: int| #[trigger] x.map(f).contains(d) implies y.contains(d) by {
                let p = choose|p: int| x.contains(p) && f(p) == d;
                assert(self.items()[p].item_id() < self.spec_capacity());
            }
        }
        lemma_map_size(x, y, f);
    }

    pub fn new(capacity: usize, queue_capacity: usize) -> (r: Self)
        ensures
            r.wf(),
            r.spec_capacity() == capacity,
            r.items() == Seq::<T>::empty(),
            r.slot_of() == Seq::new(capacity as nat, |d: int| None::<usize>),
            r.pending_pushes() == Seq::<T>::empty(),
            r.pending_removals() == Seq::<usize>::empty(),
            r.pushes_valid(),
    {
        let mut buffer_mapping: Vec<Option<usize>> = Vec::with_capacity(capacity);
        let mut i: usize = 0;
        while i < capacity
            invariant
                i <= capacity,
                buffer_mapping@ == Seq::new(i as nat, |d: int| None::<usize>),
            decreases capacity - i,
        {
            buffer_mapping.push(None);
            i = i + 1;
        }
        Self {
            capacity,
            buffer: Vec::with_capacity(capacity),
            remove_queue: Vec::with_capacity(queue_capacity),
            push_queue: Vec::with_capacity(queue_capacity),
            write_queue: Vec::with_capacity(queue_capacity),
            buffer_mapping,
            synced_writes: Ghost(Seq::empty()),
        }
    }

    /// Queues `item` to be placed at the next sync.
    pub fn push(&mut self, item: T)
        requires
            old(self).wf(),
        ensures
            final(self).wf(),
            final(self).pending_pushes() == old(self).pending_pushes().push(item),
            final(self).items() == old(self).items(),
            final(self).slot_of() == old(self).slot_of(),
            final(self).pending_removals() == old(self).pending_removals(),
            final(self).spec_capacity() == old(self).spec_capacity(),
            old(self).pushes_valid() && item.item_id() < old(self).spec_capacity() && old(
                self,
            ).slot_of()[item.item_id() as int] is None && !pushes_id(
                old(self).pending_pushes(),
                item.item_id() as int,
            ) ==> final(self).pushes_valid(),
    {
        self.push_queue.push(item);
        proof {
            let pq = self.push_queue@;
            if old(self).pushes_valid() && item.item_id() < old(self).spec_capacity()
                && old(self).slot_of()[item.item_id() as int] is None && !pushes_id(
                old(self).pending_pushes(),
                item.item_id() as int,
            ) {
                assert forall|k: int, l: int| 0 <= k < l < pq.len() implies (#[trigger] pq[k]).item_id()
                    != (#[trigger] pq[l]).item_id() by {
                    if l == pq.len() - 1 {
                        assert(old(self).pending_pushes()[k] == pq[k]);
                    } else {
                        assert(old(self).pending_pushes()[k] == pq[k]);
                        assert(old(self).pending_pushes()[l] == pq[l]);
                    }
                }
                assert forall|k: int| 0 <= k < pq.len() implies {
                    &&& (#[trigger] pq[k]).item_id() < self.spec_capacity()
                    &&& self.slot_of()[pq[k].item_id() as int] is None
                } by {
                    if k < pq.len() - 1 {
                        assert(old(self).pending_pushes()[k] == pq[k]);
                    }
                }
            }
        }
    }

    /// Unmaps the item of id `id` and queues its slot to be emptied at the next
    /// sync.
    pub fn remove(&mut self, id: usize)
        requires
            old(self).wf(),
            id < old(self).spec_capacity(),
            old(self).slot_of()[id as int] is Some,
        ensures
            final(self).wf(),
            final(self).slot_of() == old(self).slot_of().update(id as int, None),
            final(self).pending_removals() == old(self).pending_removals().push(
                old(self).slot_of()[id as int]->0,
            ),
            final(self).items() == old(self).items(),
            final(self).pending_pushes() == old(self).pending_pushes(),
            final(self).spec_capacity() == old(self).spec_capacity(),
            old(self).pushes_valid() ==> final(self).pushes_valid(),
    {
        let index = self.buffer_mapping[id].take().unwrap();
        assert(self.buffer_mapping@ == old(self).buffer_mapping@.update(id as int, None));
        self.remove_queue.push(index);
        proof {
            let buf = self.buffer@;
            let map = self.buffer_mapping@;
            let rq = self.remove_queue@;
            let old_map = old(self).buffer_mapping@;
            let old_rq = old(self).remove_queue@;
            assert(buf[index as int].item_id() == id);
            assert(!slots_in(old_rq).contains(index as int));
            assert forall|i: int, j: int| 0 <= i < j < rq.len() implies rq[i] != rq[j] by {
                if j == rq.len() - 1 {
                    assert(old_rq[i] == rq[i]);
                    assert(slots_in(old_rq).contains(old_rq[i] as int));
                }
            }
            assert forall|p: int| 0 <= p < buf.len() implies (slots_in(rq).contains(p) <==> !maps_to(
                map,
                (#[trigger] buf[p]).item_id() as int,
                p,
            )) by {
                if p == index as int {
                    assert(rq[rq.len() - 1] as int == p);
                } else {
                    if slots_in(rq).contains(p) {
                        let j = choose|j: int| 0 <= j < rq.len() && rq[j] as int == p;
                        assert(old_rq[j] as int == p);
                    }
                    if slots_in(old_rq).contains(p) {
                        let j = choose|j: int| 0 <= j < old_rq.len() && old_rq[j] as int == p;
                        assert(rq[j] as int == p);
                    }
                }
            }
        }
    }

    pub fn cpu_len(&self) -> (r: usize)
        ensures
            r == self.items().len(),
    {
        self.buffer.len()
    }

    pub fn cpu_empty(&self) -> (r: bool)
        ensures
            r == (self.items().len() == 0),
    {
        self.buffer.is_empty()
    }

    /// Whether a sync has anything to do.
    pub fn cpu_dirty(&self) -> (r: bool)
        ensures
            r == (self.pending_pushes().len() > 0 || self.pending_removals().len() > 0),
    {
        !self.push_queue.is_empty() || !self.remove_queue.is_empty()
    }
    /// Applies the queued pushes and removals to the array, recording every slot
    /// write. Pushed items fill removed slots (lowest first), then go at the end;
    /// removed slots left over are filled by moving the last items down, or cut
    /// off when they are last.
    fn cpu_write_delta(&mut self)
        requires
            old(self).wf(),
            old(self).pushes_valid(),
            strictly_increasing(old(self).remove_queue@),
            old(self).write_queue@ == Seq::<T::WriteEntry>::empty(),
            old(self).synced_writes@ == Seq::<(usize, T)>::empty(),
        ensures
            final(self).wf(),
            final(self).capacity == old(self).capacity,
            final(self).push_queue@ == Seq::<T>::empty(),
            final(self).remove_queue@ == Seq::<usize>::empty(),
            final(self).write_queue@ == encode_writes(final(self).synced_writes@),
            final(self).synced_writes@ == sync_writes(
                old(self).buffer@,
                old(self).push_queue@,
                old(self).remove_queue@,
            ),
            final(self).buffer@.len() == old(self).buffer@.len() + old(self).push_queue@.len() - old(
                self,
            ).remove_queue@.len(),
            final(self).buffer@.len() <= apply_writes(old(self).buffer@, final(self).synced_writes@).len(),
            final(self).buffer@ == apply_writes(old(self).buffer@, final(self).synced_writes@).take(
                final(self).buffer@.len() as int,
            ),
            forall|d: int|
                0 <= d < old(self).capacity ==> (#[trigger] final(self).buffer_mapping@[d] is Some <==> (
                old(self).buffer_mapping@[d] is Some || pushes_id(old(self).push_queue@, d))),
            forall|p: int|
                0 <= p < final(self).buffer@.len() ==> synced_from(
                    old(self).buffer@,
                    old(self).buffer_mapping@,
                    old(self).push_queue@,
                    #[trigger] final(self).buffer@[p],
                ),
            patches(old(self).buffer@, final(self).synced_writes@, final(self).buffer@),
            placed(
                old(self).buffer@,
                old(self).buffer_mapping@,
                old(self).push_queue@,
                final(self).buffer@,
                final(self).buffer_mapping@,
            ),
    {
        let ghost b0 = self.buffer@;
        let ghost m0 = self.buffer_mapping@;
        let ghost rq = self.remove_queue@;
        let ghost pq = self.push_queue@;
        let ghost n = b0.len();
        let ghost cap = self.capacity;
        let ghost pw = push_writes(pq, rq, n);

        let mut drop_min: usize = 0;
        let mut drop_max: usize = self.remove_queue.len();
        let push_len = self.push_queue.len();

        proof {
            assert forall|p: int| 0 <= p < n && !slots_in(rq).contains(p) implies #[trigger] maps_to(
                m0,
                b0[p].item_id() as int,
                p,
            ) by {
                assert(slots_in(rq).contains(p) <==> !maps_to(m0, b0[p].item_id() as int, p));
            }
            assert(apply_writes(b0, self.synced_writes@) == b0);
            assert(self.buffer.len() == n);
            assert(pw.take(0) =~= self.synced_writes@);
            assert(pq.take(0) =~= Seq::<T>::empty());
            assert forall|p: int| !writes_to(self.synced_writes@, p) by {}
            assert(sync_tracked(b0, m0, pq.take(0), rq, 0, self.buffer@, self.buffer_mapping@, self.synced_writes@));
        }

        let mut i: usize = 0;
        while i < push_len
            invariant
                self.capacity == cap,
                self.push_queue@ == pq,
                self.remove_queue@ == rq,
                push_len == pq.len(),
                drop_max == rq.len(),
                strictly_increasing(rq),
                forall|j: int| 0 <= j < rq.len() ==> #[trigger] rq[j] < n,
                b0.len() == n,
                n <= usize::MAX,
                forall|p: int| 0 <= p < n && !slots_in(rq).contains(p) ==> #[trigger] maps_to(
                    m0,
                    b0[p].item_id() as int,
                    p,
                ),
                forall|k: int| 0 <= k < pq.len() ==> (#[trigger] pq[k]).item_id() < cap,
                forall|k: int, l: int|
                    0 <= k < l < pq.len() ==> (#[trigger] pq[k]).item_id() != (#[trigger] pq[l]).item_id(),
                forall|k: int| 0 <= k < pq.len() ==> m0[(#[trigger] pq[k]).item_id() as int] is None,
                m0.len() == cap,
                i <= push_len,
                drop_min == if (i as int) < rq.len() { i as int } else { rq.len() as int },
                self.buffer@.len() == n + (i - drop_min),
                self.buffer.len() == self.buffer@.len(),
                indexed(self.buffer@, self.buffer_mapping@, cap, slots_between(rq, drop_min as int, rq.len() as int)),
                forall|p: int| 0 <= p < n && !slots_in(rq).contains(p) ==> #[trigger] self.buffer@[p] == b0[p],
                forall|p: int|
                    0 <= p < self.buffer@.len() && !slots_between(rq, drop_min as int, rq.len() as int).contains(p)
                        ==> synced_from(b0, m0, pq, #[trigger] self.buffer@[p]),
                forall|d: int|
                    0 <= d < cap ==> (#[trigger] self.buffer_mapping@[d] is Some <==> (m0[d] is Some
                        || pushes_id(pq.take(i as int), d))),
                forall|k: int| i <= k < pq.len() ==> self.buffer_mapping@[(#[trigger] pq[k]).item_id() as int] is None,
                self.buffer@ == apply_writes(b0, self.synced_writes@),
                self.write_queue@ == encode_writes(self.synced_writes@),
                pw == push_writes(pq, rq, n),
                self.synced_writes@ == pw.take(i as int),
                sync_tracked(b0, m0, pq.take(i as int), rq, drop_min as int, self.buffer@, self.buffer_mapping@, self.synced_writes@),
            decreases push_len - i,
        {
            let item = self.push_queue[i].init();
            let ghost buf_before = self.buffer@;
            let ghost map_before = self.buffer_mapping@;
            let ghost w_before = self.synced_writes@;
            let ghost dead_before = slots_between(rq, drop_min as int, rq.len() as int);
            proof {
                lemma_apply_writes_push(b0, w_before, (0usize, item));
            }
            if drop_min < drop_max {
                let remove_index = self.remove_queue[drop_min];
                proof {
                    assert(dead_before.contains(remove_index as int));
                    lemma_indexed_place(buf_before, map_before, cap, dead_before, remove_index as int, item);
                    lemma_track_place(b0, m0, pq, i as int, rq, drop_min as int, buf_before, map_before, w_before, cap);
                    lemma_slots_between_drop_first(rq, drop_min as int, rq.len() as int);
                    lemma_apply_writes_push(b0, w_before, (remove_index, item));
                    lemma_encode_writes_push(w_before, (remove_index, item));
                }
                self.buffer_insert(item, remove_index);
                drop_min = drop_min + 1;
                proof {
                    assert forall|p: int|
                        0 <= p < self.buffer@.len() && !slots_between(rq, drop_min as int, rq.len() as int).contains(p)
                            implies synced_from(b0, m0, pq, #[trigger] self.buffer@[p]) by {
                        if p == remove_index as int {
                            assert(self.buffer@[p] == pq[i as int].init_spec());
                        } else {
                            assert(self.buffer@[p] == buf_before[p]);
                        }
                    }
                    assert forall|p: int| 0 <= p < n && !slots_in(rq).contains(p) implies #[trigger] self.buffer@[p] == b0[p] by {
                        if p == remove_index as int {
                            assert(rq[drop_min - 1] as int == p);
                        }
                    }
                }
            } else {
                proof {
                    assert(!dead_before.contains(buf_before.len() as int)) by {
                        if dead_before.contains(buf_before.len() as int) {
                            let j = choose|j: int| drop_min <= j < rq.len() && #[trigger] rq[j] as int == buf_before.len() as int;
                            assert(rq[j] < n);
                        }
                    }
                    lemma_indexed_append(buf_before, map_before, cap, dead_before, item);
                    lemma_track_append(b0, m0, pq, i as int, rq, buf_before, map_before, w_before, cap);
                    lemma_apply_writes_push(b0, w_before, (buf_before.len() as usize, item));
                    lemma_encode_writes_push(w_before, (buf_before.len() as usize, item));
                }
                self.buffer_push(item);
                proof {
                    assert forall|p: int|
                        0 <= p < self.buffer@.len() && !slots_between(rq, drop_min as int, rq.len() as int).contains(p)
                            implies synced_from(b0, m0, pq, #[trigger] self.buffer@[p]) by {
                        if p == buf_before.len() {
                            assert(self.buffer@[p] == pq[i as int].init_spec());
                        } else {
                            assert(self.buffer@[p] == buf_before[p]);
                        }
                    }
                }
            }
            proof {
                assert forall|d: int| 0 <= d < cap implies (#[trigger] self.buffer_mapping@[d] is Some <==> (m0[d] is Some
                    || pushes_id(pq.take(i + 1), d))) by {
                    assert(pq.take(i + 1)[i as int] == pq[i as int]);
                    if pushes_id(pq.take(i as int), d) {
                        let k = choose|k: int| 0 <= k < i && #[trigger] pq.take(i as int)[k].item_id() == d;
                        assert(pq.take(i + 1)[k] == pq[k]);
                    }
                    if pushes_id(pq.take(i + 1), d) {
                        let k = choose|k: int| 0 <= k < i + 1 && #[trigger] pq.take(i + 1)[k].item_id() == d;
                        if k < i {
                            assert(pq.take(i as int)[k] == pq[k]);
                        }
                    }
                }
                assert forall|k: int| i + 1 <= k < pq.len() implies self.buffer_mapping@[(#[trigger] pq[k]).item_id() as int] is None by {
                    assert(pq[k].item_id() != pq[i as int].item_id());
                }
                assert(self.synced_writes@ =~= pw.take(i + 1));
            }
            i = i + 1;
        }

        let mut buff_max = self.buffer.len();
        proof {
            assert(pq.take(i as int) =~= pq);
            assert(pw.take(i as int) =~= pw);
        }
        let ghost total = sync_writes(b0, pq, rq);
        while drop_min < drop_max
            invariant
                self.capacity == cap,
                self.push_queue@ == pq,
                self.remove_queue@ == rq,
                strictly_increasing(rq),
                forall|j: int| 0 <= j < rq.len() ==> #[trigger] rq[j] < n,
                b0.len() == n,
                n <= usize::MAX,
                forall|p: int| 0 <= p < n && !slots_in(rq).contains(p) ==> #[trigger] maps_to(
                    m0,
                    b0[p].item_id() as int,
                    p,
                ),
                m0.len() == cap,
                drop_min <= drop_max <= rq.len(),
                drop_min < drop_max ==> buff_max <= n,
                push_len == pq.len(),
                buff_max - (drop_max - drop_min) == n + push_len - rq.len(),
                buff_max == self.buffer@.len(),
                drop_min < drop_max ==> rq[drop_max - 1] < buff_max,
                forall|j: int| drop_max <= j < rq.len() ==> #[trigger] rq[j] >= buff_max,
                indexed(self.buffer@, self.buffer_mapping@, cap, slots_between(rq, drop_min as int, drop_max as int)),
                forall|p: int| 0 <= p < buff_max && p < n && !slots_in(rq).contains(p) ==> #[trigger] self.buffer@[p] == b0[p],
                forall|p: int|
                    0 <= p < self.buffer@.len() && !slots_between(rq, drop_min as int, drop_max as int).contains(p)
                        ==> synced_from(b0, m0, pq, #[trigger] self.buffer@[p]),
                forall|d: int|
                    0 <= d < cap ==> (#[trigger] self.buffer_mapping@[d] is Some <==> (m0[d] is Some
                        || pushes_id(pq, d))),
                self.buffer@.len() <= apply_writes(b0, self.synced_writes@).len(),
                self.buffer@ == apply_writes(b0, self.synced_writes@).take(self.buffer@.len() as int),
                self.write_queue@ == encode_writes(self.synced_writes@),
                self.synced_writes@ + move_writes(self.buffer@, rq, drop_min as int, drop_max as int) == total,
                forall|k: int| 0 <= k < pq.len() ==> (#[trigger] pq[k]).item_id() < cap,
                forall|k: int| 0 <= k < pq.len() ==> m0[(#[trigger] pq[k]).item_id() as int] is None,
                sync_tracked(b0, m0, pq, rq, drop_min as int, self.buffer@, self.buffer_mapping@, self.synced_writes@),
            ensures
                drop_min == drop_max,
            decreases drop_max - drop_min,
        {
            let drop_min_index = self.remove_queue[drop_min];
            if drop_min_index >= buff_max {
                break;
            }
            let drop_max_index = self.remove_queue[drop_max - 1];
            let ghost buf_before = self.buffer@;
            let ghost map_before = self.buffer_mapping@;
            let ghost w_before = self.synced_writes@;
            let ghost dead_before = slots_between(rq, drop_min as int, drop_max as int);
            let ghost top = buff_max - 1;
            if drop_max_index == buff_max - 1 {
                proof {
                    assert(dead_before.contains(top as int));
                    lemma_indexed_pop_dead(buf_before, map_before, cap, dead_before);
                    lemma_track_pop(b0, m0, pq, rq, drop_min as int, drop_max as int, buf_before, map_before, w_before, cap);
                    lemma_slots_between_drop_last(rq, drop_min as int, drop_max as int);
                }
                self.buffer_pop();
                drop_max = drop_max - 1;
                proof {
                    assert(move_writes(buf_before, rq, drop_min as int, drop_max + 1) == move_writes(
                        self.buffer@,
                        rq,
                        drop_min as int,
                        drop_max as int,
                    ));
                    assert(self.buffer@ =~= apply_writes(b0, self.synced_writes@).take(self.buffer@.len() as int));
                    assert forall|p: int|
                        0 <= p < self.buffer@.len() && !slots_between(rq, drop_min as int, drop_max as int).contains(p)
                            implies synced_from(b0, m0, pq, #[trigger] self.buffer@[p]) by {
                        assert(self.buffer@[p] == buf_before[p]);
                    }
                }
            } else {
                proof {
                    assert(!slots_in(rq).contains(top as int)) by {
                        if slots_in(rq).contains(top as int) {
                            let j = choose|j: int| 0 <= j < rq.len() && #[trigger] rq[j] as int == top as int;
                            if j < drop_min {
                                assert(rq[j] < rq[drop_min as int]);
                            } else if j < drop_max {
                                assert(rq[j] <= rq[drop_max - 1]);
                            }
                        }
                    }
                    assert(!dead_before.contains(top as int)) by {
                        if dead_before.contains(top as int) {
                            let j = choose|j: int| drop_min <= j < drop_max && #[trigger] rq[j] as int == top as int;
                            assert(slots_in(rq).contains(top as int));
                        }
                    }
                    assert(dead_before.contains(drop_min_index as int));
                    assert(buf_before[top as int] == b0[top as int]);
                    assert(maps_to(m0, b0[top as int].item_id() as int, top as int));
                }
                let swap = self.buffer_pop().reused();
                proof {
                    assert(buf_before.last() == buf_before[top as int]);
                    lemma_indexed_move_last(buf_before, map_before, cap, dead_before, drop_min_index as int, swap);
                    assert(rq[drop_min as int] <= rq[drop_max - 1]);
                    lemma_track_move(b0, m0, pq, rq, drop_min as int, drop_max as int, buf_before, map_before, w_before, cap, swap);
                    lemma_slots_between_drop_first(rq, drop_min as int, drop_max as int);
                    lemma_apply_writes_push(b0, w_before, (drop_min_index, swap));
                    lemma_encode_writes_push(w_before, (drop_min_index, swap));
                }
                self.buffer_insert(swap, drop_min_index);
                drop_min = drop_min + 1;
                proof {
                    let mw = move_writes(self.buffer@, rq, drop_min as int, drop_max as int);
                    assert(self.buffer@ == buf_before.drop_last().update(drop_min_index as int, swap));
                    assert(move_writes(buf_before, rq, drop_min - 1, drop_max as int) == seq![
                        (drop_min_index, swap),
                    ] + mw);
                    assert(w_before + (seq![(drop_min_index, swap)] + mw) =~= w_before.push(
                        (drop_min_index, swap),
                    ) + mw);
                    assert(self.buffer@ =~= apply_writes(b0, self.synced_writes@).take(self.buffer@.len() as int));
                    assert forall|p: int|
                        0 <= p < self.buffer@.len() && !slots_between(rq, drop_min as int, drop_max as int).contains(p)
                            implies synced_from(b0, m0, pq, #[trigger] self.buffer@[p]) by {
                        if p == drop_min_index as int {
                            assert(self.buffer@[p] == b0[top as int].reused_spec());
                        } else {
                            assert(self.buffer@[p] == buf_before[p]);
                        }
                    }
                    assert forall|p: int| 0 <= p < buff_max - 1 && p < n && !slots_in(rq).contains(p) implies #[trigger] self.buffer@[p] == b0[p] by {
                        if p == drop_min_index as int {
                            assert(rq[drop_min - 1] as int == p);
                        }
                    }
                }
            }
            buff_max = buff_max - 1;
        }
        proof {
            assert(self.synced_writes@ + Seq::<(usize, T)>::empty() =~= self.synced_writes@);
            let buf = self.buffer@;
            let map = self.buffer_mapping@;
            let ws = self.synced_writes@;
            assert forall|d: int| 0 <= d < m0.len() && (#[trigger] m0[d]) is Some implies {
                let q = m0[d]->0 as int;
                let p = map[d]->0 as int;
                &&& map[d] is Some
                &&& (p == q && buf[p] == b0[q]) || (p != q && buf[p] == b0[q].reused_spec())
            } by {
                let p = map[d]->0 as int;
                assert(map[d] is Some);
                assert(p < buf.len());
                if !writes_to(ws, p) {
                    assert(buf[p] == b0[p]);
                }
            }
        }
        self.remove_queue.clear();
        self.push_queue.clear();
        proof {
            assert(slots_between(rq, drop_min as int, drop_max as int) =~= Set::<int>::empty());
            assert(slots_in(self.remove_queue@) =~= Set::<int>::empty());
            assert(pq.take(pq.len() as int) =~= pq);
        }
    }

    /// Applies the queued pushes and removals and returns the slot writes that
    /// bring the GPU copy of the array up to date.
    pub fn sync_delta(&mut self) -> (r: &[T::WriteEntry])
        requires
            old(self).wf(),
            old(self).pushes_valid(),
        ensures
            final(self).wf(),
            final(self).spec_capacity() == old(self).spec_capacity(),
            final(self).pending_pushes() == Seq::<T>::empty(),
            final(self).pending_removals() == Seq::<usize>::empty(),
            final(self).pushes_valid(),
            r@ == encode_writes(final(self).last_writes()),
            old(self).pending_removals().len() == 0 ==> final(self).last_writes() == sync_writes(
                old(self).items(),
                old(self).pending_pushes(),
                Seq::<usize>::empty(),
            ),
            final(self).items().len() <= apply_writes(old(self).items(), final(self).last_writes()).len(),
            final(self).items() == apply_writes(old(self).items(), final(self).last_writes()).take(
                final(self).items().len() as int,
            ),
            forall|d: int|
                0 <= d < old(self).spec_capacity() ==> (#[trigger] final(self).slot_of()[d] is Some <==> (
                old(self).slot_of()[d] is Some || pushes_id(old(self).pending_pushes(), d))),
            forall|p: int|
                0 <= p < final(self).items().len() ==> synced_from(
                    old(self).items(),
                    old(self).slot_of(),
                    old(self).pending_pushes(),
                    #[trigger] final(self).items()[p],
                ),
            patches(old(self).items(), final(self).last_writes(), final(self).items()),
            forall|p: int|
                0 <= p < final(self).items().len() ==> final(self).slot_of()[(
                #[trigger] final(self).items()[p]).item_id() as int] == Some(p as usize),
            forall|p: int, q: int|
                0 <= p < q < final(self).items().len() ==> (#[trigger] final(self).items()[p]).item_id()
                    != (#[trigger] final(self).items()[q]).item_id(),
            placed(
                old(self).items(),
                old(self).slot_of(),
                old(self).pending_pushes(),
                final(self).items(),
                final(self).slot_of(),
            ),
            final(self).items().len() == old(self).items().len() + old(self).pending_pushes().len()
                - old(self).pending_removals().len(),
            strictly_increasing(ascending(old(self).pending_removals())),
            ascending(old(self).pending_removals()).to_multiset() == old(self).pending_removals().to_multiset(),
            final(self).last_writes() == sync_writes(
                old(self).items(),
                old(self).pending_pushes(),
                ascending(old(self).pending_removals()),
            ),
    {
        self.write_queue.clear();
        self.synced_writes = Ghost(Seq::empty());

        let ghost rq0 = self.remove_queue@;
        let ghost b0 = self.buffer@;
        let ghost pq0 = self.push_queue@;
        sort_slots(&mut self.remove_queue);
        let ghost rs = self.remove_queue@;
        proof {
            broadcast use vstd::seq_lib::group_to_multiset_ensures;
            let rq = self.remove_queue@;
            rq0.lemma_multiset_has_no_duplicates();
            assert forall|x: usize| rq.to_multiset().contains(x) implies rq.to_multiset().count(x) == 1 by {
                assert(rq0.to_multiset().contains(x));
            }
            rq.lemma_multiset_has_no_duplicates_conv();
            assert forall|x: usize| rq.contains(x) <==> rq0.contains(x) by {
                assert(rq.contains(x) <==> rq.to_multiset().count(x) > 0);
                assert(rq0.contains(x) <==> rq0.to_multiset().count(x) > 0);
            }
            assert(rq.len() == rq0.len()) by {
                assert(rq.len() == rq.to_multiset().len());
                assert(rq0.len() == rq0.to_multiset().len());
            }
            assert forall|i: int, j: int| 0 <= i < j < rq.len() implies rq[i] < rq[j] by {
                assert(rq[i] <= rq[j]);
            }
            assert forall|i: int| 0 <= i < rq.len() implies #[trigger] rq[i] < self.buffer@.len() by {
                assert(rq.contains(rq[i]));
                let j = choose|j: int| 0 <= j < rq0.len() && rq0[j] == rq[i];
            }
            assert forall|p: int| #[trigger] slots_in(rq).contains(p) <==> slots_in(rq0).contains(p) by {
                if slots_in(rq).contains(p) {
                    let j = choose|j: int| 0 <= j < rq.len() && #[trigger] rq[j] as int == p;
                    assert(rq0.contains(rq[j]));
                    let k = choose|k: int| 0 <= k < rq0.len() && rq0[k] == rq[j];
                    assert(rq0[k] as int == p);
                }
                if slots_in(rq0).contains(p) {
                    let j = choose|j: int| 0 <= j < rq0.len() && #[trigger] rq0[j] as int == p;
                    assert(rq.contains(rq0[j]));
                    let k = choose|k: int| 0 <= k < rq.len() && rq[k] == rq0[j];
                    assert(rq[k] as int == p);
                }
            }
            assert(slots_in(rq) =~= slots_in(rq0));
        }
        self.cpu_write_delta();
        proof {
            assert(self.synced_writes@ == sync_writes(b0, pq0, rs));
            assert(strictly_increasing(rs));
            assert(b0 == old(self).items());
            assert(pq0 == old(self).pending_pushes());
            assert(rq0 == old(self).pending_removals());
            assert(rs.to_multiset() == old(self).pending_removals().to_multiset());
            lemma_ascending(old(self).pending_removals(), rs);
            assert(self.last_writes() == sync_writes(old(self).items(), old(self).pending_pushes(), rs));
            self.lemma_synced_index();
            assert forall|p: int, q: int| 0 <= p < q < self.items().len() implies (#[trigger] self.items()[p]).item_id()
                != (#[trigger] self.items()[q]).item_id() by {
                assert(self.slot_of()[self.items()[p].item_id() as int] == Some(p as usize));
                assert(self.slot_of()[self.items()[q].item_id() as int] == Some(q as usize));
            }
        }

        self.write_queue.as_slice()
    }

    fn set_index_mapping(&mut self, id: usize, index: usize)
        requires
            id < old(self).buffer_mapping@.len(),
        ensures
            final(self).buffer_mapping@ == old(self).buffer_mapping@.update(id as int, Some(index)),
            final(self).buffer@ == old(self).buffer@,
            final(self).push_queue@ == old(self).push_queue@,
            final(self).remove_queue@ == old(self).remove_queue@,
            final(self).write_queue@ == old(self).write_queue@,
            final(self).synced_writes == old(self).synced_writes,
            final(self).capacity == old(self).capacity,
    {
        self.buffer_mapping.set(id, Some(index));
    }

    fn buffer_exists(&self, id: usize) -> (r: bool)
        requires
            id < self.buffer_mapping@.len(),
        ensures
            r == self.buffer_mapping@[id as int] is Some,
    {
        self.buffer_mapping[id].is_some()
    }

    fn buffer_pop(&mut self) -> (r: T)
        requires
            old(self).buffer@.len() > 0,
        ensures
            r == old(self).buffer@.last(),
            final(self).buffer@ == old(self).buffer@.drop_last(),
            final(self).buffer_mapping@ == old(self).buffer_mapping@,
            final(self).push_queue@ == old(self).push_queue@,
            final(self).remove_queue@ == old(self).remove_queue@,
            final(self).write_queue@ == old(self).write_queue@,
            final(self).synced_writes == old(self).synced_writes,
            final(self).capacity == old(self).capacity,
    {
        self.buffer.pop().unwrap()
    }

    fn buffer_push(&mut self, item: T)
        requires
            item.item_id() < old(self).buffer_mapping@.len(),
        ensures
            final(self).buffer@ == old(self).buffer@.push(item),
            final(self).buffer_mapping@ == old(self).buffer_mapping@.update(
                item.item_id() as int,
                Some(old(self).buffer@.len() as usize),
            ),
            final(self).write_queue@ == old(self).write_queue@.push(
                item.write_spec(old(self).buffer@.len() as usize),
            ),
            final(self).synced_writes@ == old(self).synced_writes@.push(
                (old(self).buffer@.len() as usize, item),
            ),
            final(self).push_queue@ == old(self).push_queue@,
            final(self).remove_queue@ == old(self).remove_queue@,
            final(self).capacity == old(self).capacity,
    {
        let buffer_index = self.buffer.len();
        self.set_index_mapping(item.index(), buffer_index);
        self.write_queue.push(item.write(buffer_index));
        self.synced_writes = Ghost(self.synced_writes@.push((buffer_index, item)));
        self.buffer.push(item);
    }

    fn buffer_insert(&mut self, item: T, buffer_index: usize)
        requires
            item.item_id() < old(self).buffer_mapping@.len(),
            buffer_index < old(self).buffer@.len(),
        ensures
            final(self).buffer@ == old(self).buffer@.update(buffer_index as int, item),
            final(self).buffer_mapping@ == old(self).buffer_mapping@.update(
                item.item_id() as int,
                Some(buffer_index),
            ),
            final(self).write_queue@ == old(self).write_queue@.push(item.write_spec(buffer_index)),
            final(self).synced_writes@ == old(self).synced_writes@.push((buffer_index, item)),
            final(self).push_queue@ == old(self).push_queue@,
            final(self).remove_queue@ == old(self).remove_queue@,
            final(self).capacity == old(self).capacity,
    {
        self.set_index_mapping(item.index(), buffer_index);
        self.write_queue.push(item.write(buffer_index));
        self.synced_writes = Ghost(self.synced_writes@.push((buffer_index, item)));
        self.buffer.set(buffer_index, item);
    }
}

} // verus!
