use vstd::prelude::*;
use crate::entry::Entry;
use crate::store::{
    chase, collapse, is_owned_at, last_owned_at_or_below, lemma_last_owned, lemma_reuse_from,
    push_model, remove_model, resolve_model, shrink_model, store_wf, trim_empty, StoreView,
};

verus! {

/// The store after pushing each of `xs` in order, and the index each took.
pub open spec fn push_all<T>(v: StoreView<T>, xs: Seq<T>) -> (StoreView<T>, Seq<int>)
    decreases xs.len(),
{
    if xs.len() == 0 {
        (v, Seq::empty())
    } else {
        let (w, ids) = push_all(v, xs.drop_last());
        let (u, at) = push_model(w, xs.last());
        (u, ids.push(at))
    }
}

/// Whether `m` is one of the indices that the chain of redirects from `i` visits.
pub open spec fn on_chain<T>(slots: Seq<Entry<T>>, i: int, m: int) -> bool
    decreases i,
{
    if m == i {
        true
    } else if 0 <= i < slots.len() && slots[i] is Moved && (slots[i]->Moved_0 as int) < i {
        on_chain(slots, slots[i]->Moved_0 as int, m)
    } else {
        false
    }
}

/// Whether the chain from `i` ends on an owned slot holding `x`.
pub open spec fn resolves_to<T>(slots: Seq<Entry<T>>, i: int, x: T) -> bool {
    is_owned_at(slots, chase(slots, i)) && slots[chase(slots, i)] == Entry::Owned(x)
}

/// A push keeps the store well formed, fills a slot at or past the tail, and
/// leaves every other slot as it was.
pub proof fn lemma_push<T>(v: StoreView<T>, x: T)
    requires
        store_wf(v),
    ensures
        store_wf(push_model(v, x).0),
        v.tail <= push_model(v, x).1 <= v.slots.len(),
        push_model(v, x).0.tail == push_model(v, x).1 + 1,
        push_model(v, x).0.slots.len() >= v.slots.len(),
        push_model(v, x).0.slots[push_model(v, x).1] == Entry::Owned(x),
        forall|i: int|
            0 <= i < v.slots.len() && i != push_model(v, x).1 ==> push_model(v, x).0.slots[i]
                == v.slots[i],
{
    lemma_reuse_from(v.slots, v.tail as int);
}

/// A chain that only meets unchanged slots ends where it did before.
proof fn lemma_chase_same<T>(a: Seq<Entry<T>>, b: Seq<Entry<T>>, i: int)
    requires
        0 <= i < a.len(),
        a.len() <= b.len(),
        forall|m: int| #[trigger] on_chain(a, i, m) && 0 <= m < a.len() ==> b[m] == a[m],
    ensures
        chase(b, i) == chase(a, i),
    decreases i,
{
    assert(on_chain(a, i, i));
    if a[i] is Moved && (a[i]->Moved_0 as int) < i {
        let n = a[i]->Moved_0 as int;
        assert forall|m: int| on_chain(a, n, m) && 0 <= m < a.len() implies b[m] == a[m] by {
            assert(on_chain(a, i, m));
        }
        if 0 <= n {
            lemma_chase_same(a, b, n);
        }
    }
}

/// Pushing values one after another, with no removal in between, leaves each
/// of them at the index its push returned, where resolving that index finds
/// it; the indices are all different.
pub proof fn lemma_round_trip<T>(v: StoreView<T>, xs: Seq<T>)
    requires
        store_wf(v),
    ensures
        store_wf(push_all(v, xs).0),
        push_all(v, xs).0.tail >= v.tail,
        push_all(v, xs).1.len() == xs.len(),
        forall|k: int|
            0 <= k < xs.len() ==> {
                let id = #[trigger] push_all(v, xs).1[k];
                &&& v.tail <= id < push_all(v, xs).0.tail
                &&& chase(push_all(v, xs).0.slots, id) == id
                &&& resolves_to(push_all(v, xs).0.slots, id, xs[k])
            },
        forall|j: int, k: int|
            0 <= j < k < xs.len() ==> push_all(v, xs).1[j] < push_all(v, xs).1[k],
    decreases xs.len(),
{
    if xs.len() > 0 {
        let ys = xs.drop_last();
        lemma_round_trip(v, ys);
        let (w, ids) = push_all(v, ys);
        lemma_push(w, xs.last());
        let (u, at) = push_model(w, xs.last());
        assert forall|k: int| 0 <= k < xs.len() implies {
            let id = #[trigger] push_all(v, xs).1[k];
            &&& v.tail <= id < push_all(v, xs).0.tail
            &&& chase(push_all(v, xs).0.slots, id) == id
            &&& resolves_to(push_all(v, xs).0.slots, id, xs[k])
        } by {
            let id = push_all(v, xs).1[k];
            if k < ys.len() {
                assert(ids[k] == id);
                let idk = ids[k];
                assert(v.tail <= idk < w.tail);
                assert(resolves_to(w.slots, idk, ys[k]));
                assert(chase(w.slots, idk) == idk);
                assert(u.slots[id] == w.slots[id]);
                assert(xs[k] == ys[k]);
            } else {
                assert(id == at);
            }
            assert(u.slots[id] is Owned);
            assert(chase(u.slots, id) == id);
        }
    }
}

/// Every index a chain visits lies between where it ends and where it
/// starts, and each one but the last is a redirect.
proof fn lemma_chain_members<T>(a: Seq<Entry<T>>, i: int, m: int)
    requires
        0 <= i < a.len(),
        on_chain(a, i, m),
    ensures
        chase(a, i) <= m <= i,
        m != chase(a, i) ==> a[m] is Moved && 0 <= m,
    decreases i,
{
    lemma_chase_bounds(a, i);
    if m != i {
        let n = a[i]->Moved_0 as int;
        if n >= 0 {
            lemma_chain_members(a, n, m);
        } else {
            assert(chase(a, n) == n);
        }
    }
}

proof fn lemma_chase_bounds<T>(a: Seq<Entry<T>>, i: int)
    requires
        0 <= i < a.len(),
    ensures
        0 <= chase(a, i) <= i,
    decreases i,
{
    if a[i] is Moved && (a[i]->Moved_0 as int) < i {
        let n = a[i]->Moved_0 as int;
        if n >= 0 {
            lemma_chase_bounds(a, n);
        } else {
            assert(chase(a, n) == n);
        }
    }
}

/// Changing a slot above `j` leaves the chain from `j` alone.
proof fn lemma_on_chain_update<T>(a: Seq<Entry<T>>, j: int, k: int, x: Entry<T>, m: int)
    requires
        j < k < a.len(),
    ensures
        on_chain(a.update(k, x), j, m) == on_chain(a, j, m),
        chase(a.update(k, x), j) == chase(a, j),
    decreases j,
{
    if 0 <= j && a[j] is Moved && (a[j]->Moved_0 as int) < j {
        lemma_on_chain_update(a, a[j]->Moved_0 as int, k, x, m);
    }
}

/// A chain that ends on `e` in `a`, where `b` agrees with `a` along the way
/// but turns `e` into a redirect to an owned slot `t`, ends on `t` in `b`.
proof fn lemma_chase_redirect<T>(a: Seq<Entry<T>>, b: Seq<Entry<T>>, i: int, t: int)
    requires
        0 <= i < a.len() == b.len(),
        0 <= t < chase(a, i),
        t <= usize::MAX,
        b[chase(a, i)] == Entry::<T>::Moved(t as usize),
        b[t] is Owned,
        forall|m: int| on_chain(a, i, m) && m != chase(a, i) ==> b[m] == a[m],
    ensures
        chase(b, i) == t,
    decreases i,
{
    let e = chase(a, i);
    assert(on_chain(a, i, i));
    lemma_chase_bounds(a, i);
    if i == e {
        assert(chase(b, t) == t);
        assert(chase(b, i) == chase(b, t));
    } else {
        let n = a[i]->Moved_0 as int;
        assert(b[i] == a[i]);
        assert(chase(a, i) == chase(a, n));
        assert forall|m: int| on_chain(a, n, m) && m != chase(a, n) implies b[m] == a[m] by {
            assert(on_chain(a, i, m));
        }
        if n >= 0 {
            lemma_chase_redirect(a, b, n, t);
        }
    }
}

/// Removing one value leaves every other value reachable: a chain that ended
/// on an owned slot other than the one removed still ends on a slot holding
/// the same value.
pub proof fn lemma_remove_keeps_others<T>(v: StoreView<T>, target: usize, i: int, x: T)
    requires
        store_wf(v),
        is_owned_at(v.slots, target as int),
        0 <= i < v.slots.len(),
        resolves_to(v.slots, i, x),
        chase(v.slots, i) != target,
    ensures
        resolves_to(remove_model(v, target as int).0.slots, i, x),
{
    let e = chase(v.slots, i);
    let w = remove_model(v, target as int).0;
    let r = last_owned_at_or_below(v.slots, v.tail - 1);
    lemma_last_owned(v.slots, v.tail - 1, target as int);
    lemma_chase_bounds(v.slots, i);
    assert(e < v.tail);
    assert forall|m: int| on_chain(v.slots, i, m) && m != e implies m != target && m != r && 0 <= m
        < v.slots.len() && w.slots[m] == v.slots[m] by {
        lemma_chain_members(v.slots, i, m);
    }
    if r == e {
        assert forall|m: int| on_chain(v.slots, i, m) && m != e implies w.slots[m] == v.slots[m] by {
            lemma_chain_members(v.slots, i, m);
        }
        lemma_chase_redirect(v.slots, w.slots, i, target as int);
    } else {
        assert forall|m: int| on_chain(v.slots, i, m) && 0 <= m < v.slots.len() implies w.slots[m]
            == v.slots[m] by {
            lemma_chain_members(v.slots, i, m);
        }
        lemma_chase_same(v.slots, w.slots, i);
    }
}

/// What collapsing a chain does, slot by slot.
proof fn lemma_collapse<T>(a: Seq<Entry<T>>, i: int)
    requires
        0 <= i < a.len(),
    ensures
        collapse(a, i).len() == a.len(),
        collapse(a, i)[chase(a, i)] == a[chase(a, i)],
        forall|m: int|
            0 <= m < a.len() && m != chase(a, i) && #[trigger] on_chain(a, i, m)
                ==> collapse(a, i)[m] is Empty,
        forall|m: int| 0 <= m < a.len() && !on_chain(a, i, m) ==> #[trigger] collapse(a, i)[m] == a[m],
    decreases i,
{
    lemma_chase_bounds(a, i);
    if a[i] is Moved && (a[i]->Moved_0 as int) < i {
        let n = a[i]->Moved_0 as int;
        let b = a.update(i, Entry::Empty);
        if n >= 0 {
            lemma_collapse(b, n);
            lemma_on_chain_update(a, n, i, Entry::Empty, i);
            lemma_chase_bounds(a, n);
            assert(chase(b, n) == chase(a, i));
            assert(b[chase(a, i)] == a[chase(a, i)]);
            assert forall|m: int| 0 <= m < a.len() implies on_chain(b, n, m) == on_chain(a, n, m)
                && (m != i ==> (on_chain(a, i, m) == on_chain(a, n, m))) by {
                lemma_on_chain_update(a, n, i, Entry::Empty, m);
            }
            assert(!on_chain(b, n, i)) by {
                if on_chain(b, n, i) {
                    lemma_chain_members(b, n, i);
                }
            }
        } else {
            assert(chase(a, i) == n);
        }
    }
}

/// Resolving an index yields the slot its chain ends on, unchanged, and
/// leaves every redirect passed on the way vacated.
pub proof fn lemma_resolve_collapses<T>(v: StoreView<T>, i: int)
    requires
        store_wf(v),
        0 <= i < v.slots.len(),
    ensures
        ({
            let (w, e) = resolve_model(v, i);
            &&& 0 <= e <= i
            &&& w.slots.len() == v.slots.len()
            &&& w.slots[e] == v.slots[e]
            &&& !(v.slots[e] is Moved)
            &&& forall|m: int| 0 <= m < v.slots.len() && m != e && #[trigger] on_chain(v.slots, i, m)
                ==> w.slots[m] is Empty
            &&& forall|m: int| 0 <= m < v.slots.len() && !on_chain(v.slots, i, m)
                ==> #[trigger] w.slots[m] == v.slots[m]
        }),
{
    lemma_chase_bounds(v.slots, i);
    lemma_collapse(v.slots, i);
    let e = chase(v.slots, i);
    if v.slots[e] is Moved {
        lemma_chase_end(v.slots, i);
    }
}

/// A chain stops only where a slot is not a redirect to a smaller index.
proof fn lemma_chase_end<T>(a: Seq<Entry<T>>, i: int)
    requires
        0 <= i < a.len(),
    ensures
        !(a[chase(a, i)] is Moved && (a[chase(a, i)]->Moved_0 as int) < chase(a, i)),
    decreases i,
{
    if a[i] is Moved && (a[i]->Moved_0 as int) < i {
        let n = a[i]->Moved_0 as int;
        if n >= 0 {
            lemma_chase_end(a, n);
        } else {
            assert(chase(a, n) == n);
        }
    }
}

/// Trimming keeps a prefix and drops only `Empty` slots.
proof fn lemma_trim<T>(a: Seq<Entry<T>>)
    ensures
        trim_empty(a).len() <= a.len(),
        trim_empty(a) =~= a.subrange(0, trim_empty(a).len() as int),
        forall|m: int| trim_empty(a).len() <= m < a.len() ==> #[trigger] a[m] is Empty,
    decreases a.len(),
{
    if a.len() > 0 && a.last() is Empty {
        lemma_trim(a.drop_last());
        assert forall|m: int| trim_empty(a).len() <= m < a.len() implies #[trigger] a[m] is Empty by {
            if m < a.len() - 1 {
                assert(a.drop_last()[m] == a[m]);
            }
        }
    }
}

/// Shrinking never moves a value: an index that resolved to a value still
/// exists and resolves to it.
pub proof fn lemma_shrink_keeps<T>(v: StoreView<T>, i: int, x: T)
    requires
        store_wf(v),
        0 <= i < v.slots.len(),
        resolves_to(v.slots, i, x),
    ensures
        store_wf(shrink_model(v)),
        i < shrink_model(v).slots.len(),
        resolves_to(shrink_model(v).slots, i, x),
{
    let w = shrink_model(v);
    lemma_trim(v.slots);
    lemma_chase_bounds(v.slots, i);
    assert(on_chain(v.slots, i, i));
    if i >= w.slots.len() {
        if i != chase(v.slots, i) {
            lemma_chain_members(v.slots, i, i);
        }
    }
    assert(i < w.slots.len());
    assert forall|m: int| #[trigger] on_chain(v.slots, i, m) && 0 <= m < v.slots.len() implies m
        < w.slots.len() && w.slots[m] == v.slots[m] by {
        lemma_chain_members(v.slots, i, m);
    }
    lemma_chase_same_prefix(v.slots, w.slots, i);
}

/// A chain that stays inside a prefix ends where it did before.
proof fn lemma_chase_same_prefix<T>(a: Seq<Entry<T>>, b: Seq<Entry<T>>, i: int)
    requires
        0 <= i < b.len() <= a.len(),
        forall|m: int| #[trigger] on_chain(a, i, m) && 0 <= m < a.len() ==> m < b.len() && b[m] == a[m],
    ensures
        chase(b, i) == chase(a, i),
    decreases i,
{
    assert(on_chain(a, i, i));
    if a[i] is Moved && (a[i]->Moved_0 as int) < i {
        let n = a[i]->Moved_0 as int;
        assert forall|m: int| #[trigger] on_chain(a, n, m) && 0 <= m < a.len() implies m < b.len() && b[m]
            == a[m] by {
            assert(on_chain(a, i, m));
        }
        if 0 <= n {
            lemma_chase_same_prefix(a, b, n);
        }
    }
}

} // verus!
