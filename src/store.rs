use vstd::prelude::*;
use crate::entry::Entry;

verus! {

/// Index of the slot a push starting its scan at `j` fills: the first `Empty`
/// slot reached by skipping `Moved` ones, or the length when the scan meets an
/// `Owned` slot or runs off the end.
pub open spec fn reuse_from<T>(slots: Seq<Entry<T>>, j: int) -> int
    decreases slots.len() - j,
{
    if j < 0 || j >= slots.len() {
        slots.len() as int
    } else {
        match slots[j] {
            Entry::Empty => j,
            Entry::Moved(_) => reuse_from(slots, j + 1),
            Entry::Owned(_) => slots.len() as int,
        }
    }
}

/// The slots after placing `v` at `at`: in place, or appended when `at` is the length.
pub open spec fn place<T>(slots: Seq<Entry<T>>, at: int, v: T) -> Seq<Entry<T>> {
    if at == slots.len() {
        slots.push(Entry::Owned(v))
    } else {
        slots.update(at, Entry::Owned(v))
    }
}

/// Index of the last `Owned` slot at or below `j`, or -1 when there is none.
pub open spec fn last_owned_at_or_below<T>(slots: Seq<Entry<T>>, j: int) -> int
    decreases j + 1,
{
    if j < 0 {
        -1
    } else if j < slots.len() && slots[j] is Owned {
        j
    } else {
        last_owned_at_or_below(slots, j - 1)
    }
}

/// The index a chain of redirects starting at `i` ends on.
pub open spec fn chase<T>(slots: Seq<Entry<T>>, i: int) -> int
    decreases i,
{
    if 0 <= i < slots.len() && slots[i] is Moved && (slots[i]->Moved_0 as int) < i {
        chase(slots, slots[i]->Moved_0 as int)
    } else {
        i
    }
}

/// The slots after every redirect on the chain from `i` has been vacated.
pub open spec fn collapse<T>(slots: Seq<Entry<T>>, i: int) -> Seq<Entry<T>>
    decreases i,
{
    if 0 <= i < slots.len() && slots[i] is Moved && (slots[i]->Moved_0 as int) < i {
        collapse(slots.update(i, Entry::Empty), slots[i]->Moved_0 as int)
    } else {
        slots
    }
}

/// Whether slot `i` exists and holds a value.
pub open spec fn is_owned_at<T>(slots: Seq<Entry<T>>, i: int) -> bool {
    0 <= i < slots.len() && slots[i] is Owned
}

/// The values held, in storage order.
pub open spec fn owned_values<T>(slots: Seq<Entry<T>>) -> Seq<T>
    decreases slots.len(),
{
    if slots.len() == 0 {
        Seq::empty()
    } else {
        let rest = owned_values(slots.drop_last());
        match slots.last() {
            Entry::Owned(v) => rest.push(v),
            _ => rest,
        }
    }
}

/// The slots with every trailing `Empty` slot dropped.
pub open spec fn trim_empty<T>(slots: Seq<Entry<T>>) -> Seq<Entry<T>>
    decreases slots.len(),
{
    if slots.len() > 0 && slots.last() is Empty {
        trim_empty(slots.drop_last())
    } else {
        slots
    }
}

/// The slots and the tail bound together, as a mathematical value.
pub struct StoreView<T> {
    pub slots: Seq<Entry<T>>,
    pub tail: nat,
}

/// The tail bound holds and every redirect points to a smaller index.
pub open spec fn store_wf<T>(v: StoreView<T>) -> bool {
    &&& v.tail <= v.slots.len()
    &&& forall|i: int| v.tail <= i < v.slots.len() ==> !(#[trigger] v.slots[i] is Owned)
    &&& forall|i: int|
        0 <= i < v.slots.len() && #[trigger] v.slots[i] is Moved ==> (v.slots[i]->Moved_0 as int) < i
}

/// The store after a push of `x`, and the index it took.
pub open spec fn push_model<T>(v: StoreView<T>, x: T) -> (StoreView<T>, int) {
    let at = reuse_from(v.slots, v.tail as int);
    (StoreView { slots: place(v.slots, at, x), tail: (at + 1) as nat }, at)
}

/// The store after removing the value at `target`, and the index of the
/// value relocated into `target`, if any.
pub open spec fn remove_model<T>(v: StoreView<T>, target: int) -> (StoreView<T>, Option<usize>) {
    let r = last_owned_at_or_below(v.slots, v.tail - 1);
    if r == target {
        (StoreView { slots: v.slots.update(target, Entry::Empty), tail: target as nat }, None)
    } else {
        (
            StoreView {
                slots: v.slots.update(target, v.slots[r]).update(r, Entry::Moved(target as usize)),
                tail: r as nat,
            },
            Some(r as usize),
        )
    }
}

/// The store after resolving index `i`, and the index where the chain ended.
pub open spec fn resolve_model<T>(v: StoreView<T>, i: int) -> (StoreView<T>, int) {
    (StoreView { slots: collapse(v.slots, i), tail: v.tail }, chase(v.slots, i))
}

/// The store after trailing `Empty` slots have been dropped.
pub open spec fn shrink_model<T>(v: StoreView<T>) -> StoreView<T> {
    let s = trim_empty(v.slots);
    StoreView { slots: s, tail: if v.tail <= s.len() { v.tail } else { s.len() } }
}

/// The slot store: a sequence of slots and a bound past which no slot is owned.
/// Every store satisfies [`store_wf`].
pub struct SlotStore<T> {
    tail: usize,
    items: Vec<Entry<T>>,
}

impl<T> View for SlotStore<T> {
    type V = StoreView<T>;

    closed spec fn view(&self) -> StoreView<T> {
        StoreView { slots: self.items@, tail: self.tail as nat }
    }
}

impl<T> SlotStore<T> {
    #[verifier::type_invariant]
    pub(crate) open spec fn wf(&self) -> bool {
        store_wf(self@)
    }

    /// An empty store.
    pub fn new() -> (s: Self)
        ensures
            s@.slots.len() == 0,
            s@.tail == 0,
    {
        SlotStore { tail: 0, items: Vec::new() }
    }

    /// Takes the slots and the tail out, leaving an empty store behind.
    fn take(&mut self) -> (r: (Vec<Entry<T>>, usize))
        ensures
            store_wf(old(self)@),
            r.0@ == old(self)@.slots,
            r.1 == old(self)@.tail,
    {
        proof {
            use_type_invariant(&*self);
        }
        let mut s = SlotStore::new();
        core::mem::swap(self, &mut s);
        let SlotStore { tail, items } = s;
        (items, tail)
    }

    /// The bound past which no slot is owned.
    pub fn tail(&self) -> (r: usize)
        ensures
            r == self@.tail,
    {
        self.tail
    }

    /// The number of slots, owned or not.
    pub fn len(&self) -> (r: usize)
        ensures
            r == self@.slots.len(),
    {
        self.items.len()
    }

    /// The slot at `i`, if there is one.
    pub fn slot(&self, i: usize) -> (r: Option<&Entry<T>>)
        ensures
            match r {
                Some(e) => i < self@.slots.len() && *e == self@.slots[i as int],
                None => i >= self@.slots.len(),
            },
    {
        if i < self.items.len() {
            Some(&self.items[i])
        } else {
            None
        }
    }

    /// Places `x` in the first `Empty` slot found from the tail on, past any
    /// `Moved` slots, or appends it; returns the index used.
    pub fn push(&mut self, x: T) -> (r: usize)
        requires
            old(self)@.slots.len() < usize::MAX,
        ensures
            (final(self)@, r as int) == push_model(old(self)@, x),
    {
        let (mut items, tail) = self.take();
        let ghost before = items@;
        let len = items.len();
        let mut j: usize = tail;
        proof {
            lemma_reuse_from(before, j as int);
        }
        while j < len && matches!(items[j], Entry::Moved(_))
            invariant
                items@ == before,
                len == before.len(),
                tail <= j <= len,
                reuse_from(before, tail as int) == reuse_from(before, j as int),
            decreases len - j,
        {
            j = j + 1;
        }
        let at: usize = if j < len && matches!(items[j], Entry::Empty) { j } else { len };
        assert(reuse_from(before, j as int) == at);
        if at == len {
            items.push(Entry::Owned(x));
        } else {
            items.set(at, Entry::Owned(x));
        }
        assert(items@ =~= place(before, at as int, x));
        *self = SlotStore { tail: at + 1, items };
        at
    }

    /// Vacates the owned slot `target`. When an owned slot lies above it
    /// below the tail, the last such value moves into `target` and its old
    /// slot becomes a redirect to `target`; returns that old index.
    pub fn remove(&mut self, target: usize) -> (r: Option<usize>)
        requires
            is_owned_at(old(self)@.slots, target as int),
        ensures
            (final(self)@, r) == remove_model(old(self)@, target as int),
    {
        let ghost pre = self@;
        let (mut items, tail) = self.take();
        proof {
            lemma_last_owned(pre.slots, pre.tail - 1, target as int);
        }
        let mut r: usize = tail - 1;
        while r > target && !matches!(items[r], Entry::Owned(_))
            invariant
                items@ == pre.slots,
                tail == pre.tail,
                store_wf(pre),
                target <= r < pre.tail,
                last_owned_at_or_below(pre.slots, pre.tail - 1) == last_owned_at_or_below(pre.slots, r as int),
            decreases r,
        {
            r = r - 1;
        }
        assert(last_owned_at_or_below(pre.slots, r as int) == r);
        if r == target {
            items.set(target, Entry::Empty);
            assert(items@ =~= pre.slots.update(target as int, Entry::Empty));
            *self = SlotStore { tail: target, items };
            None
        } else {
            let mut moved: Entry<T> = Entry::Moved(target);
            core::mem::swap(&mut items[r], &mut moved);
            items.set(target, moved);
            assert(items@ =~= pre.slots.update(target as int, pre.slots[r as int]).update(
                r as int,
                Entry::Moved(target),
            ));
            *self = SlotStore { tail: r, items };
            Some(r)
        }
    }

    /// Follows the redirects from `i`, vacating each one passed, and returns
    /// the index the chain ends on.
    pub fn resolve(&mut self, i: usize) -> (r: usize)
        ensures
            (final(self)@, r as int) == resolve_model(old(self)@, i as int),
    {
        let ghost pre = self@;
        let (mut items, tail) = self.take();
        let mut k: usize = i;
        while k < items.len() && matches!(items[k], Entry::Moved(_))
            invariant
                store_wf(StoreView { slots: items@, tail: tail as nat }),
                tail == pre.tail,
                collapse(items@, k as int) == collapse(pre.slots, i as int),
                chase(items@, k as int) == chase(pre.slots, i as int),
            decreases k,
        {
            if let Entry::Moved(next) = items[k] {
                let ghost s = items@;
                proof {
                    lemma_chase_update(s, next as int, k as int, Entry::Empty);
                }
                items.set(k, Entry::Empty);
                k = next;
            }
        }
        assert(chase(items@, k as int) == k as int);
        assert(collapse(items@, k as int) == items@);
        *self = SlotStore { tail, items };
        k
    }

    /// The value at `i`, if that slot is owned.
    pub fn get(&self, i: usize) -> (r: Option<&T>)
        ensures
            match r {
                Some(v) => is_owned_at(self@.slots, i as int) && self@.slots[i as int] == Entry::Owned(*v),
                None => !is_owned_at(self@.slots, i as int),
            },
    {
        if i < self.items.len() {
            self.items[i].owned()
        } else {
            None
        }
    }

    /// Puts `x` in the owned slot `i` and returns the value it held.
    pub fn replace(&mut self, i: usize, x: T) -> (r: T)
        requires
            is_owned_at(old(self)@.slots, i as int),
        ensures
            old(self)@.slots[i as int] == Entry::Owned(r),
            final(self)@ == (StoreView {
                slots: old(self)@.slots.update(i as int, Entry::Owned(x)),
                tail: old(self)@.tail,
            }),
    {
        let ghost pre = self@;
        let (mut items, tail) = self.take();
        let mut e: Entry<T> = Entry::Owned(x);
        core::mem::swap(&mut items[i], &mut e);
        assert(items@ =~= pre.slots.update(i as int, Entry::Owned(x)));
        *self = SlotStore { tail, items };
        match e {
            Entry::Owned(v) => v,
            _ => vstd::pervasive::unreached(),
        }
    }

    /// Drops trailing `Empty` slots, releases unused capacity and clamps the tail.
    pub fn shrink(&mut self)
        ensures
            final(self)@ == shrink_model(old(self)@),
    {
        let ghost pre = self@;
        let (mut items, mut tail) = self.take();
        while items.len() > 0 && matches!(items[items.len() - 1], Entry::Empty)
            invariant
                trim_empty(items@) == trim_empty(pre.slots),
                items@.len() <= pre.slots.len(),
                items@ =~= pre.slots.subrange(0, items@.len() as int),
            decreases items.len(),
        {
            items.pop();
        }
        release_capacity(&mut items);
        if tail > items.len() {
            tail = items.len();
        }
        assert(trim_empty(items@) == items@);
        *self = SlotStore { tail, items };
    }

    /// The values held, in storage order.
    pub fn values(&self) -> (r: Vec<&T>)
        ensures
            r@.map_values(|v: &T| *v) == owned_values(self@.slots),
    {
        let mut out: Vec<&T> = Vec::new();
        let mut k: usize = 0;
        while k < self.items.len()
            invariant
                k <= self.items@.len(),
                out@.map_values(|v: &T| *v) == owned_values(self.items@.subrange(0, k as int)),
            decreases self.items.len() - k,
        {
            let ghost s = self.items@;
            assert(s.subrange(0, k + 1).drop_last() =~= s.subrange(0, k as int));
            if let Some(v) = self.items[k].owned() {
                out.push(v);
            }
            k = k + 1;
            assert(out@.map_values(|v: &T| *v) =~= owned_values(s.subrange(0, k as int)));
        }
        assert(self.items@.subrange(0, k as int) =~= self.items@);
        out
    }
}

/// Relies on Vec::shrink_to_fit: it releases spare capacity and keeps the elements.
#[verifier::external_body]
fn release_capacity<T>(v: &mut Vec<T>)
    ensures
        final(v)@ == old(v)@,
{
    v.shrink_to_fit()
}

/// The values of two sequences of slots laid end to end.
pub proof fn lemma_owned_values_concat<T>(a: Seq<Entry<T>>, b: Seq<Entry<T>>)
    ensures
        owned_values(a + b) == owned_values(a) + owned_values(b),
    decreases b.len(),
{
    if b.len() == 0 {
        assert(a + b =~= a);
        assert(owned_values(a) + owned_values(b) =~= owned_values(a));
    } else {
        lemma_owned_values_concat(a, b.drop_last());
        assert((a + b).drop_last() =~= a + b.drop_last());
        assert((a + b).last() == b.last());
        match b.last() {
            Entry::Owned(v) => {
                assert(owned_values(a) + owned_values(b) =~= (owned_values(a) + owned_values(
                    b.drop_last(),
                )).push(v));
            },
            _ => {},
        }
    }
}

/// The values from index `p` on: the one at `p`, if owned, then the rest.
pub proof fn lemma_owned_values_step<T>(s: Seq<Entry<T>>, p: int)
    requires
        0 <= p < s.len(),
    ensures
        owned_values(s.skip(p)) == match s[p] {
            Entry::Owned(v) => seq![v] + owned_values(s.skip(p + 1)),
            _ => owned_values(s.skip(p + 1)),
        },
{
    let one = seq![s[p]];
    assert(s.skip(p) =~= one + s.skip(p + 1));
    lemma_owned_values_concat(one, s.skip(p + 1));
    assert(one.drop_last() =~= Seq::<Entry<T>>::empty());
    assert(owned_values(Seq::<Entry<T>>::empty()) == Seq::<T>::empty());
    match s[p] {
        Entry::Owned(v) => {
            assert(owned_values(one) =~= seq![v]);
        },
        _ => {
            assert(owned_values(one) =~= Seq::<T>::empty());
            assert(owned_values(one) + owned_values(s.skip(p + 1)) =~= owned_values(s.skip(p + 1)));
        },
    }
}

pub(crate) proof fn lemma_last_owned<T>(slots: Seq<Entry<T>>, j: int, target: int)
    requires
        0 <= target <= j < slots.len(),
        slots[target] is Owned,
    ensures
        target <= last_owned_at_or_below(slots, j) <= j,
        slots[last_owned_at_or_below(slots, j)] is Owned,
        forall|m: int| last_owned_at_or_below(slots, j) < m <= j ==> !(#[trigger] slots[m] is Owned),
    decreases j,
{
    if !(slots[j] is Owned) {
        lemma_last_owned(slots, j - 1, target);
    }
}

/// Changing a slot above `j` leaves the chain from `j` alone.
proof fn lemma_chase_update<T>(slots: Seq<Entry<T>>, j: int, k: int, e: Entry<T>)
    requires
        j < k < slots.len(),
    ensures
        chase(slots.update(k, e), j) == chase(slots, j),
    decreases j,
{
    if 0 <= j < slots.len() && slots[j] is Moved && (slots[j]->Moved_0 as int) < j {
        lemma_chase_update(slots, slots[j]->Moved_0 as int, k, e);
    }
}

/// Where a push's scan stops: at or past its start, at an `Empty` slot or
/// at the end.
pub(crate) proof fn lemma_reuse_from<T>(slots: Seq<Entry<T>>, j: int)
    requires
        0 <= j <= slots.len(),
    ensures
        j <= reuse_from(slots, j) <= slots.len(),
        reuse_from(slots, j) < slots.len() ==> slots[reuse_from(slots, j)] is Empty,
    decreases slots.len() - j,
{
    if j < slots.len() && slots[j] is Moved {
        lemma_reuse_from(slots, j + 1);
    }
}

} // verus!
