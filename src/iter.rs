use vstd::prelude::*;
use crate::entry::Entry;
use crate::store::{lemma_owned_values_step, owned_values, SlotStore, StoreView};

verus! {

/// Walks the values of a store in storage order, skipping slots that hold none.
pub struct Iter<'a, T> {
    store: &'a SlotStore<T>,
    pos: usize,
}

impl<'a, T> Iter<'a, T> {
    /// The values not yet handed out, in order.
    pub closed spec fn remaining(&self) -> Seq<T> {
        owned_values(self.store@.slots.skip(self.pos as int))
    }

    /// The cursor lies within the store.
    pub closed spec fn pos_ok(&self) -> bool {
        self.pos <= self.store@.slots.len()
    }

    /// Starts at the first slot.
    pub fn new(store: &'a SlotStore<T>) -> (r: Self)
        ensures
            r.remaining() == owned_values(store@.slots),
            r.pos_ok(),
    {
        assert(store@.slots.skip(0) =~= store@.slots);
        Iter { store, pos: 0 }
    }

    /// The next value, if any is left.
    pub fn next(&mut self) -> (r: Option<&'a T>)
        requires
            old(self).pos_ok(),
        ensures
            final(self).pos_ok(),
            match r {
                Some(v) => old(self).remaining().len() > 0 && *v == old(self).remaining()[0]
                    && final(self).remaining() == old(self).remaining().drop_first(),
                None => old(self).remaining().len() == 0 && final(self).remaining() == old(
                    self,
                ).remaining(),
            },
    {
        let store: &'a SlotStore<T> = self.store;
        let len = store.len();
        let ghost start = self.remaining();
        while self.pos < len && store.get(self.pos).is_none()
            invariant
                self.store == store,
                len == store@.slots.len(),
                self.pos <= len,
                self.remaining() == start,
            decreases len - self.pos,
        {
            proof {
                lemma_owned_values_step(store@.slots, self.pos as int);
            }
            self.pos = self.pos + 1;
        }
        if self.pos < len {
            proof {
                lemma_owned_values_step(store@.slots, self.pos as int);
            }
            let r = store.get(self.pos);
            self.pos = self.pos + 1;
            r
        } else {
            assert(store@.slots.skip(self.pos as int) =~= Seq::<Entry<T>>::empty());
            assert(owned_values(Seq::<Entry<T>>::empty()) == Seq::<T>::empty());
            None
        }
    }
}

/// Walks the values of a store in storage order and lets each one handed
/// out be replaced.
pub struct IterMut<'a, T> {
    store: &'a mut SlotStore<T>,
    pos: usize,
    last: Option<usize>,
}

impl<'a, T> IterMut<'a, T> {
    /// The values not yet handed out, in order.
    pub closed spec fn remaining(&self) -> Seq<T> {
        owned_values(self.store@.slots.skip(self.pos as int))
    }

    /// The store as it stands now.
    pub closed spec fn store_view(&self) -> StoreView<T> {
        self.store@
    }

    /// The index of the value handed out last, if any.
    pub closed spec fn last(&self) -> Option<usize> {
        self.last
    }

    /// The cursor lies within the store.
    pub closed spec fn pos_ok(&self) -> bool {
        &&& self.pos <= self.store@.slots.len()
        &&& (self.last matches Some(k) ==> k < self.pos && self.store@.slots[k as int] is Owned)
    }

    /// Starts at the first slot.
    pub fn new(store: &'a mut SlotStore<T>) -> (r: Self)
        ensures
            r.remaining() == owned_values(old(store)@.slots),
            r.store_view() == old(store)@,
            r.last() is None,
            r.pos_ok(),
    {
        assert(store@.slots.skip(0) =~= store@.slots);
        IterMut { store, pos: 0, last: None }
    }

    /// The next value, if any is left.
    pub fn next(&mut self) -> (r: Option<&T>)
        requires
            old(self).pos_ok(),
        ensures
            final(self).pos_ok(),
            final(self).store_view() == old(self).store_view(),
            match r {
                Some(v) => {
                    &&& old(self).remaining().len() > 0
                    &&& *v == old(self).remaining()[0]
                    &&& final(self).remaining() == old(self).remaining().drop_first()
                    &&& final(self).last() is Some
                    &&& final(self).store_view().slots[final(self).last()->0 as int] == Entry::Owned(*v)
                },
                None => old(self).remaining().len() == 0 && final(self).remaining() == old(
                    self,
                ).remaining(),
            },
    {
        let len = self.store.len();
        let ghost start = self.remaining();
        while self.pos < len && self.store.get(self.pos).is_none()
            invariant
                len == self.store@.slots.len(),
                self.pos <= len,
                self.remaining() == start,
                self.store_view() == old(self).store_view(),
                self.pos_ok(),
            decreases len - self.pos,
        {
            proof {
                lemma_owned_values_step(self.store@.slots, self.pos as int);
            }
            self.pos = self.pos + 1;
        }
        if self.pos < len {
            proof {
                lemma_owned_values_step(self.store@.slots, self.pos as int);
            }
            let k = self.pos;
            self.pos = self.pos + 1;
            self.last = Some(k);
            self.store.get(k)
        } else {
            assert(self.store@.slots.skip(self.pos as int) =~= Seq::<Entry<T>>::empty());
            assert(owned_values(Seq::<Entry<T>>::empty()) == Seq::<T>::empty());
            None
        }
    }

    /// Puts `x` in place of the value handed out last and returns that value;
    /// `None`, with nothing changed, before the first one.
    pub fn replace(&mut self, x: T) -> (r: Option<T>)
        requires
            old(self).pos_ok(),
        ensures
            final(self).pos_ok(),
            final(self).last() == old(self).last(),
            final(self).remaining() == old(self).remaining(),
            match old(self).last() {
                Some(k) => {
                    &&& r is Some
                    &&& old(self).store_view().slots[k as int] == Entry::Owned(r->0)
                    &&& final(self).store_view() == (StoreView {
                        slots: old(self).store_view().slots.update(k as int, Entry::Owned(x)),
                        tail: old(self).store_view().tail,
                    })
                },
                None => r is None && final(self).store_view() == old(self).store_view(),
            },
    {
        match self.last {
            Some(k) => {
                let ghost before = self.store@.slots;
                let y = self.store.replace(k, x);
                assert(self.store@.slots.skip(self.pos as int) =~= before.skip(self.pos as int));
                Some(y)
            },
            None => None,
        }
    }
}

} // verus!
