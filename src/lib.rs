//! A vector whose items are rented out: each push hands back a lease that
//! keeps reaching its value while removals keep the storage compact.
//!
//! Removing a value moves the last value below the tail into the freed slot
//! and leaves a redirect behind; a lease follows such redirects the next time
//! it is resolved and vacates them on the way.
//!
//! The store sits behind a reader-writer lock. Every operation takes it
//! exclusively: resolving a lease vacates redirects, which is a write. The
//! guards ([`LeaseGuard`], [`RentVecGuard`]) hold the lock until their
//! `release` is called; a guard dropped without it leaves the lock held.
pub mod entry;
pub mod iter;
pub mod laws;
pub mod store;

use vstd::prelude::*;
use vstd::rwlock::{RwLock, RwLockPredicate, WriteHandle};
use crate::iter::{Iter, IterMut};
use crate::store::{
    is_owned_at, owned_values, push_model, remove_model, resolve_model, store_wf, SlotStore,
    StoreView,
};

verus! {

/// What the lock guarantees of the store it guards: it is well formed.
pub struct StoreInv;

impl<T> RwLockPredicate<SlotStore<T>> for StoreInv {
    open spec fn inv(self, v: SlotStore<T>) -> bool {
        store_wf(v@)
    }
}

/// The container: a slot store behind a reader-writer lock.
pub struct RentVec<T> {
    lock: RwLock<SlotStore<T>, StoreInv>,
}

/// A handle on one value of a [`RentVec`]: the index where the value was last
/// seen, and the container.
pub struct Lease<'v, T> {
    entry: usize,
    tenant: &'v RentVec<T>,
}

/// Access to the value of one lease, holding the container's lock until
/// [`LeaseGuard::release`] is called.
pub struct LeaseGuard<'l, T> {
    store: SlotStore<T>,
    handle: WriteHandle<'l, SlotStore<T>, StoreInv>,
    index: usize,
}

/// Exclusive access to the whole container for iteration, holding its lock
/// until [`RentVecGuard::release`] is called.
pub struct RentVecGuard<'a, T> {
    store: SlotStore<T>,
    handle: WriteHandle<'a, SlotStore<T>, StoreInv>,
}

impl<T> RentVec<T> {
    /// An empty container.
    pub fn new() -> Self {
        RentVec { lock: RwLock::new(SlotStore::new(), Ghost(StoreInv)) }
    }

    /// Stores `item` and returns its lease. The index is the one a push of
    /// `item` picks on the store as it stood when the lock was taken. `None`,
    /// with `item` dropped, only when the store already holds as many slots
    /// as an index can count.
    pub fn push(&self, item: T) -> (r: Option<Lease<'_, T>>)
        ensures
            match r {
                Some(l) => l.tenant() == self && exists|s: StoreView<T>|
                    #[trigger] store_wf(s) && s.slots.len() < usize::MAX && push_model(s, item).1
                        == l.index(),
                None => exists|s: StoreView<T>| #[trigger] store_wf(s) && s.slots.len() == usize::MAX,
            },
    {
        let (mut store, handle) = self.lock.acquire_write();
        let ghost before = store@;
        if store.len() < usize::MAX {
            let at = store.push(item);
            proof {
                use_type_invariant(&store);
            }
            handle.release_write(store);
            let lease = Lease { entry: at, tenant: self };
            assert(store_wf(before));
            Some(lease)
        } else {
            handle.release_write(store);
            assert(store_wf(before));
            None
        }
    }

    /// Under the lock, resolves `entry` and vacates the slot the chain ends
    /// on, if it holds a value; returns the index of the value moved into that
    /// slot to keep the store compact, if one was.
    fn remove(&self, entry: usize) -> (r: Option<usize>)
        ensures
            exists|s: StoreView<T>|
                #[trigger] store_wf(s) && ({
                    let (t, k) = resolve_model(s, entry as int);
                    if is_owned_at(t.slots, k) {
                        r == remove_model(t, k).1
                    } else {
                        r is None
                    }
                }),
    {
        let (mut store, handle) = self.lock.acquire_write();
        let ghost before = store@;
        let k = store.resolve(entry);
        let moved = if store.get(k).is_some() {
            store.remove(k)
        } else {
            None
        };
        proof {
            use_type_invariant(&store);
        }
        handle.release_write(store);
        assert(store_wf(before));
        moved
    }

    /// Takes the lock exclusively, for iteration.
    pub fn guard(&self) -> (r: RentVecGuard<'_, T>)
        ensures
            store_wf(r.store_view()),
    {
        let (store, handle) = self.lock.acquire_write();
        RentVecGuard { store, handle }
    }

    /// Drops trailing `Empty` slots and releases unused capacity; no value
    /// moves, so every lease still resolves as before.
    pub fn shrink(&self) {
        let (mut store, handle) = self.lock.acquire_write();
        store.shrink();
        proof {
            use_type_invariant(&store);
        }
        handle.release_write(store);
    }
}

impl<'v, T> Lease<'v, T> {
    /// The index where the value was last seen.
    pub closed spec fn index(&self) -> usize {
        self.entry
    }

    /// The container the value lives in.
    pub closed spec fn tenant(&self) -> &'v RentVec<T> {
        self.tenant
    }

    /// The index where the value was last seen.
    pub fn entry(&self) -> (r: usize)
        ensures
            r == self.index(),
    {
        self.entry
    }

    /// Resolves the lease under the container's lock: follows the redirects
    /// from the index last seen, vacating each, and records where the chain
    /// ends. Gives access to the value there, or `None` when that slot holds
    /// no value (it was removed).
    pub fn guard(&mut self) -> (r: Option<LeaseGuard<'_, T>>)
        ensures
            final(self).tenant() == old(self).tenant(),
            exists|s: StoreView<T>|
                #[trigger] store_wf(s) && resolve_model(s, old(self).index() as int).1
                    == final(self).index() && match r {
                    Some(g) => g.holds_value() && g.index() == final(self).index() && g.store_view() == resolve_model(
                        s,
                        old(self).index() as int,
                    ).0,
                    None => !is_owned_at(
                        resolve_model(s, old(self).index() as int).0.slots,
                        final(self).index() as int,
                    ),
                },
    {
        let (mut store, handle) = self.tenant.lock.acquire_write();
        let ghost before = store@;
        let k = store.resolve(self.entry);
        self.entry = k;
        if store.get(k).is_some() {
            let g = LeaseGuard { store, handle, index: k };
            assert(store_wf(before));
            Some(g)
        } else {
            proof {
                use_type_invariant(&store);
            }
            handle.release_write(store);
            assert(store_wf(before));
            None
        }
    }

    /// Removes the value: resolves the lease first, so that a value that has
    /// moved since the lease last saw it is the one removed, then vacates its
    /// slot. Does nothing when the value is already gone.
    pub fn remove(self) {
        self.tenant.remove(self.entry);
    }
}

impl<'l, T> LeaseGuard<'l, T> {
    /// The slot at the guard's index holds a value; every guard that
    /// [`Lease::guard`] hands out does, and [`LeaseGuard::set`] keeps it so.
    pub closed spec fn holds_value(&self) -> bool {
        is_owned_at(self.store@.slots, self.index as int)
    }

    /// The index of the value.
    pub closed spec fn index(&self) -> usize {
        self.index
    }

    /// The store, as the lock holder sees it.
    pub closed spec fn store_view(&self) -> StoreView<T> {
        self.store@
    }

    /// The value the lease resolved to.
    pub fn get(&self) -> (r: &T)
        requires
            self.holds_value(),
        ensures
            self.store_view().slots[self.index() as int] == crate::entry::Entry::Owned(*r),
    {
        match self.store.get(self.index) {
            Some(v) => v,
            None => vstd::pervasive::unreached(),
        }
    }

    /// Puts `x` in place of the value and returns the value it replaces.
    pub fn set(&mut self, x: T) -> (r: T)
        requires
            old(self).holds_value(),
        ensures
            final(self).holds_value(),
            final(self).index() == old(self).index(),
            old(self).store_view().slots[old(self).index() as int] == crate::entry::Entry::Owned(r),
            final(self).store_view() == (StoreView {
                slots: old(self).store_view().slots.update(old(self).index() as int, crate::entry::Entry::Owned(x)),
                tail: old(self).store_view().tail,
            }),
    {
        self.store.replace(self.index, x)
    }

    /// Gives the lock back.
    pub fn release(self) {
        let LeaseGuard { store, handle, index: _ } = self;
        proof {
            use_type_invariant(&store);
        }
        handle.release_write(store);
    }
}

impl<'a, T> RentVecGuard<'a, T> {
    /// The store, as the lock holder sees it.
    pub closed spec fn store_view(&self) -> StoreView<T> {
        self.store@
    }

    /// The values, in storage order.
    pub fn iter(&self) -> (r: Iter<'_, T>)
        ensures
            r.remaining() == owned_values(self.store_view().slots),
            r.pos_ok(),
    {
        Iter::new(&self.store)
    }

    /// The values, in storage order, each of which may be replaced in turn.
    pub fn iter_mut(&mut self) -> (r: IterMut<'_, T>)
        ensures
            r.remaining() == owned_values(old(self).store_view().slots),
            r.store_view() == old(self).store_view(),
            r.last() is None,
            r.pos_ok(),
    {
        IterMut::new(&mut self.store)
    }

    /// Gives the lock back.
    pub fn release(self) {
        let RentVecGuard { store, handle } = self;
        proof {
            use_type_invariant(&store);
        }
        handle.release_write(store);
    }
}

} // verus!
