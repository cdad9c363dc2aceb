use vstd::prelude::*;

verus! {

/// One storage cell.
#[derive(Debug, Clone)]
pub enum Entry<T> {
    /// Free for reuse by a later push.
    Empty,
    /// Holds a live value.
    Owned(T),
    /// The value that lived here now lives at the given (smaller) index.
    Moved(usize),
}

impl<T> Entry<T> {
    /// The value held, if the cell is owned.
    pub fn owned(&self) -> (r: Option<&T>)
        ensures
            match r {
                Some(v) => *self == Entry::Owned(*v),
                None => !(*self is Owned),
            },
    {
        match self {
            Entry::Owned(t) => Some(t),
            _ => None,
        }
    }

    /// Mutable access to the value held, if the cell is owned.
    pub fn owned_mut(&mut self) -> (r: Option<&mut T>)
        ensures
            match r {
                Some(v) => *old(self) == Entry::Owned(*v) && *final(self) == Entry::Owned(*final(v)),
                None => !(*old(self) is Owned) && *final(self) == *old(self),
            },
    {
        match self {
            Entry::Owned(t) => Some(t),
            _ => None,
        }
    }
}

} // verus!
