//! A growable store whose items are addressed by stable integer handles.

use vstd::prelude::*;

verus! {

/// The position of an item in an [`Arena`]. A handle stays valid for as long
/// as the arena lives: items are never removed or moved.
pub type Handle = usize;

/// An append-only store of items. Its view is the sequence of stored items,
/// and the handle of an item is its position in that sequence.
pub struct Arena<T> {
    data: Vec<T>,
}

impl<T> View for Arena<T> {
    type V = Seq<T>;

    closed spec fn view(&self) -> Seq<T> {
        self.data@
    }
}

impl<T> Arena<T> {
    /// An arena that holds nothing yet.
    pub fn new() -> (arena: Self)
        ensures
            arena@ == Seq::<T>::empty(),
    {
        Arena { data: Vec::new() }
    }

    /// The number of items stored so far.
    pub fn len(&self) -> (n: usize)
        ensures
            n == self@.len(),
    {
        self.data.len()
    }

    /// The item behind `handle`, or `None` when nothing was stored under it.
    pub fn get(&self, handle: Handle) -> (item: Option<&T>)
        ensures
            handle < self@.len() ==> item == Some(&self@[handle as int]),
            handle >= self@.len() ==> item is None,
    {
        if handle < self.data.len() {
            Some(&self.data[handle])
        } else {
            None
        }
    }

    /// Mutable access to the item behind `handle`. Writing through the
    /// reference replaces that one item and leaves every other in place.
    pub fn get_mut(&mut self, handle: Handle) -> (item: Option<&mut T>)
        ensures
            match item {
                Some(slot) => {
                    &&& handle < old(self)@.len()
                    &&& *slot == old(self)@[handle as int]
                    &&& final(self)@ == old(self)@.update(handle as int, *final(slot))
                },
                None => handle >= old(self)@.len() && final(self)@ == old(self)@,
            },
    {
        if handle < self.data.len() {
            Some(&mut self.data[handle])
        } else {
            None
        }
    }

    /// Appends `data` and returns the handle it can be found under from now on.
    pub fn store(&mut self, data: T) -> (handle: Handle)
        ensures
            handle == old(self)@.len(),
            final(self)@ == old(self)@.push(data),
    {
        self.data.push(data);
        self.data.len() - 1
    }
}

} // verus!
