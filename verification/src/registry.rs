//! A slot arena with stable integer handles, used to own meshes and
//! entities while chunks refer to them by handle.

use vstd::prelude::*;

verus! {

/// A stable reference into a `Registry`.  A handle stays valid until the
/// slot it names is removed; slots are never reused, so a removed handle
/// can only ever read back `None`.
#[derive(Clone, Copy, PartialEq, Eq, Structural, Debug)]
pub struct Handle {
    pub id: usize,
}

/// Arena of optional slots; the view is the sequence of slots, where a
/// `None` slot is one that was removed (or never filled).
pub struct Registry<T> {
    slots: Vec<Option<T>>,
}

impl<T> View for Registry<T> {
    type V = Seq<Option<T>>;

    closed spec fn view(&self) -> Seq<Option<T>> {
        self.slots@
    }
}

impl<T> Registry<T> {
    pub fn new() -> (r: Self)
        ensures
            r@.len() == 0,
    {
        Registry { slots: Vec::new() }
    }

    pub fn len(&self) -> (n: usize)
        ensures
            n == self@.len(),
    {
        self.slots.len()
    }

    /// Stores a value and hands back the handle of its fresh slot.
    pub fn add(&mut self, value: T) -> (h: Handle)
        ensures
            final(self)@ == old(self)@.push(Some(value)),
            h.id == old(self)@.len(),
    {
        let id = self.slots.len();
        self.slots.push(Some(value));
        Handle { id }
    }

    /// Reads the slot a handle names; `None` for a removed or foreign handle.
    pub fn get(&self, handle: &Handle) -> (r: Option<&T>)
        ensures
            match r {
                Some(v) => handle.id < self@.len() && self@[handle.id as int] == Some(*v),
                None => handle.id >= self@.len() || self@[handle.id as int] is None,
            },
    {
        if handle.id < self.slots.len() {
            match &self.slots[handle.id] {
                Some(v) => Some(v),
                None => None,
            }
        } else {
            None
        }
    }

    /// Frees the slot a handle names; removing an unknown handle is a no-op.
    pub fn remove(&mut self, handle: Handle)
        ensures
            final(self)@ == if handle.id < old(self)@.len() {
                old(self)@.update(handle.id as int, None)
            } else {
                old(self)@
            },
    {
        if handle.id < self.slots.len() {
            self.slots.set(handle.id, None);
        }
    }
}

} // verus!
