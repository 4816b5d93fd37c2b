//! A value paired with a flag that records whether it changed since it was last read.

use vstd::prelude::*;

verus! {

/// A value together with a `dirty` flag.
///
/// The flag is raised by construction and by every `set`, and lowered by `clean`,
/// so a consumer can tell whether the value has to be looked at again.
pub struct StateValue<T> {
    pub dirty: bool,
    pub value: T,
}

impl<T> StateValue<T> {
    /// A fresh value starts dirty, so that its first consumer acts on it.
    pub fn new(initial: T) -> (s: Self)
        ensures
            s.dirty,
            s.value == initial,
    {
        Self { dirty: true, value: initial }
    }

    /// Replaces the value and raises the flag, whether or not the value differs.
    pub fn set(&mut self, value: T)
        ensures
            final(self).dirty,
            final(self).value == value,
    {
        self.value = value;
        self.dirty = true;
    }

    /// Lowers the flag and leaves the value alone.
    pub fn clean(&mut self)
        ensures
            !final(self).dirty,
            final(self).value == old(self).value,
    {
        self.dirty = false;
    }
}

/// Whether the cursor is locked to the window.
pub struct CursorModeRes {
    pub locked: StateValue<bool>,
}

impl CursorModeRes {
    /// Asks for the cursor mode to be applied again, as when the window regains
    /// the focus: the value stays, and is marked dirty.
    pub fn focus(&mut self)
        ensures
            final(self).locked.dirty,
            final(self).locked.value == old(self).locked.value,
    {
        self.locked.dirty = true;
    }
}

} // verus!
