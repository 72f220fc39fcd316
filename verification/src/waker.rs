//! The wake handle of one slot.

use crate::readiness::ReadinessVec;
use std::task::Waker;
use vstd::prelude::*;

verus! {

/// Wake handle of slot `id`: firing it marks the slot as due for a poll and
/// names the outer handle that has to be told.
///
/// The handle holds nothing but the slot's index, so it may be copied
/// freely and fired any number of times.
#[derive(Clone, Copy, Debug)]
pub struct InlineWaker {
    /// The slot this handle belongs to.
    pub id: usize,
}

impl InlineWaker {
    /// The handle of slot `id`.
    pub fn new(id: usize) -> (r: Self)
        ensures
            r.id == id,
    {
        InlineWaker { id }
    }

    /// Fires the handle: sets the flag of its slot in `readiness` and
    /// returns the outer wake handle registered there, which the caller
    /// invokes. `None` means that no handle is registered and nobody is
    /// told.
    ///
    /// Firing is harmless at any time and any number of times. Where
    /// `readiness` has no flag for the slot, nothing happens.
    pub fn wake<'a>(&self, readiness: &'a mut ReadinessVec) -> (outer: Option<&'a Waker>)
        requires
            old(readiness).wf(),
        ensures
            final(readiness).wf(),
            final(readiness).parent() == old(readiness).parent(),
            final(readiness)@ == woken(old(readiness)@, self.id as int),
            outer is Some <==> self.id < old(readiness)@.len() && old(readiness).parent() is Some,
            outer is Some ==> *outer->0 == old(readiness).parent()->0,
    {
        if self.id < readiness.len() {
            readiness.set_ready(self.id);
            readiness.parent_waker()
        } else {
            None
        }
    }
}

/// The flags after the wake handle of `slot` has fired: the slot's flag is
/// set, where there is one.
pub open spec fn woken(flags: Seq<bool>, slot: int) -> Seq<bool> {
    if 0 <= slot < flags.len() {
        flags.update(slot, true)
    } else {
        flags
    }
}

} // verus!
