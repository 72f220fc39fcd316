//! The wake handles of all slots, with the bitmap they write to.

use crate::readiness::all_ready;
use crate::readiness::ReadinessVec;
use crate::waker::woken;
use crate::waker::InlineWaker;
use std::task::Waker;
use vstd::prelude::*;

verus! {

/// One wake handle per slot, and the readiness bitmap that all of them
/// mark.
pub struct WakerVec {
    wakers: Vec<InlineWaker>,
    readiness: ReadinessVec,
}

impl WakerVec {
    /// The handles, by slot.
    pub closed spec fn handles(&self) -> Seq<InlineWaker> {
        self.wakers@
    }

    /// The bitmap that the handles mark.
    pub closed spec fn bitmap(&self) -> ReadinessVec {
        self.readiness
    }

    /// There is one handle per flag, handle `i` belongs to slot `i`, and
    /// the bitmap's count is right.
    pub open spec fn wf(&self) -> bool {
        &&& self.bitmap().wf()
        &&& self.handles().len() == self.bitmap()@.len()
        &&& forall|i: int| 0 <= i < self.handles().len() ==> (#[trigger] self.handles()[i]).id == i
    }

    /// Handles and bitmap for `len` slots. Every flag starts set, and no
    /// outer handle is registered.
    pub fn new(len: usize) -> (r: Self)
        ensures
            r.wf(),
            r.bitmap()@ == all_ready(len as nat),
            r.bitmap().parent() is None,
    {
        let readiness = ReadinessVec::new(len);
        let mut wakers: Vec<InlineWaker> = Vec::new();
        let mut i: usize = 0;
        while i < len
            invariant
                i <= len,
                wakers@.len() == i,
                forall|j: int| 0 <= j < i ==> (#[trigger] wakers@[j]).id == j,
            decreases len - i,
        {
            wakers.push(InlineWaker::new(i));
            i = i + 1;
        }
        WakerVec { wakers, readiness }
    }

    /// The number of slots.
    pub fn len(&self) -> (n: usize)
        ensures
            n == self.handles().len(),
    {
        self.wakers.len()
    }

    /// The handle of slot `index`, or `None` where there is no such slot.
    pub fn get(&self, index: usize) -> (w: Option<&InlineWaker>)
        ensures
            w is Some <==> index < self.handles().len(),
            w is Some ==> *w->0 == self.handles()[index as int],
    {
        if index < self.wakers.len() {
            Some(&self.wakers[index])
        } else {
            None
        }
    }

    /// The bitmap, to read.
    pub fn readiness(&self) -> (r: &ReadinessVec)
        ensures
            *r == self.bitmap(),
    {
        &self.readiness
    }

    /// The bitmap, to change. The handles stay as they are.
    pub fn readiness_mut(&mut self) -> (r: &mut ReadinessVec)
        ensures
            *r == old(self).bitmap(),
            final(self).bitmap() == *final(r),
            final(self).handles() == old(self).handles(),
    {
        &mut self.readiness
    }

    /// Fires the handle of slot `index`: sets the slot's flag and returns
    /// the outer wake handle to invoke, if one is registered. Where there
    /// is no such slot, nothing happens.
    pub fn wake(&mut self, index: usize) -> (outer: Option<&Waker>)
        requires
            old(self).wf(),
        ensures
            final(self).wf(),
            final(self).handles() == old(self).handles(),
            final(self).bitmap().parent() == old(self).bitmap().parent(),
            final(self).bitmap()@ == woken(old(self).bitmap()@, index as int),
            outer is Some <==> index < old(self).handles().len() && old(self).bitmap().parent() is Some,
            outer is Some ==> *outer->0 == old(self).bitmap().parent()->0,
    {
        if index < self.wakers.len() {
            let handle: InlineWaker = self.wakers[index];
            handle.wake(&mut self.readiness)
        } else {
            None
        }
    }
}

} // verus!
