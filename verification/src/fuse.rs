//! Remembering that a sequence has ended.

use vstd::prelude::*;

verus! {

/// What one poll of a sequence gave.
#[derive(Debug, PartialEq, Eq)]
pub enum StreamPoll<T> {
    /// Nothing yet; the sequence will fire its wake handle.
    Pending,
    /// The next item.
    Item(T),
    /// The sequence has ended.
    Done,
}

/// The fuse of one sequence: once the sequence has reported its end, it is
/// never polled again, and every later poll is answered with `Done`.
#[derive(Clone, Copy, Debug)]
pub struct Fuse {
    done: bool,
}

impl Fuse {
    /// Whether the sequence has reported its end.
    pub closed spec fn exhausted(&self) -> bool {
        self.done
    }

    /// The fuse of a sequence that has not ended.
    pub fn new() -> (r: Self)
        ensures
            !r.exhausted(),
    {
        Fuse { done: false }
    }

    /// Whether the sequence has reported its end. While this is `false` a
    /// poll goes to the sequence and its answer to `settle`.
    pub fn is_done(&self) -> (b: bool)
        ensures
            b == self.exhausted(),
    {
        self.done
    }

    /// The answer of the fused sequence to one poll, where `inner` is what
    /// the sequence itself gave. After the end has been seen the answer is
    /// `Done` whatever `inner` holds; before, it is `inner`, and `Done`
    /// blows the fuse.
    pub fn settle<T>(&mut self, inner: StreamPoll<T>) -> (fused: StreamPoll<T>)
        ensures
            fused == fused_poll(old(self).exhausted(), inner),
            final(self).exhausted() == (old(self).exhausted() || inner is Done),
    {
        if self.done {
            StreamPoll::Done
        } else {
            match inner {
                StreamPoll::Done => {
                    self.done = true;
                    StreamPoll::Done
                },
                other => other,
            }
        }
    }
}

/// What a fused sequence answers when the fuse is blown or not and the
/// sequence itself gave `inner`.
pub open spec fn fused_poll<T>(exhausted: bool, inner: StreamPoll<T>) -> StreamPoll<T> {
    if exhausted {
        StreamPoll::Done
    } else {
        inner
    }
}

} // verus!
