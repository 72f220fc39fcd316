//! The readiness bitmap: which slots are due for a poll, and whom to tell.

use std::task::Waker;
use vstd::prelude::*;

verus! {

/// `std::task::Waker`, declared so that a bitmap can keep the outer wake
/// handle. Nothing is said of what a `Waker` holds or does: the library
/// stores the handle and gives it back, and never invokes it.
#[verifier::external_type_specification]
#[verifier::external_body]
pub struct ExWaker(Waker);

/// How many flags of `flags` are set.
pub open spec fn count_ready(flags: Seq<bool>) -> nat
    decreases flags.len(),
{
    if flags.len() == 0 {
        0
    } else {
        count_ready(flags.drop_last()) + if flags.last() {
            1nat
        } else {
            0nat
        }
    }
}

/// `n` flags, all set.
pub open spec fn all_ready(n: nat) -> Seq<bool> {
    Seq::new(n, |i: int| true)
}

/// `n` flags, none set.
pub open spec fn none_ready(n: nat) -> Seq<bool> {
    Seq::new(n, |i: int| false)
}

/// Writing flag `i` moves the count by the difference between the new and
/// the old flag.
pub proof fn lemma_count_update(flags: Seq<bool>, i: int, value: bool)
    requires
        0 <= i < flags.len(),
    ensures
        count_ready(flags.update(i, value)) + (if flags[i] { 1nat } else { 0nat })
            == count_ready(flags) + (if value { 1nat } else { 0nat }),
    decreases flags.len(),
{
    let after = flags.update(i, value);
    if i == flags.len() - 1 {
        assert(after.drop_last() =~= flags.drop_last());
    } else {
        assert(after.drop_last() =~= flags.drop_last().update(i, value));
        lemma_count_update(flags.drop_last(), i, value);
    }
}

/// The count never exceeds the number of flags; it is zero exactly when no
/// flag is set, and equal to the length exactly when all are.
pub proof fn lemma_count_bounds(flags: Seq<bool>)
    ensures
        count_ready(flags) <= flags.len(),
        count_ready(flags) == 0 <==> (forall|i: int| 0 <= i < flags.len() ==> !flags[i]),
        count_ready(flags) == flags.len() <==> (forall|i: int| 0 <= i < flags.len() ==> flags[i]),
        count_ready(flags) > 0 <==> (exists|i: int| 0 <= i < flags.len() && flags[i]),
    decreases flags.len(),
{
    if flags.len() > 0 {
        let front = flags.drop_last();
        lemma_count_bounds(front);
        assert(forall|i: int| 0 <= i < front.len() ==> front[i] == flags[i]);
        if count_ready(flags) == 0 {
            assert forall|i: int| 0 <= i < flags.len() implies !flags[i] by {
                if i < front.len() {
                    assert(!front[i]);
                }
            }
        }
        if count_ready(flags) == flags.len() {
            assert forall|i: int| 0 <= i < flags.len() implies flags[i] by {
                if i < front.len() {
                    assert(front[i]);
                }
            }
        }
    }
}

/// One flag per slot, a running count of the set flags, and the outer wake
/// handle registered last.
///
/// A set flag means that the slot has not been polled since it was last
/// marked, so it is due for a poll.
pub struct ReadinessVec {
    count: usize,
    ready: Vec<bool>,
    parent_waker: Option<Waker>,
}

impl View for ReadinessVec {
    type V = Seq<bool>;

    /// The flags, by slot.
    closed spec fn view(&self) -> Seq<bool> {
        self.ready@
    }
}

impl ReadinessVec {
    /// The running count agrees with the flags.
    pub closed spec fn wf(&self) -> bool {
        self.count == count_ready(self.ready@)
    }

    /// The outer wake handle registered last, if any.
    pub closed spec fn parent(&self) -> Option<Waker> {
        self.parent_waker
    }

    /// A bitmap of `count` slots, every flag set and no handle registered:
    /// each slot has to be polled at least once.
    pub fn new(count: usize) -> (r: Self)
        ensures
            r.wf(),
            r@ == all_ready(count as nat),
            r.parent() is None,
    {
        let mut ready: Vec<bool> = Vec::new();
        let mut i: usize = 0;
        while i < count
            invariant
                i <= count,
                ready@ == all_ready(i as nat),
            decreases count - i,
        {
            ready.push(true);
            i = i + 1;
        }
        proof {
            lemma_count_bounds(ready@);
        }
        ReadinessVec { count, ready, parent_waker: None }
    }

    /// The number of slots.
    pub fn len(&self) -> (n: usize)
        ensures
            n == self@.len(),
    {
        self.ready.len()
    }

    /// Sets the flag of slot `id` and returns whether it was set before.
    pub fn set_ready(&mut self, id: usize) -> (was_ready: bool)
        requires
            old(self).wf(),
            id < old(self)@.len(),
        ensures
            final(self).wf(),
            final(self)@ == old(self)@.update(id as int, true),
            final(self).parent() == old(self).parent(),
            was_ready == old(self)@[id as int],
    {
        proof {
            lemma_count_update(self.ready@, id as int, true);
            lemma_count_bounds(self.ready@);
        }
        if !self.ready[id] {
            assert(self.count < self.ready.len()) by {
                assert(!self.ready@[id as int]);
            }
            self.count = self.count + 1;
            self.ready.set(id, true);
            false
        } else {
            assert(self.ready@.update(id as int, true) =~= self.ready@);
            true
        }
    }

    /// Sets every flag.
    pub fn set_all_ready(&mut self)
        requires
            old(self).wf(),
        ensures
            final(self).wf(),
            final(self)@ == all_ready(old(self)@.len()),
            final(self).parent() == old(self).parent(),
    {
        let n: usize = self.ready.len();
        let mut i: usize = 0;
        while i < n
            invariant
                i <= n,
                self.ready@.len() == n,
                forall|j: int| 0 <= j < i ==> self.ready@[j],
                self.parent_waker == old(self).parent_waker,
            decreases n - i,
        {
            self.ready.set(i, true);
            i = i + 1;
        }
        self.count = n;
        proof {
            assert(self.ready@ =~= all_ready(n as nat));
            lemma_count_bounds(self.ready@);
        }
    }

    /// Clears the flag of slot `id` and returns whether it was set: `true`
    /// tells the caller that the slot is due for a poll.
    pub fn clear_ready(&mut self, id: usize) -> (was_ready: bool)
        requires
            old(self).wf(),
            id < old(self)@.len(),
        ensures
            final(self).wf(),
            final(self)@ == old(self)@.update(id as int, false),
            final(self).parent() == old(self).parent(),
            was_ready == old(self)@[id as int],
    {
        proof {
            lemma_count_update(self.ready@, id as int, false);
        }
        if self.ready[id] {
            self.count = self.count - 1;
            self.ready.set(id, false);
            true
        } else {
            assert(self.ready@.update(id as int, false) =~= self.ready@);
            false
        }
    }

    /// Whether any flag is set.
    pub fn any_ready(&self) -> (any: bool)
        requires
            self.wf(),
        ensures
            any <==> exists|i: int| 0 <= i < self@.len() && self@[i],
    {
        proof {
            lemma_count_bounds(self.ready@);
            assert(self@ == self.ready@);
        }
        self.count > 0
    }

    /// The outer wake handle registered last, if any.
    pub fn parent_waker(&self) -> (w: Option<&Waker>)
        ensures
            w is Some <==> self.parent() is Some,
            w is Some ==> *w->0 == self.parent()->0,
    {
        self.parent_waker.as_ref()
    }

    /// Registers `parent_waker` as the outer wake handle, in place of the
    /// one registered before. The flags stay as they are.
    pub fn set_waker(&mut self, parent_waker: Waker)
        requires
            old(self).wf(),
        ensures
            final(self).wf(),
            final(self)@ == old(self)@,
            final(self).parent() == Some(parent_waker),
    {
        self.parent_waker = Some(parent_waker);
    }
}

} // verus!
