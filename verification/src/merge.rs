//! Merging sequences: which slot is polled next, and when the merge ends.

use crate::fuse::fused_poll;
use crate::fuse::Fuse;
use crate::fuse::StreamPoll;
use crate::readiness::count_ready;
use crate::readiness::lemma_count_bounds;
use crate::readiness::lemma_count_update;
use crate::readiness::none_ready;
use crate::readiness::ReadinessVec;
use crate::rng::scale;
use crate::rng::seeded;
use crate::rng::xorshift;
use crate::rng::RandomGenerator;
use std::marker::PhantomData;
use std::task::Waker;
use vstd::arithmetic::div_mod::lemma_add_mod_noop_right;
use vstd::arithmetic::div_mod::lemma_mod_bound;
use vstd::arithmetic::div_mod::lemma_small_mod;
use vstd::prelude::*;

verus! {

/// What the merge asks of its caller, or answers to it.
#[derive(Debug, PartialEq, Eq)]
pub enum MergeStep<T> {
    /// Poll the sequence of this slot through the slot's wake handle and
    /// hand its answer to `resume`.
    Poll(usize),
    /// Nothing is due: the outer poll returns "not yet".
    Pending,
    /// The outer poll returns this item.
    Item(T),
    /// The outer poll reports the end of the merged sequence.
    Done,
}

/// The state of a merge as contracts see it.
pub struct MergeView {
    /// By slot: whether the slot's sequence has reported its end.
    pub exhausted: Seq<bool>,
    /// How many sequences have reported their end.
    pub complete: nat,
    /// The word the start-index generator continues from.
    pub rng: u32,
    /// How many slots the outer poll that is under way may still look at.
    pub left: nat,
}

/// What one scan leaves behind.
pub struct Scan<T> {
    /// The readiness flags after the scan.
    pub flags: Seq<bool>,
    /// How many slots the scan was allowed to look at and has not.
    pub left: nat,
    /// What the scan ended with: `Poll` or `Pending`.
    pub step: MergeStep<T>,
}

/// The slot after `index`, going round `len` slots.
pub open spec fn slot_after(index: int, len: nat) -> int {
    (index + 1) % (len as int)
}

/// Every sequence has reported its end.
pub open spec fn all_ended(exhausted: Seq<bool>) -> bool {
    forall|i: int| 0 <= i < exhausted.len() ==> exhausted[i]
}

/// A round-robin scan over at most `fuel` slots, starting behind `index`.
///
/// The scan asks for the first slot whose flag is set and whose sequence
/// is live, and clears that flag. On its way it clears the flag of every
/// slot it passes: such a flag belongs to a sequence that has ended, whose
/// fuse answers for it, and nothing more is to be done about it. When
/// `fuel` slots have been looked at, nothing is due, and nothing is left
/// to look at.
pub open spec fn scan<T>(flags: Seq<bool>, exhausted: Seq<bool>, index: int, fuel: nat) -> Scan<T>
    decreases fuel,
{
    if fuel == 0 || flags.len() == 0 {
        Scan { flags, left: 0, step: MergeStep::Pending }
    } else {
        let next = slot_after(index, flags.len());
        if flags[next] && !exhausted[next] {
            Scan {
                flags: flags.update(next, false),
                left: (fuel - 1) as nat,
                step: MergeStep::Poll(next as usize),
            }
        } else {
            scan(flags.update(next, false), exhausted, next, (fuel - 1) as nat)
        }
    }
}

/// A merge, its readiness flags and a step: what a call leaves behind.
pub struct Turn<T> {
    /// The merge after the call.
    pub merge: MergeView,
    /// The readiness flags after the call.
    pub flags: Seq<bool>,
    /// What the call returned.
    pub step: MergeStep<T>,
}

impl MergeView {
    /// The number of slots.
    pub open spec fn len(self) -> nat {
        self.exhausted.len()
    }

    /// The count of ends is the number of sequences that have ended, an
    /// outer poll has no more slots left to look at than there are, and
    /// the generator is not stuck at 0.
    pub open spec fn wf(self) -> bool {
        &&& self.complete == count_ready(self.exhausted)
        &&& self.left <= self.len()
        &&& self.rng != 0
    }

    /// The merge has come to its end: it has slots, and the sequence of
    /// every one of them has reported its end. A merge without slots never
    /// ends.
    pub open spec fn terminated(self) -> bool {
        self.len() > 0 && all_ended(self.exhausted)
    }

    /// The index behind which the next outer poll starts its scan.
    pub open spec fn start(self) -> int {
        scale(xorshift(self.rng), self.len() as u32)
    }

    /// The merge after a scan, which takes from what the outer poll has
    /// left to look at and leaves the merge as it is otherwise.
    pub open spec fn after<T>(self, s: Scan<T>) -> Turn<T> {
        Turn { merge: MergeView { left: s.left, ..self }, flags: s.flags, step: s.step }
    }

    /// The merge once the sequence of slot `index` has reported its end. A
    /// sequence ends once: a second report changes nothing.
    pub open spec fn ended(self, index: int) -> MergeView {
        if self.exhausted[index] {
            self
        } else {
            MergeView {
                exhausted: self.exhausted.update(index, true),
                complete: self.complete + 1,
                ..self
            }
        }
    }

    /// An outer poll starts: the generator advances and picks a start
    /// index, and the scan sets out behind it with every slot left to look
    /// at.
    pub open spec fn poll_next<T>(self, flags: Seq<bool>) -> Turn<T> {
        let advanced = MergeView { rng: xorshift(self.rng), ..self };
        advanced.after(scan(flags, self.exhausted, self.start(), self.len()))
    }

    /// The merge takes the answer `outcome` of slot `index`.
    ///
    /// An item is handed out at once, and the slot's flag is set again,
    /// since more items may follow. The first end of a sequence is
    /// counted, and ends the merge if it was the last sequence that was
    /// live. Otherwise, and after "not yet", the scan goes on behind
    /// `index` over the slots that the outer poll has left to look at: no
    /// slot is looked at twice in one outer poll. For a slot whose
    /// sequence has ended before, the fuse answers `Done` whatever
    /// `outcome` holds, and the scan goes on.
    pub open spec fn resume<T>(self, flags: Seq<bool>, index: int, outcome: StreamPoll<T>) -> Turn<T> {
        match fused_poll(self.exhausted[index], outcome) {
            StreamPoll::Item(item) => Turn {
                merge: self,
                flags: flags.update(index, true),
                step: MergeStep::Item(item),
            },
            StreamPoll::Done => {
                let ended = self.ended(index);
                if !self.exhausted[index] && ended.complete == ended.len() {
                    Turn { merge: ended, flags, step: MergeStep::Done }
                } else {
                    ended.after(scan(flags, ended.exhausted, index, ended.left))
                }
            },
            StreamPoll::Pending => self.after(scan(flags, self.exhausted, index, self.left)),
        }
    }
}

/// A scan over flags of which none is set changes no flag and finds
/// nothing due.
pub proof fn lemma_scan_idle<T>(flags: Seq<bool>, exhausted: Seq<bool>, index: int, fuel: nat)
    requires
        forall|i: int| 0 <= i < flags.len() ==> !flags[i],
    ensures
        scan::<T>(flags, exhausted, index, fuel) == (Scan::<T> {
            flags,
            left: 0,
            step: MergeStep::Pending,
        }),
    decreases fuel,
{
    if fuel > 0 && flags.len() > 0 {
        let next = slot_after(index, flags.len());
        lemma_mod_bound(index + 1, flags.len() as int);
        assert(flags.update(next, false) =~= flags);
        lemma_scan_idle::<T>(flags, exhausted, next, (fuel - 1) as nat);
    }
}

/// A scan keeps the number of flags and sets none. It asks for a slot or
/// finds nothing due, and nothing else. A slot that it asks for exists, is
/// live, and had its flag set; asking takes at least one from what is left
/// to look at, and finding nothing due leaves nothing. No other live slot
/// loses its flag: a flag that the scan clears in passing belongs to a
/// sequence that has ended.
pub proof fn lemma_scan_result<T>(flags: Seq<bool>, exhausted: Seq<bool>, index: int, fuel: nat)
    requires
        exhausted.len() == flags.len(),
        flags.len() <= usize::MAX,
    ensures
        ({
            let s = scan::<T>(flags, exhausted, index, fuel);
            &&& s.flags.len() == flags.len()
            &&& forall|i: int| 0 <= i < flags.len() && s.flags[i] ==> flags[i]
            &&& forall|i: int|
                0 <= i < flags.len() && flags[i] && !exhausted[i] && s.step != MergeStep::<T>::Poll(
                    i as usize,
                ) ==> s.flags[i]
            &&& s.left <= fuel
            &&& s.step is Poll ==> s.left < fuel
            &&& s.step is Pending ==> s.left == 0
            &&& s.step is Poll || s.step is Pending
            &&& s.step matches MergeStep::Poll(i) ==> {
                &&& i < flags.len()
                &&& flags[i as int]
                &&& !s.flags[i as int]
                &&& !exhausted[i as int]
            }
        }),
    decreases fuel,
{
    let s = scan::<T>(flags, exhausted, index, fuel);
    if fuel > 0 && flags.len() > 0 {
        let next = slot_after(index, flags.len());
        lemma_mod_bound(index + 1, flags.len() as int);
        if !(flags[next] && !exhausted[next]) {
            let cleared = flags.update(next, false);
            lemma_scan_result::<T>(cleared, exhausted, next, (fuel - 1) as nat);
            assert(s == scan::<T>(cleared, exhausted, next, (fuel - 1) as nat));
            assert forall|i: int| 0 <= i < flags.len() && s.flags[i] implies flags[i] by {
                assert(cleared[i]);
            }
            assert forall|i: int|
                0 <= i < flags.len() && flags[i] && !exhausted[i] && s.step != MergeStep::<T>::Poll(
                    i as usize,
                ) implies s.flags[i] by {
                assert(cleared[i]);
            }
        }
    }
}

/// The slot that lies `d` slots behind `index`, going round `len` slots.
pub open spec fn ahead(index: int, d: int, len: nat) -> int {
    (index + d) % (len as int)
}

/// Going one slot on and then `d` slots further is going `d + 1` slots.
pub proof fn lemma_ahead_step(index: int, d: int, len: nat)
    requires
        0 < len,
    ensures
        ahead(slot_after(index, len), d, len) == ahead(index, d + 1, len),
        0 <= ahead(index, d, len) < len,
        slot_after(index, len) == ahead(index, 1, len),
{
    lemma_add_mod_noop_right(d, index + 1, len as int);
    lemma_mod_bound(index + d, len as int);
}

/// Going `a` slots on and then `b` slots further is going `a + b` slots.
pub proof fn lemma_ahead_add(index: int, a: int, b: int, len: nat)
    requires
        0 < len,
    ensures
        ahead(ahead(index, a, len), b, len) == ahead(index, a + b, len),
{
    lemma_add_mod_noop_right(b, index + a, len as int);
}

/// Every slot lies between 1 and `len` slots behind any index.
pub proof fn lemma_ahead_reaches(index: int, slot: int, len: nat) -> (d: int)
    requires
        0 <= slot < len,
    ensures
        1 <= d <= len,
        ahead(index, d, len) == slot,
{
    let gap = (slot - index - 1) % (len as int);
    lemma_mod_bound(slot - index - 1, len as int);
    lemma_add_mod_noop_right(index + 1, slot - index - 1, len as int);
    lemma_small_mod(slot as nat, len);
    gap + 1
}

/// Slot `slot` is one of the `count` slots behind `index`.
pub open spec fn within(index: int, count: int, len: nat, slot: int) -> bool {
    exists|e: int| 1 <= e <= count && #[trigger] ahead(index, e, len) == slot
}

/// A scan looks at the slots behind its start, one after the other, as
/// many as it takes from what it was allowed. It leaves no flag set on a
/// slot it has looked at, and it leaves every other flag as it was: a flag
/// that is set on a slot already passed stays set.
pub proof fn lemma_scan_looks_at<T>(flags: Seq<bool>, exhausted: Seq<bool>, index: int, fuel: nat)
    requires
        exhausted.len() == flags.len(),
        0 < flags.len() <= usize::MAX,
    ensures
        ({
            let s = scan::<T>(flags, exhausted, index, fuel);
            let looked_at = if s.step is Poll {
                fuel - s.left
            } else {
                fuel as int
            };
            &&& forall|e: int|
                1 <= e <= looked_at ==> !s.flags[#[trigger] ahead(index, e, flags.len())]
            &&& forall|j: int|
                0 <= j < flags.len() && !within(index, looked_at, flags.len(), j) ==> s.flags[j]
                    == flags[j]
            &&& s.step matches MergeStep::Poll(i) ==> 1 <= looked_at && i == ahead(
                index,
                looked_at,
                flags.len(),
            )
        }),
    decreases fuel,
{
    let n = flags.len();
    let s = scan::<T>(flags, exhausted, index, fuel);
    lemma_scan_result::<T>(flags, exhausted, index, fuel);
    if fuel > 0 {
        let next = slot_after(index, n);
        lemma_ahead_step(index, 0, n);
        let looked_at = if s.step is Poll {
            fuel - s.left
        } else {
            fuel as int
        };
        if flags[next] && !exhausted[next] {
            assert forall|j: int| 0 <= j < n && !within(index, looked_at, n, j) implies s.flags[j]
                == flags[j] by {
                if j == next {
                    assert(ahead(index, 1, n) == j);
                }
            }
        } else {
            let cleared = flags.update(next, false);
            let rest = (fuel - 1) as nat;
            assert(s == scan::<T>(cleared, exhausted, next, rest));
            lemma_scan_result::<T>(cleared, exhausted, next, rest);
            lemma_scan_looks_at::<T>(cleared, exhausted, next, rest);
            if s.step is Poll {
                lemma_ahead_step(index, looked_at - 1, n);
            }
            assert forall|e: int| 1 <= e <= looked_at implies !s.flags[#[trigger] ahead(index, e, n)] by {
                if e > 1 {
                    lemma_ahead_step(index, e - 1, n);
                    assert(!s.flags[ahead(next, e - 1, n)]);
                } else {
                    assert(!cleared[next]);
                }
            }
            assert forall|j: int| 0 <= j < n && !within(index, looked_at, n, j) implies s.flags[j]
                == flags[j] by {
                if j == next {
                    assert(ahead(index, 1, n) == j);
                } else {
                    if within(next, looked_at - 1, n, j) {
                        let e = choose|e: int| 1 <= e <= looked_at - 1 && #[trigger] ahead(next, e, n) == j;
                        lemma_ahead_step(index, e, n);
                        assert(ahead(index, e + 1, n) == j);
                    }
                    assert(cleared[j] == flags[j]);
                }
            }
        }
    }
}

/// A scan does not lose a flag that lies ahead of it. If a slot among
/// those that the scan may look at still has its flag set afterwards, the
/// scan has asked for an earlier slot, and the slot lies in what is left
/// behind the one asked for.
pub proof fn lemma_scan_keeps_ahead<T>(
    flags: Seq<bool>,
    exhausted: Seq<bool>,
    index: int,
    fuel: nat,
    slot: int,
)
    requires
        exhausted.len() == flags.len(),
        0 < flags.len() <= usize::MAX,
        within(index, fuel as int, flags.len(), slot),
        0 <= slot < flags.len(),
        scan::<T>(flags, exhausted, index, fuel).flags[slot],
    ensures
        scan::<T>(flags, exhausted, index, fuel).step matches MergeStep::Poll(i) && within(
            i as int,
            scan::<T>(flags, exhausted, index, fuel).left as int,
            flags.len(),
            slot,
        ),
{
    let n = flags.len();
    let s = scan::<T>(flags, exhausted, index, fuel);
    lemma_scan_result::<T>(flags, exhausted, index, fuel);
    lemma_scan_looks_at::<T>(flags, exhausted, index, fuel);
    let e = choose|e: int| 1 <= e <= fuel && #[trigger] ahead(index, e, n) == slot;
    let looked_at = if s.step is Poll {
        fuel - s.left
    } else {
        fuel as int
    };
    if e <= looked_at {
        assert(!s.flags[ahead(index, e, n)]);
    }
    let i = s.step->Poll_0 as int;
    lemma_ahead_add(index, looked_at, e - looked_at, n);
    assert(ahead(i, e - looked_at, n) == slot);
}

/// A full scan looks at every slot: it finds nothing due only when no live
/// slot had its flag set, and then it leaves no flag set at all.
pub proof fn lemma_pending_means_idle<T>(flags: Seq<bool>, exhausted: Seq<bool>, index: int)
    requires
        exhausted.len() == flags.len(),
        0 < flags.len() <= usize::MAX,
        scan::<T>(flags, exhausted, index, flags.len()).step is Pending,
    ensures
        scan::<T>(flags, exhausted, index, flags.len()).flags == none_ready(flags.len()),
        forall|i: int| 0 <= i < flags.len() ==> !(flags[i] && !exhausted[i]),
{
    let n = flags.len();
    let s = scan::<T>(flags, exhausted, index, n);
    lemma_scan_result::<T>(flags, exhausted, index, n);
    lemma_scan_looks_at::<T>(flags, exhausted, index, n);
    assert forall|i: int| 0 <= i < n implies !s.flags[i] by {
        let d = lemma_ahead_reaches(index, i, n);
        assert(!s.flags[ahead(index, d, n)]);
    }
    assert(s.flags =~= none_ready(n));
}

/// The first end of a live sequence raises the exact count by one, and the
/// count reaches the number of slots exactly when every sequence has
/// ended.
pub proof fn lemma_ended_counts(m: MergeView, index: int)
    requires
        m.wf(),
        0 <= index < m.len(),
    ensures
        m.ended(index).wf(),
        m.ended(index).len() == m.len(),
        m.ended(index).exhausted == m.exhausted.update(index, true),
        m.exhausted[index] ==> m.exhausted.update(index, true) == m.exhausted,
        m.complete <= m.len(),
        m.complete == m.len() <==> all_ended(m.exhausted),
        !m.exhausted[index] ==> m.complete < m.len(),
{
    lemma_count_bounds(m.exhausted);
    if m.exhausted[index] {
        assert(m.exhausted.update(index, true) =~= m.exhausted);
    } else {
        lemma_count_update(m.exhausted, index, true);
    }
}

/// The scheduling state of a merge over a fixed number of sequences with
/// items of type `T`.
///
/// The merge holds one fuse per sequence, the count of sequences that
/// have ended, the generator of start indices, and the number of slots
/// that the outer poll under way may still look at. The sequences
/// themselves stay with the caller, and so does the readiness bitmap,
/// which the wake handles share: each call takes it for as long as the
/// call lasts.
pub struct Merge<T> {
    streams: Vec<Fuse>,
    rng: RandomGenerator,
    complete: usize,
    left: usize,
    item: PhantomData<T>,
}

impl<T> View for Merge<T> {
    type V = MergeView;

    closed spec fn view(&self) -> MergeView {
        MergeView {
            exhausted: Seq::new(self.streams@.len(), |i: int| self.streams@[i].exhausted()),
            complete: self.complete as nat,
            rng: self.rng.state(),
            left: self.left as nat,
        }
    }
}

impl<T> Merge<T> {
    /// A merge of `len` sequences, none of which has ended, with a
    /// start-index generator seeded with `seed`. No outer poll is under
    /// way.
    pub fn new(len: usize, seed: u32) -> (r: Self)
        ensures
            r@.wf(),
            r@.exhausted == Seq::new(len as nat, |i: int| false),
            r@.complete == 0,
            r@.rng == seeded(seed),
            r@.left == 0,
    {
        let mut streams: Vec<Fuse> = Vec::new();
        let mut i: usize = 0;
        while i < len
            invariant
                i <= len,
                streams@.len() == i,
                forall|j: int| 0 <= j < i ==> !(#[trigger] streams@[j]).exhausted(),
            decreases len - i,
        {
            streams.push(Fuse::new());
            i = i + 1;
        }
        let r = Merge {
            streams,
            rng: RandomGenerator::new(seed),
            complete: 0,
            left: 0,
            item: PhantomData,
        };
        proof {
            assert(r@.exhausted =~= Seq::new(len as nat, |i: int| false));
            lemma_count_bounds(r@.exhausted);
        }
        r
    }

    /// The number of sequences.
    pub fn len(&self) -> (n: usize)
        ensures
            n == self@.len(),
    {
        self.streams.len()
    }

    /// Whether the sequence of slot `index` has reported its end.
    pub fn is_exhausted(&self, index: usize) -> (b: bool)
        requires
            index < self@.len(),
        ensures
            b == self@.exhausted[index as int],
    {
        self.streams[index].is_done()
    }

    /// Whether the merge has come to its end: every sequence has reported
    /// its own.
    pub fn is_terminated(&self) -> (b: bool)
        requires
            self@.wf(),
        ensures
            b == self@.terminated(),
    {
        proof {
            lemma_count_bounds(self@.exhausted);
        }
        self.streams.len() > 0 && self.complete == self.streams.len()
    }

    /// Starts an outer poll: registers `waker` as the outer wake handle,
    /// draws a start index and sets out on one round over the slots,
    /// behind that index.
    ///
    /// The round ends with the outer poll. Each slot is looked at once at
    /// most, so the outer poll asks for no more sequences than there are.
    /// An outer poll never ends the merge: the end comes with the answer
    /// of the last live sequence, in `resume`. A merge that has come to
    /// its end finds nothing due.
    pub fn poll_next(&mut self, readiness: &mut ReadinessVec, waker: Waker) -> (step: MergeStep<T>)
        requires
            old(self)@.wf(),
            old(readiness).wf(),
            old(readiness)@.len() == old(self)@.len(),
        ensures
            final(self)@.wf(),
            final(readiness).wf(),
            final(readiness).parent() == Some(waker),
            ({
                let turn = old(self)@.poll_next::<T>(old(readiness)@);
                &&& final(self)@ == turn.merge
                &&& final(readiness)@ == turn.flags
                &&& step == turn.step
            }),
            final(self)@.len() == old(self)@.len(),
            final(readiness)@.len() == old(readiness)@.len(),
            step is Poll || step is Pending,
            step matches MergeStep::Poll(i) ==> i < final(self)@.len() && !final(self)@.exhausted[i as int],
            step is Poll ==> final(self)@.left < final(self)@.len(),
            step is Pending ==> final(self)@.left == 0,
            step is Pending ==> final(readiness)@ == none_ready(final(self)@.len()),
    {
        let len: usize = self.streams.len();
        let slots: u32 = #[verifier::truncate] (len as u32);
        let start: usize = self.rng.generate(slots) as usize;
        readiness.set_waker(waker);
        self.left = len;
        proof {
            let found = scan::<T>(readiness@, self@.exhausted, start as int, len as nat);
            if len > 0 && found.step is Pending {
                lemma_pending_means_idle::<T>(readiness@, self@.exhausted, start as int);
            }
            if len == 0 {
                assert(found.flags =~= none_ready(len as nat));
            }
        }
        self.scan_from(readiness, start)
    }

    /// Takes the answer `outcome` that the sequence of slot `index` gave to
    /// its poll, and says how the outer poll goes on.
    ///
    /// The step is `Done` exactly when this answer is the end of the last
    /// sequence that was live. Where the round goes on, it goes on over
    /// the slots that are left of it: a slot that was looked at before in
    /// this outer poll is not looked at again, and a flag set on it in the
    /// meantime stays set for the next outer poll.
    pub fn resume(&mut self, readiness: &mut ReadinessVec, index: usize, outcome: StreamPoll<T>) -> (step:
        MergeStep<T>)
        requires
            old(self)@.wf(),
            old(readiness).wf(),
            old(readiness)@.len() == old(self)@.len(),
            index < old(self)@.len(),
        ensures
            final(self)@.wf(),
            final(readiness).wf(),
            final(readiness).parent() == old(readiness).parent(),
            ({
                let turn = old(self)@.resume(old(readiness)@, index as int, outcome);
                &&& final(self)@ == turn.merge
                &&& final(readiness)@ == turn.flags
                &&& step == turn.step
            }),
            final(self)@.len() == old(self)@.len(),
            final(readiness)@.len() == old(readiness)@.len(),
            final(self)@.exhausted == ended_after(old(self)@.exhausted, index as int, outcome),
            final(self)@.left <= old(self)@.left,
            step matches MergeStep::Poll(i) ==> i < final(self)@.len() && !final(self)@.exhausted[i as int],
            step is Poll ==> final(self)@.left < old(self)@.left,
            step is Pending ==> final(self)@.left == 0,
            step is Done <==> final(self)@.terminated() && !old(self)@.terminated(),
    {
        let len: usize = self.streams.len();
        let was_done: bool = self.streams[index].is_done();
        proof {
            lemma_ended_counts(self@, index as int);
        }
        let mut fuse: Fuse = self.streams[index];
        let fused = fuse.settle(outcome);
        self.streams.set(index, fuse);
        match fused {
            StreamPoll::Item(item) => {
                assert(self@.exhausted =~= old(self)@.exhausted);
                readiness.set_ready(index);
                MergeStep::Item(item)
            },
            StreamPoll::Done => {
                assert(self@.exhausted =~= old(self)@.exhausted.update(index as int, true));
                if !was_done {
                    self.complete = self.complete + 1;
                    if self.complete == len {
                        proof {
                            lemma_count_bounds(self@.exhausted);
                        }
                        return MergeStep::Done;
                    }
                }
                proof {
                    lemma_ended_counts(self@, index as int);
                }
                self.scan_from(readiness, index)
            },
            StreamPoll::Pending => {
                assert(self@.exhausted =~= old(self)@.exhausted);
                self.scan_from(readiness, index)
            },
        }
    }

    /// Goes on with the round behind `start`, over the slots that are left
    /// of it.
    fn scan_from(&mut self, readiness: &mut ReadinessVec, start: usize) -> (step: MergeStep<T>)
        requires
            old(self)@.left <= old(self)@.len(),
            old(readiness).wf(),
            old(readiness)@.len() == old(self)@.len(),
            start < usize::MAX,
        ensures
            final(readiness).wf(),
            final(readiness).parent() == old(readiness).parent(),
            ({
                let found = scan::<T>(
                    old(readiness)@,
                    old(self)@.exhausted,
                    start as int,
                    old(self)@.left,
                );
                &&& final(self)@ == (MergeView { left: found.left, ..old(self)@ })
                &&& final(readiness)@ == found.flags
                &&& step == found.step
            }),
            final(readiness)@.len() == old(readiness)@.len(),
            final(self)@.left <= old(self)@.left,
            step is Poll || step is Pending,
            step matches MergeStep::Poll(i) ==> i < old(self)@.len() && !old(self)@.exhausted[i as int],
            step is Poll ==> final(self)@.left < old(self)@.left,
            step is Pending ==> final(self)@.left == 0,
    {
        let len: usize = self.streams.len();
        proof {
            lemma_scan_result::<T>(readiness@, self@.exhausted, start as int, self@.left);
        }
        let mut index: usize = start;
        while self.left > 0
            invariant
                len == self.streams@.len(),
                self.left <= len,
                self.left <= old(self).left,
                index < usize::MAX,
                self.streams@ == old(self).streams@,
                self.rng == old(self).rng,
                self.complete == old(self).complete,
                readiness.wf(),
                readiness@.len() == len,
                old(readiness)@.len() == len,
                readiness.parent() == old(readiness).parent(),
                scan::<T>(readiness@, old(self)@.exhausted, index as int, self.left as nat) == scan::<T>(
                    old(readiness)@,
                    old(self)@.exhausted,
                    start as int,
                    old(self)@.left,
                ),
            decreases self.left,
        {
            if !readiness.any_ready() {
                proof {
                    lemma_scan_idle::<T>(
                        readiness@,
                        old(self)@.exhausted,
                        index as int,
                        self.left as nat,
                    );
                }
                self.left = 0;
                return MergeStep::Pending;
            }
            let ghost before = index as int;
            let ghost flags = readiness@;
            let ghost fuel = self.left as nat;
            index = (index + 1) % len;
            self.left = self.left - 1;
            assert(index as int == slot_after(before, len as nat));
            assert(scan::<T>(flags, old(self)@.exhausted, before, fuel) == if flags[index as int]
                && !old(self)@.exhausted[index as int] {
                Scan {
                    flags: flags.update(index as int, false),
                    left: self.left as nat,
                    step: MergeStep::Poll(index),
                }
            } else {
                scan::<T>(
                    flags.update(index as int, false),
                    old(self)@.exhausted,
                    index as int,
                    self.left as nat,
                )
            });
            if readiness.clear_ready(index) && !self.streams[index].is_done() {
                return MergeStep::Poll(index);
            }
        }
        MergeStep::Pending
    }
}

/// The ended slots after slot `index` has answered `outcome`.
pub open spec fn ended_after<T>(exhausted: Seq<bool>, index: int, outcome: StreamPoll<T>) -> Seq<bool> {
    if outcome is Done {
        exhausted.update(index, true)
    } else {
        exhausted
    }
}

} // verus!
