//! Wake-ups over a whole run of a merge: whom a firing handle names, and
//! that no firing is lost.

use crate::fuse::StreamPoll;
use crate::merge::ended_after;
use crate::merge::lemma_ahead_reaches;
use crate::merge::lemma_scan_keeps_ahead;
use crate::merge::lemma_scan_result;
use crate::merge::within;
use crate::merge::MergeStep;
use crate::merge::MergeView;
use crate::merge_trace::fresh_merge;
use crate::merge_trace::lemma_poll_next_step;
use crate::merge_trace::lemma_resume_counts;
use crate::readiness::all_ready;
use crate::readiness::lemma_count_bounds;
use crate::waker::woken;
use std::task::Waker;
use vstd::prelude::*;

verus! {

/// One thing that happens to a merge and its readiness bitmap.
pub enum Driven<T> {
    /// The wake handle of a slot fires.
    Wake {
        /// The slot whose handle fires.
        slot: int,
    },
    /// An outer poll starts.
    Poll {
        /// The outer wake handle that the poll brings.
        waker: Waker,
    },
    /// A slot that was polled answers.
    Answer {
        /// The slot that was polled.
        slot: int,
        /// What the poll gave.
        outcome: StreamPoll<T>,
    },
}

impl<T> Driven<T> {
    /// With this event the wake handle of `slot` fires.
    pub open spec fn fires(self, slot: int) -> bool {
        self matches Driven::Wake { slot: s } && s == slot
    }
}

/// A merge with its bitmap, and what the last event gave.
pub struct Driving<T> {
    /// The merge.
    pub merge: MergeView,
    /// The readiness flags.
    pub flags: Seq<bool>,
    /// The outer wake handle that the bitmap holds.
    pub parent: Option<Waker>,
    /// The step that the last event returned, if it was a poll or an
    /// answer.
    pub step: Option<MergeStep<T>>,
    /// The outer wake handle that the last event named, if it was a
    /// firing.
    pub told: Option<Waker>,
    /// The slot that the merge has asked for and that has not answered
    /// yet, if there is one.
    pub asked: Option<int>,
}

/// The slot that a step asks for, if it asks for one.
pub open spec fn asked_by<T>(step: MergeStep<T>) -> Option<int> {
    match step {
        MergeStep::Poll(i) => Some(i as int),
        _ => None,
    }
}

/// A fresh merge of `n` sequences with a fresh bitmap of `n` flags, after
/// the events of `trace` have happened to them one after the other. A
/// firing handle sets its flag and names the outer handle that the bitmap
/// holds; a poll registers its outer handle and scans; an answer is taken
/// as `resume` takes it.
pub open spec fn drive<T>(n: nat, seed: u32, trace: Seq<Driven<T>>) -> Driving<T>
    decreases trace.len(),
{
    if trace.len() == 0 {
        Driving {
            merge: fresh_merge(n, seed),
            flags: all_ready(n),
            parent: None,
            step: None,
            told: None,
            asked: None,
        }
    } else {
        let before = drive::<T>(n, seed, trace.drop_last());
        match trace.last() {
            Driven::Wake { slot } => Driving {
                merge: before.merge,
                flags: woken(before.flags, slot),
                parent: before.parent,
                step: None,
                told: if 0 <= slot < n {
                    before.parent
                } else {
                    None
                },
                asked: before.asked,
            },
            Driven::Poll { waker } => {
                let turn = before.merge.poll_next::<T>(before.flags);
                Driving {
                    merge: turn.merge,
                    flags: turn.flags,
                    parent: Some(waker),
                    step: Some(turn.step),
                    told: None,
                    asked: asked_by(turn.step),
                }
            },
            Driven::Answer { slot, outcome } => {
                let turn = before.merge.resume(before.flags, slot, outcome);
                Driving {
                    merge: turn.merge,
                    flags: turn.flags,
                    parent: before.parent,
                    step: Some(turn.step),
                    told: None,
                    asked: asked_by(turn.step),
                }
            },
        }
    }
}

/// The outer wake handle of the last outer poll in `trace`, if there was
/// one.
pub open spec fn latest_waker<T>(trace: Seq<Driven<T>>) -> Option<Waker>
    decreases trace.len(),
{
    if trace.len() == 0 {
        None
    } else {
        match trace.last() {
            Driven::Poll { waker } => Some(waker),
            _ => latest_waker(trace.drop_last()),
        }
    }
}

/// Every answer of `trace` comes from one of `n` slots.
pub open spec fn answers_in_range<T>(n: nat, trace: Seq<Driven<T>>) -> bool {
    forall|k: int|
        0 <= k < trace.len() ==> ((#[trigger] trace[k]) matches Driven::Answer { slot, .. } ==> 0
            <= slot < n)
}

/// Event `k` of `trace` asks for slot `slot` to be polled.
pub open spec fn asked_at<T>(n: nat, seed: u32, trace: Seq<Driven<T>>, k: int, slot: int) -> bool {
    &&& 0 <= k < trace.len()
    &&& drive::<T>(n, seed, trace.take(k + 1)).step == Some(MergeStep::<T>::Poll(slot as usize))
}

/// Slot `slot` has been asked for since its wake handle last fired.
pub open spec fn served_since_fired<T>(n: nat, seed: u32, trace: Seq<Driven<T>>, slot: int) -> bool {
    exists|k: int|
        #[trigger] asked_at(n, seed, trace, k, slot) && forall|w: int|
            k < w < trace.len() ==> !(#[trigger] trace[w]).fires(slot)
}

/// How many slots the merge has asked for since the latest outer poll of
/// `trace` started, that poll's own step included.
pub open spec fn asked_in_poll<T>(n: nat, seed: u32, trace: Seq<Driven<T>>) -> nat
    decreases trace.len(),
{
    if trace.len() == 0 {
        0
    } else {
        let asks: nat = if drive::<T>(n, seed, trace).step matches Some(MergeStep::Poll(_)) {
            1
        } else {
            0
        };
        match trace.last() {
            Driven::Wake { .. } => asked_in_poll(n, seed, trace.drop_last()),
            Driven::Poll { .. } => asks,
            Driven::Answer { .. } => asked_in_poll(n, seed, trace.drop_last()) + asks,
        }
    }
}

/// Throughout a run the merge and its bitmap keep their `n` slots, the
/// count of ended sequences stays exact, and the bitmap holds the outer
/// wake handle of the latest outer poll. A firing handle of one of the
/// slots names that handle, so that the wake-up reaches whoever polled
/// last.
///
/// One outer poll asks for `n` slots at most, however often the handles
/// fire while it is under way and whatever the slots answer: what it has
/// asked for and what is left of its round never come to more than `n`.
pub proof fn lemma_wake_names_latest<T>(n: nat, seed: u32, trace: Seq<Driven<T>>)
    requires
        n <= usize::MAX,
        answers_in_range(n, trace),
    ensures
        drive::<T>(n, seed, trace).merge.len() == n,
        drive::<T>(n, seed, trace).merge.wf(),
        drive::<T>(n, seed, trace).flags.len() == n,
        drive::<T>(n, seed, trace).parent == latest_waker(trace),
        trace.len() > 0 ==> (trace.last() matches Driven::Wake { slot } ==> 0 <= slot < n ==> drive::<T>(
            n,
            seed,
            trace,
        ).told == latest_waker(trace)),
        asked_in_poll(n, seed, trace) + drive::<T>(n, seed, trace).merge.left <= n,
    decreases trace.len(),
{
    if trace.len() == 0 {
        lemma_count_bounds(fresh_merge(n, seed).exhausted);
    } else {
        let prefix = trace.drop_last();
        assert forall|k: int| 0 <= k < prefix.len() implies prefix[k] == trace[k] by {}
        assert(answers_in_range(n, prefix));
        lemma_wake_names_latest::<T>(n, seed, prefix);
        let before = drive::<T>(n, seed, prefix);
        match trace.last() {
            Driven::Wake { slot } => {},
            Driven::Poll { waker } => {
                lemma_poll_next_step::<T>(before.merge, before.flags);
            },
            Driven::Answer { slot, outcome } => {
                assert(trace[trace.len() - 1] == trace.last());
                lemma_resume_counts(before.merge, before.flags, slot, outcome);
            },
        }
    }
}

/// No firing of a wake handle is lost. At every moment of a run, a slot
/// whose sequence is live has its flag set, or has been asked for since
/// its handle last fired.
///
/// So a flag that is set while an outer poll is under way, on a slot that
/// the poll has passed already, is still set when the poll answers "not
/// yet": the next outer poll finds it.
pub proof fn lemma_no_wake_is_lost<T>(n: nat, seed: u32, trace: Seq<Driven<T>>, slot: int)
    requires
        n <= usize::MAX,
        answers_in_range(n, trace),
        0 <= slot < n,
        !drive::<T>(n, seed, trace).merge.exhausted[slot],
    ensures
        drive::<T>(n, seed, trace).flags[slot] || served_since_fired(n, seed, trace, slot),
    decreases trace.len(),
{
    if trace.len() > 0 {
        let prefix = trace.drop_last();
        let at = trace.len() - 1;
        assert(trace[at] == trace.last());
        assert forall|k: int| 0 <= k < prefix.len() implies prefix[k] == trace[k] by {}
        assert(answers_in_range(n, prefix));
        lemma_wake_names_latest::<T>(n, seed, prefix);
        let before = drive::<T>(n, seed, prefix);
        let now = drive::<T>(n, seed, trace);
        assert(trace.take(at + 1) =~= trace);
        let asked_now = now.step == Some(MergeStep::<T>::Poll(slot as usize));
        let kept = !before.flags[slot] && !trace.last().fires(slot);
        // The slot was live before: a sequence that has ended stays ended.
        // And its flag is set now, or it is asked for with this event, or
        // the flag was clear before and this event is no firing of its
        // handle.
        assert(!before.merge.exhausted[slot] && (now.flags[slot] || asked_now || kept)) by {
            match trace.last() {
                Driven::Wake { slot: s } => {},
                Driven::Poll { waker } => {
                    lemma_poll_next_step::<T>(before.merge, before.flags);
                    lemma_scan_result::<T>(
                        before.flags,
                        before.merge.exhausted,
                        before.merge.start(),
                        n,
                    );
                },
                Driven::Answer { slot: s, outcome } => {
                    lemma_resume_counts(before.merge, before.flags, s, outcome);
                },
            }
        }
        lemma_no_wake_is_lost::<T>(n, seed, prefix, slot);
        if now.flags[slot] {
        } else if asked_now {
            assert(asked_at(n, seed, trace, at, slot));
        } else {
            let k = choose|k: int|
                #[trigger] asked_at(n, seed, prefix, k, slot) && forall|w: int|
                    k < w < prefix.len() ==> !(#[trigger] prefix[w]).fires(slot);
            assert(prefix.take(k + 1) =~= trace.take(k + 1));
            assert(asked_at(n, seed, trace, k, slot));
            assert forall|w: int| k < w < trace.len() implies !(#[trigger] trace[w]).fires(slot) by {
                if w < at {
                    assert(!prefix[w].fires(slot));
                }
            }
        }
    }
}

/// Every answer of `trace` comes from the slot that the merge has asked
/// for and that has not answered yet.
pub open spec fn answered_as_asked<T>(n: nat, seed: u32, trace: Seq<Driven<T>>) -> bool {
    forall|k: int|
        0 <= k < trace.len() ==> ((#[trigger] trace[k]) matches Driven::Answer { slot, .. }
            ==> drive::<T>(n, seed, trace.take(k)).asked == Some(slot))
}

/// With event `k` of `trace` the outer poll that is under way goes on: the
/// event is a firing, or an answer after which the merge asks for the next
/// slot or finds nothing due.
pub open spec fn goes_on_at<T>(n: nat, seed: u32, trace: Seq<Driven<T>>, k: int) -> bool {
    &&& !(trace[k] is Poll)
    &&& drive::<T>(n, seed, trace.take(k + 1)).step matches Some(step) ==> step is Poll || step
        is Pending
}

/// Event `p` of `trace` starts an outer poll that is under way at the end
/// of `trace`, or has just answered "not yet".
pub open spec fn in_outer_poll<T>(n: nat, seed: u32, trace: Seq<Driven<T>>, p: int) -> bool {
    &&& 0 <= p < trace.len()
    &&& trace[p] is Poll
    &&& forall|k: int| p < k < trace.len() ==> #[trigger] goes_on_at(n, seed, trace, k)
}

/// The wake handle of `slot` has fired since event `p` of `trace`.
pub open spec fn fired_since<T>(trace: Seq<Driven<T>>, p: int, slot: int) -> bool {
    exists|w: int| 0 <= w && p < w < trace.len() && (#[trigger] trace[w]).fires(slot)
}

/// While an outer poll is under way, a live slot has its flag set only if
/// the round has yet to come to it, or if its handle has fired since the
/// outer poll started. A handle that fires then names the outer handle
/// that this very poll has registered.
///
/// So when the outer poll answers "not yet", the round is over, and every
/// flag that is left set on a live slot comes from a firing that has told
/// the outer handle of this poll: whoever polled is woken and polls
/// again, and the flag is found.
pub proof fn lemma_flag_at_rest_was_fired<T>(n: nat, seed: u32, trace: Seq<Driven<T>>, p: int, slot: int)
    requires
        n <= usize::MAX,
        answered_as_asked(n, seed, trace),
        in_outer_poll(n, seed, trace, p),
        0 <= slot < n,
        drive::<T>(n, seed, trace).flags[slot],
        !drive::<T>(n, seed, trace).merge.exhausted[slot],
    ensures
        fired_since(trace, p, slot) || (drive::<T>(n, seed, trace).asked matches Some(i) && within(
            i,
            drive::<T>(n, seed, trace).merge.left as int,
            n,
            slot,
        )),
        drive::<T>(n, seed, trace).step == Some(MergeStep::<T>::Pending) ==> fired_since(
            trace,
            p,
            slot,
        ),
    decreases trace.len(),
{
    let prefix = trace.drop_last();
    let at = trace.len() - 1;
    assert(trace[at] == trace.last());
    assert(trace.take(at + 1) =~= trace);
    assert(trace.take(at) =~= prefix);
    lemma_prefix_answers(n, seed, trace);
    lemma_wake_names_latest::<T>(n, seed, prefix);
    let before = drive::<T>(n, seed, prefix);
    match trace.last() {
        Driven::Wake { slot: s } => {
            assert(goes_on_at(n, seed, trace, at));
            if s == slot {
                assert(trace[at].fires(slot));
            } else {
                lemma_outer_poll_goes_on(n, seed, trace, p);
                lemma_flag_at_rest_was_fired::<T>(n, seed, prefix, p, slot);
                lemma_fired_before(trace, p, slot);
            }
        },
        Driven::Poll { waker } => {
            // The outer poll starts here, with every slot left to look at.
            if at != p {
                assert(goes_on_at(n, seed, trace, at));
            }
            let start = before.merge.start();
            let e = lemma_ahead_reaches(start, slot, n);
            assert(within(start, n as int, n, slot));
            lemma_scan_keeps_ahead::<T>(before.flags, before.merge.exhausted, start, n, slot);
        },
        Driven::Answer { slot: s, outcome } => {
            assert(goes_on_at(n, seed, trace, at));
            assert(before.asked == Some(s));
            lemma_asked_in_range::<T>(n, seed, prefix);
            lemma_resume_counts(before.merge, before.flags, s, outcome);
            let after = ended_after(before.merge.exhausted, s, outcome);
            lemma_scan_result::<T>(before.flags, after, s, before.merge.left);
            // The flag was set before, on a slot that was live.
            assert(before.flags[slot] && !before.merge.exhausted[slot]);
            lemma_outer_poll_goes_on(n, seed, trace, p);
            lemma_flag_at_rest_was_fired::<T>(n, seed, prefix, p, slot);
            lemma_fired_before(trace, p, slot);
            if !fired_since(prefix, p, slot) {
                // The round had yet to come to the slot, and has not come
                // to it with this scan: it is still ahead.
                lemma_scan_keeps_ahead::<T>(before.flags, after, s, before.merge.left, slot);
            }
        },
    }
}

/// What has fired before the last event of `trace` has fired in `trace`.
proof fn lemma_fired_before<T>(trace: Seq<Driven<T>>, p: int, slot: int)
    requires
        trace.len() > 0,
    ensures
        fired_since(trace.drop_last(), p, slot) ==> fired_since(trace, p, slot),
{
    let prefix = trace.drop_last();
    if fired_since(prefix, p, slot) {
        let w = choose|w: int| 0 <= w && p < w < prefix.len() && (#[trigger] prefix[w]).fires(slot);
        assert(trace[w].fires(slot));
    }
}

/// Where every answer of `trace` comes from the slot asked for, so does
/// every answer before the last event, and every answer comes from one of
/// the `n` slots.
proof fn lemma_prefix_answers<T>(n: nat, seed: u32, trace: Seq<Driven<T>>)
    requires
        n <= usize::MAX,
        answered_as_asked(n, seed, trace),
    ensures
        answers_in_range(n, trace),
        trace.len() > 0 ==> answered_as_asked(n, seed, trace.drop_last()),
        trace.len() > 0 ==> answers_in_range(n, trace.drop_last()),
    decreases trace.len(),
{
    if trace.len() > 0 {
        let prefix = trace.drop_last();
        let at = trace.len() - 1;
        assert forall|k: int| 0 <= k < prefix.len() implies ((#[trigger] prefix[k]) matches Driven::Answer {
            slot: s,
            ..
        } ==> drive::<T>(n, seed, prefix.take(k)).asked == Some(s)) by {
            assert(prefix.take(k) =~= trace.take(k));
            assert(trace[k] == prefix[k]);
        }
        lemma_prefix_answers(n, seed, prefix);
        assert(trace.take(at) =~= prefix);
        assert forall|k: int| 0 <= k < trace.len() implies ((#[trigger] trace[k]) matches Driven::Answer {
            slot: s,
            ..
        } ==> 0 <= s < n) by {
            if k < at {
                assert(prefix[k] == trace[k]);
            } else if trace[k] is Answer {
                lemma_asked_in_range::<T>(n, seed, prefix);
            }
        }
    }
}

/// The slot that the merge has asked for is one of its `n` slots, and its
/// sequence is live.
pub proof fn lemma_asked_in_range<T>(n: nat, seed: u32, trace: Seq<Driven<T>>)
    requires
        n <= usize::MAX,
        answers_in_range(n, trace),
    ensures
        drive::<T>(n, seed, trace).asked matches Some(i) ==> 0 <= i < n && !drive::<T>(
            n,
            seed,
            trace,
        ).merge.exhausted[i],
    decreases trace.len(),
{
    if trace.len() > 0 {
        let prefix = trace.drop_last();
        assert forall|k: int| 0 <= k < prefix.len() implies prefix[k] == trace[k] by {}
        assert(answers_in_range(n, prefix));
        lemma_wake_names_latest::<T>(n, seed, prefix);
        let before = drive::<T>(n, seed, prefix);
        match trace.last() {
            Driven::Wake { slot } => {
                lemma_asked_in_range::<T>(n, seed, prefix);
            },
            Driven::Poll { waker } => {
                lemma_poll_next_step::<T>(before.merge, before.flags);
            },
            Driven::Answer { slot, outcome } => {
                assert(trace[trace.len() - 1] == trace.last());
                lemma_resume_counts(before.merge, before.flags, slot, outcome);
            },
        }
    }
}

/// An outer poll that is under way at the end of `trace` was under way
/// before the last event, unless that event started it.
proof fn lemma_outer_poll_goes_on<T>(n: nat, seed: u32, trace: Seq<Driven<T>>, p: int)
    requires
        in_outer_poll(n, seed, trace, p),
        p < trace.len() - 1,
    ensures
        in_outer_poll(n, seed, trace.drop_last(), p),
{
    let prefix = trace.drop_last();
    assert(prefix[p] == trace[p]);
    assert forall|k: int| p < k < prefix.len() implies #[trigger] goes_on_at(n, seed, prefix, k) by {
        assert(goes_on_at(n, seed, trace, k));
        assert(prefix.take(k + 1) =~= trace.take(k + 1));
        assert(prefix[k] == trace[k]);
    }
}

} // verus!
