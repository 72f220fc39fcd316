//! What a merge does over a whole run: every item comes through, and the
//! merge ends with the end of the last sequence.

use crate::fuse::StreamPoll;
use crate::merge::all_ended;
use crate::merge::ended_after;
use crate::merge::lemma_ended_counts;
use crate::merge::lemma_pending_means_idle;
use crate::merge::lemma_scan_result;
use crate::merge::MergeStep;
use crate::merge::MergeView;
use crate::merge::Turn;
use crate::readiness::lemma_count_bounds;
use crate::rng::lemma_xorshift_moves;
use crate::rng::seeded;
use crate::rng::xorshift;
use vstd::prelude::*;

verus! {

/// An outer poll leaves the merge as it is but for its generator and for
/// what is left of its round. It asks for a live slot whose flag was set,
/// or finds nothing due; it never ends the merge and hands out nothing.
pub proof fn lemma_poll_next_step<T>(m: MergeView, flags: Seq<bool>)
    requires
        m.len() <= usize::MAX,
        flags.len() == m.len(),
    ensures
        ({
            let t = m.poll_next::<T>(flags);
            &&& t.merge == (MergeView { rng: xorshift(m.rng), left: t.merge.left, ..m })
            &&& m.wf() ==> t.merge.wf()
            &&& t.flags.len() == flags.len()
            &&& t.merge.left <= m.len()
            &&& t.step is Poll ==> t.merge.left < m.len()
            &&& t.step is Poll || t.step is Pending
            &&& t.step matches MergeStep::Poll(i) ==> i < m.len() && flags[i as int]
                && !m.exhausted[i as int]
        }),
{
    lemma_scan_result::<T>(flags, m.exhausted, m.start(), m.len());
    if m.rng != 0 {
        lemma_xorshift_moves(m.rng);
    }
}

/// A slot answers a merge whose count of ends is exact, whatever the
/// readiness flags are.
///
/// Then the count stays exact: an end is counted once, however often it
/// is reported. The merge reports its end exactly with the answer that
/// ends the last live sequence. An item of a live sequence is handed out
/// as it came, and nothing else is handed out. Where the round goes on,
/// each slot that is asked for takes one from what is left of it.
pub proof fn lemma_resume_counts<T>(m: MergeView, flags: Seq<bool>, index: int, outcome: StreamPoll<T>)
    requires
        m.len() <= usize::MAX,
        flags.len() == m.len(),
        m.wf(),
        0 <= index < m.len(),
    ensures
        ({
            let t = m.resume(flags, index, outcome);
            &&& t.merge.exhausted == ended_after(m.exhausted, index, outcome)
            &&& m.exhausted[index] ==> ended_after(m.exhausted, index, outcome) == m.exhausted
            &&& t.merge.rng == m.rng
            &&& t.merge.wf()
            &&& t.flags.len() == flags.len()
            &&& t.merge.left <= m.left
            &&& t.step is Poll ==> t.merge.left < m.left
            &&& t.step is Done <==> t.merge.terminated() && !m.terminated()
            &&& t.step is Done ==> outcome is Done && !m.exhausted[index]
            &&& !m.exhausted[index] ==> (outcome matches StreamPoll::Item(item) ==> t.step
                == MergeStep::Item(item))
            &&& t.step matches MergeStep::Item(item) ==> outcome == StreamPoll::Item(item)
                && !m.exhausted[index]
            &&& t.step matches MergeStep::Poll(i) ==> i < m.len() && flags[i as int]
                && !t.merge.exhausted[i as int]
            &&& forall|i: int|
                0 <= i < m.len() && flags[i] && !t.merge.exhausted[i] && t.step != MergeStep::<T>::Poll(
                    i as usize,
                ) ==> t.flags[i]
        }),
{
    lemma_ended_counts(m, index);
    let ended = m.ended(index);
    lemma_count_bounds(ended.exhausted);
    lemma_scan_result::<T>(flags, m.exhausted, index, m.left);
    lemma_scan_result::<T>(flags, ended.exhausted, index, m.left);
}

/// An outer poll leaves no due slot waiting at its start. Where some slot
/// has its flag set and its sequence is live, the poll asks for a slot;
/// and a live slot that it does not ask for keeps its flag.
pub proof fn lemma_poll_next_asks_when_due<T>(m: MergeView, flags: Seq<bool>, slot: int)
    requires
        m.len() <= usize::MAX,
        flags.len() == m.len(),
        0 <= slot < m.len(),
        flags[slot],
        !m.exhausted[slot],
    ensures
        ({
            let t = m.poll_next::<T>(flags);
            &&& t.step is Poll
            &&& t.step != MergeStep::<T>::Poll(slot as usize) ==> t.flags[slot]
        }),
{
    lemma_scan_result::<T>(flags, m.exhausted, m.start(), m.len());
    if m.poll_next::<T>(flags).step is Pending {
        lemma_pending_means_idle::<T>(flags, m.exhausted, m.start());
    }
}

/// One thing that happens to a merge, with the readiness flags at that
/// moment: whatever the wake handles have made of them in the meantime.
pub enum MergeEvent<T> {
    /// An outer poll starts.
    Poll {
        /// The readiness flags when the poll starts.
        flags: Seq<bool>,
    },
    /// A slot that was polled answers.
    Answer {
        /// The readiness flags when the answer arrives.
        flags: Seq<bool>,
        /// The slot that was polled.
        slot: int,
        /// What the poll gave.
        outcome: StreamPoll<T>,
    },
}

impl<T> MergeEvent<T> {
    /// The readiness flags at the event.
    pub open spec fn flags(self) -> Seq<bool> {
        match self {
            MergeEvent::Poll { flags } => flags,
            MergeEvent::Answer { flags, .. } => flags,
        }
    }

    /// The item that a sequence gives with this event, if it gives one.
    pub open spec fn item(self) -> Option<T> {
        match self {
            MergeEvent::Answer { outcome: StreamPoll::Item(item), .. } => Some(item),
            _ => None,
        }
    }

    /// With this event the sequence of `slot` reports its end.
    pub open spec fn ends(self, slot: int) -> bool {
        self matches MergeEvent::Answer { slot: s, outcome: StreamPoll::Done, .. } && s == slot
    }

    /// With this event some sequence reports its end.
    pub open spec fn is_end(self) -> bool {
        self matches MergeEvent::Answer { outcome: StreamPoll::Done, .. }
    }

    /// This event is an answer of `slot`.
    pub open spec fn answers(self, slot: int) -> bool {
        self matches MergeEvent::Answer { slot: s, .. } && s == slot
    }
}

/// A merge of `n` sequences before its first poll, seeded with `seed`.
pub open spec fn fresh_merge(n: nat, seed: u32) -> MergeView {
    MergeView { exhausted: Seq::new(n, |i: int| false), complete: 0, rng: seeded(seed), left: 0 }
}

/// The turn that a fresh merge ends with when the events of `trace` happen
/// to it one after the other.
pub open spec fn merge_run<T>(n: nat, seed: u32, trace: Seq<MergeEvent<T>>) -> Turn<T>
    decreases trace.len(),
{
    if trace.len() == 0 {
        Turn { merge: fresh_merge(n, seed), flags: Seq::empty(), step: MergeStep::Pending }
    } else {
        let before = merge_run(n, seed, trace.drop_last()).merge;
        match trace.last() {
            MergeEvent::Poll { flags } => before.poll_next(flags),
            MergeEvent::Answer { flags, slot, outcome } => before.resume(flags, slot, outcome),
        }
    }
}

/// The items that the merge hands out over `trace`, in the order in which
/// it hands them out.
pub open spec fn received<T>(n: nat, seed: u32, trace: Seq<MergeEvent<T>>) -> Seq<T>
    decreases trace.len(),
{
    if trace.len() == 0 {
        Seq::empty()
    } else {
        let earlier = received(n, seed, trace.drop_last());
        match merge_run(n, seed, trace).step {
            MergeStep::Item(item) => earlier.push(item),
            _ => earlier,
        }
    }
}

/// The items that the sequences give over `trace`, in the order in which
/// they give them.
pub open spec fn given<T>(trace: Seq<MergeEvent<T>>) -> Seq<T>
    decreases trace.len(),
{
    if trace.len() == 0 {
        Seq::empty()
    } else {
        let earlier = given(trace.drop_last());
        match trace.last().item() {
            Some(item) => earlier.push(item),
            None => earlier,
        }
    }
}

/// The sequence of `slot` reports its end with one of the events of
/// `trace` up to event `upto`.
pub open spec fn ended_by<T>(trace: Seq<MergeEvent<T>>, upto: int, slot: int) -> bool {
    exists|k: int| 0 <= k <= upto && k < trace.len() && (#[trigger] trace[k]).ends(slot)
}

/// By slot: whether the sequence has reported its end in `trace`.
pub open spec fn ended_in<T>(n: nat, trace: Seq<MergeEvent<T>>) -> Seq<bool> {
    Seq::new(n, |i: int| ended_by(trace, trace.len() - 1, i))
}

/// The events of `trace` are those of a merge of `n` sequences that is
/// driven as it asks to be:
/// - every event brings `n` flags, and every answer comes from one of the
///   `n` slots;
/// - a slot that has reported its end is not polled again.
///
/// The flags are free: a wake handle may fire at any time and any number
/// of times, that of an ended sequence too.
pub open spec fn merged_in_turn<T>(n: nat, trace: Seq<MergeEvent<T>>) -> bool {
    &&& forall|k: int| 0 <= k < trace.len() ==> (#[trigger] trace[k]).flags().len() == n
    &&& forall|k: int, slot: int|
        0 <= k < trace.len() && (#[trigger] trace[k].answers(slot)) ==> 0 <= slot < n
    &&& forall|k1: int, k2: int, slot: int|
        0 <= k1 < k2 < trace.len() && (#[trigger] trace[k1].ends(slot)) ==> !(
        #[trigger] trace[k2].answers(slot))
}

/// Over a whole run, the merge hands out every item that a sequence gives,
/// once and in the order given, and nothing else. It counts each sequence
/// that has ended once, and it reports its end exactly with the answer
/// that ends the last live sequence: never while a sequence is live.
///
/// This holds for every interleaving of the sequences, every choice of
/// start indices, and whatever the wake handles do to the flags.
pub proof fn lemma_merge_hands_out_all<T>(n: nat, seed: u32, trace: Seq<MergeEvent<T>>)
    requires
        n <= usize::MAX,
        merged_in_turn(n, trace),
    ensures
        received(n, seed, trace) == given(trace),
        merge_run(n, seed, trace).merge.exhausted == ended_in(n, trace),
        merge_run(n, seed, trace).merge.len() == n,
        merge_run(n, seed, trace).merge.wf(),
        merge_run(n, seed, trace).step is Done <==> trace.len() > 0 && trace.last().is_end()
            && all_ended(ended_in(n, trace)),
    decreases trace.len(),
{
    if trace.len() == 0 {
        let m = fresh_merge(n, seed);
        assert forall|i: int| 0 <= i < n implies !ended_in(n, trace)[i] by {
            if ended_by(trace, -1, i) {
                let w = choose|w: int| 0 <= w <= -1 && w < trace.len() && (#[trigger] trace[w]).ends(i);
            }
        }
        assert(m.exhausted =~= ended_in(n, trace));
        lemma_count_bounds(m.exhausted);
    } else {
        let prefix = trace.drop_last();
        let at = trace.len() - 1;
        let last = trace[at];
        assert forall|k: int| 0 <= k < prefix.len() implies prefix[k] == trace[k] by {}
        assert(merged_in_turn(n, prefix)) by {
            assert forall|k1: int, k2: int, slot: int|
                0 <= k1 < k2 < prefix.len() && (#[trigger] prefix[k1].ends(slot)) implies !(
            #[trigger] prefix[k2].answers(slot)) by {
                assert(trace[k1].ends(slot));
                assert(prefix[k2] == trace[k2]);
            }
            assert forall|k: int, slot: int|
                0 <= k < prefix.len() && (#[trigger] prefix[k].answers(slot)) implies 0 <= slot
                < n by {
                assert(trace[k].answers(slot));
            }
        }
        lemma_merge_hands_out_all(n, seed, prefix);
        let m = merge_run(n, seed, prefix).merge;
        // What the merge knows to have ended is what has ended before
        // the last event.
        assert forall|i: int| 0 <= i < n implies m.exhausted[i] == ended_by(trace, at - 1, i) by {
            assert(m.exhausted[i] == ended_by(prefix, prefix.len() - 1, i));
            if ended_by(trace, at - 1, i) {
                let w = choose|w: int|
                    0 <= w <= at - 1 && w < trace.len() && (#[trigger] trace[w]).ends(i);
                assert(prefix[w].ends(i));
            }
            if ended_by(prefix, at - 1, i) {
                let w = choose|w: int|
                    0 <= w <= at - 1 && w < prefix.len() && (#[trigger] prefix[w]).ends(i);
                assert(trace[w].ends(i));
            }
        }
        // The last event ends at most its own slot.
        assert forall|i: int| 0 <= i < n implies ended_by(trace, at, i) == (m.exhausted[i]
            || last.ends(i)) by {
            if ended_by(trace, at, i) {
                let w = choose|w: int| 0 <= w <= at && w < trace.len() && (#[trigger] trace[w]).ends(i);
                if w < at {
                    assert(ended_by(trace, at - 1, i));
                }
            }
            if m.exhausted[i] {
                let w = choose|w: int|
                    0 <= w <= at - 1 && w < trace.len() && (#[trigger] trace[w]).ends(i);
                assert(trace[w].ends(i));
            }
            if last.ends(i) {
                assert(trace[at].ends(i));
            }
        }
        match last {
            MergeEvent::Poll { flags } => {
                assert forall|i: int| 0 <= i < n implies !last.ends(i) by {}
                assert(ended_in(n, trace) =~= m.exhausted);
                assert(trace[at].flags() == flags);
                lemma_poll_next_step::<T>(m, flags);
            },
            MergeEvent::Answer { flags, slot, outcome } => {
                assert(trace[at].answers(slot));
                assert(trace[at].flags() == flags);
                assert(!m.exhausted[slot]) by {
                    if m.exhausted[slot] {
                        let w = choose|w: int|
                            0 <= w <= at - 1 && w < trace.len() && (#[trigger] trace[w]).ends(slot);
                        assert(trace[w].ends(slot));
                    }
                }
                let after = ended_after(m.exhausted, slot, outcome);
                assert(ended_in(n, trace) =~= after) by {
                    assert forall|i: int| 0 <= i < n implies ended_in(n, trace)[i] == after[i] by {
                        assert(last.ends(i) <==> (i == slot && outcome is Done));
                    }
                }
                lemma_resume_counts(m, flags, slot, outcome);
                assert(!m.terminated());
            },
        }
    }
}

} // verus!
