//! The order in which a merge serves its slots.

use crate::fuse::StreamPoll;
use crate::merge::ahead;
use crate::merge::all_ended;
use crate::merge::ended_after;
use crate::merge::lemma_ahead_step;
use crate::merge::lemma_scan_result;
use crate::merge::scan;
use crate::merge::slot_after;
use crate::merge::MergeStep;
use crate::merge::MergeView;
use crate::merge::Turn;
use crate::merge_trace::lemma_resume_counts;
use crate::readiness::all_ready;
use crate::rng::scale;
use crate::rng::seeded;
use crate::rng::xorshift;
use vstd::arithmetic::div_mod::lemma_mod_bound;
use vstd::prelude::*;
use vstd::set_lib::lemma_int_range;
use vstd::set_lib::lemma_subset_equality;
use vstd::set_lib::set_int_range;

verus! {

/// Slot `slot` is due for a poll: its flag is set and its sequence is
/// live.
pub open spec fn due(flags: Seq<bool>, exhausted: Seq<bool>, slot: int) -> bool {
    flags[slot] && !exhausted[slot]
}

/// The slot `d` behind `index` is due, and none of the slots between
/// `index` and it is.
pub open spec fn first_due_behind(flags: Seq<bool>, exhausted: Seq<bool>, index: int, d: int) -> bool {
    &&& 1 <= d <= flags.len()
    &&& due(flags, exhausted, ahead(index, d, flags.len()))
    &&& forall|e: int| 1 <= e < d ==> !due(flags, exhausted, #[trigger] ahead(index, e, flags.len()))
}

/// A scan goes round the slots in order. It asks for the first slot behind
/// its start that is due; it finds nothing due only where none of the
/// slots it looked at is due.
pub proof fn lemma_scan_round_robin<T>(flags: Seq<bool>, exhausted: Seq<bool>, index: int, fuel: nat)
    requires
        exhausted.len() == flags.len(),
        0 < flags.len() <= usize::MAX,
        fuel <= flags.len(),
    ensures
        ({
            let s = scan::<T>(flags, exhausted, index, fuel);
            &&& s.step matches MergeStep::Poll(i) ==> exists|d: int|
                d <= fuel && #[trigger] first_due_behind(flags, exhausted, index, d) && i == ahead(
                    index,
                    d,
                    flags.len(),
                )
            &&& s.step is Pending ==> forall|e: int|
                1 <= e <= fuel ==> !due(flags, exhausted, #[trigger] ahead(index, e, flags.len()))
        }),
    decreases fuel,
{
    let n = flags.len();
    let s = scan::<T>(flags, exhausted, index, fuel);
    lemma_scan_result::<T>(flags, exhausted, index, fuel);
    if fuel > 0 {
        let next = slot_after(index, n);
        lemma_ahead_step(index, 0, n);
        if due(flags, exhausted, next) {
            assert(first_due_behind(flags, exhausted, index, 1));
        } else {
            let cleared = flags.update(next, false);
            lemma_scan_round_robin::<T>(cleared, exhausted, next, (fuel - 1) as nat);
            assert(s == scan::<T>(cleared, exhausted, next, (fuel - 1) as nat));
            // Clearing the flag of a slot that is not due changes nothing
            // about which slots are due.
            assert forall|j: int| 0 <= j < n implies due(cleared, exhausted, j) == due(
                flags,
                exhausted,
                j,
            ) by {}
            if s.step is Poll {
                let i = s.step->Poll_0;
                let d = choose|d: int|
                    d <= fuel - 1 && #[trigger] first_due_behind(cleared, exhausted, next, d) && i
                        == ahead(next, d, n);
                lemma_ahead_step(index, d, n);
                assert forall|e: int| 1 <= e < d + 1 implies !due(
                    flags,
                    exhausted,
                    #[trigger] ahead(index, e, n),
                ) by {
                    if e > 1 {
                        lemma_ahead_step(index, e - 1, n);
                        assert(!due(cleared, exhausted, ahead(next, e - 1, n)));
                    }
                }
                assert(first_due_behind(flags, exhausted, index, d + 1));
            } else {
                assert forall|e: int| 1 <= e <= fuel implies !due(
                    flags,
                    exhausted,
                    #[trigger] ahead(index, e, n),
                ) by {
                    if e > 1 {
                        lemma_ahead_step(index, e - 1, n);
                        assert(!due(cleared, exhausted, ahead(next, e - 1, n)));
                    }
                }
            }
        }
    }
}

/// The scan that follows an answer leaves no due slot waiting that lies
/// in what is left of the round. Where the answer is no item and such a
/// slot has its flag set and its sequence is live after the answer, the
/// merge asks for a slot; and a live slot that it does not ask for keeps
/// its flag.
pub proof fn lemma_resume_asks_when_due<T>(
    m: MergeView,
    flags: Seq<bool>,
    index: int,
    outcome: StreamPoll<T>,
    e: int,
)
    requires
        m.len() <= usize::MAX,
        flags.len() == m.len(),
        m.wf(),
        0 <= index < m.len(),
        !(outcome is Item),
        1 <= e <= m.left,
        due(flags, ended_after(m.exhausted, index, outcome), ahead(index, e, m.len())),
    ensures
        ({
            let t = m.resume(flags, index, outcome);
            let slot = ahead(index, e, m.len());
            &&& t.step is Poll
            &&& t.step != MergeStep::<T>::Poll(slot as usize) ==> t.flags[slot]
        }),
{
    let slot = ahead(index, e, m.len());
    lemma_ahead_step(index, e - 1, m.len());
    lemma_resume_counts(m, flags, index, outcome);
    let after = ended_after(m.exhausted, index, outcome);
    assert(!all_ended(after));
    lemma_scan_round_robin::<T>(flags, after, index, m.left);
}

/// Where every slot is flagged and live, a scan asks for the slot right
/// behind its start.
pub proof fn lemma_scan_serves_next<T>(exhausted: Seq<bool>, index: int)
    requires
        0 < exhausted.len() <= usize::MAX,
        forall|i: int| 0 <= i < exhausted.len() ==> !exhausted[i],
    ensures
        ({
            let n = exhausted.len();
            let s = scan::<T>(all_ready(n), exhausted, index, n);
            &&& 0 <= slot_after(index, n) < n
            &&& s.step == MergeStep::<T>::Poll(slot_after(index, n) as usize)
            &&& s.flags == all_ready(n).update(slot_after(index, n), false)
            &&& s.left == n - 1
        }),
{
    let n = exhausted.len();
    lemma_ahead_step(index, 0, n);
}

/// The word of a generator seeded with `seed` after `rounds` rounds.
pub open spec fn word_after(seed: u32, rounds: nat) -> u32
    decreases rounds,
{
    if rounds == 0 {
        seed
    } else {
        xorshift(word_after(seed, (rounds - 1) as nat))
    }
}

/// A merge of `n` sequences that has handed out `k` items, each with the
/// first slot that its outer poll looked at, and seen no end.
pub open spec fn busy_merge(n: nat, seed: u32, k: nat) -> MergeView {
    MergeView {
        exhausted: Seq::new(n, |i: int| false),
        complete: 0,
        rng: word_after(seeded(seed), k),
        left: if k == 0 {
            0
        } else {
            (n - 1) as nat
        },
    }
}

/// The slot that outer poll `k`, counting from 0, serves in a merge of `n`
/// sequences seeded with `seed`, while every sequence has an item at every
/// poll.
pub open spec fn served(n: nat, seed: u32, k: nat) -> int {
    slot_after(scale(word_after(seeded(seed), k + 1), n as u32), n)
}

/// While every sequence has an item at every poll, outer poll `k` asks
/// for slot `served(n, seed, k)`, hands out the item that this slot
/// gives, and leaves every flag set for the next poll.
pub proof fn lemma_busy_poll<T>(n: nat, seed: u32, k: nat, item: T)
    requires
        0 < n <= usize::MAX,
    ensures
        ({
            let slot = served(n, seed, k);
            let asked = busy_merge(n, seed, k).poll_next::<T>(all_ready(n));
            &&& 0 <= slot < n
            &&& asked == (Turn::<T> {
                merge: busy_merge(n, seed, k + 1),
                flags: all_ready(n).update(slot, false),
                step: MergeStep::Poll(slot as usize),
            })
            &&& asked.merge.resume(asked.flags, slot, StreamPoll::Item(item)) == (Turn {
                merge: busy_merge(n, seed, k + 1),
                flags: all_ready(n),
                step: MergeStep::Item(item),
            })
        }),
{
    let m = busy_merge(n, seed, k);
    let slot = served(n, seed, k);
    lemma_scan_serves_next::<T>(m.exhausted, m.start());
    assert(all_ready(n).update(slot, false).update(slot, true) =~= all_ready(n));
}

/// Among `n` outer polls in a row that serve `n` different slots, every
/// slot is served: none waits longer than `n - 1` yields.
///
/// The start of a scan comes from the generator, which does not promise
/// that `n` polls in a row start at `n` different places. Where two of
/// them start at the same place, one slot is served twice and another
/// has to wait.
pub proof fn lemma_fair_round(n: nat, seed: u32, from: nat, slot: int)
    requires
        0 < n,
        0 <= slot < n,
        forall|k1: nat, k2: nat|
            from <= k1 < k2 < from + n ==> #[trigger] served(n, seed, k1) != #[trigger] served(
                n,
                seed,
                k2,
            ),
    ensures
        exists|k: nat| from <= k < from + n && #[trigger] served(n, seed, k) == slot,
{
    let round = Seq::new(n, |j: int| served(n, seed, (from + j) as nat));
    assert(round.no_duplicates()) by {
        assert forall|i: int, j: int|
            0 <= i < round.len() && 0 <= j < round.len() && i != j implies round[i] != round[j] by {
            let ki = (from + i) as nat;
            let kj = (from + j) as nat;
            if i < j {
                assert(served(n, seed, ki) != served(n, seed, kj));
            } else {
                assert(served(n, seed, kj) != served(n, seed, ki));
            }
        }
    }
    round.unique_seq_to_set();
    lemma_int_range(0, n as int);
    assert(round.to_set().subset_of(set_int_range(0, n as int))) by {
        assert forall|s: int| round.to_set().contains(s) implies set_int_range(0, n as int).contains(
            s,
        ) by {
            let j = choose|j: int| 0 <= j < round.len() && round[j] == s;
            lemma_mod_bound(
                scale(word_after(seeded(seed), (from + j + 1) as nat), n as u32) + 1,
                n as int,
            );
        }
    }
    vstd::seq_lib::seq_to_set_is_finite(round);
    lemma_subset_equality(round.to_set(), set_int_range(0, n as int));
    assert(set_int_range(0, n as int).contains(slot));
    assert(round.to_set().contains(slot));
    let j = choose|j: int| 0 <= j < round.len() && round[j] == slot;
    assert(served(n, seed, (from + j) as nat) == slot);
}

} // verus!
