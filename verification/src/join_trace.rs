//! What a join does over a whole run of answers, in whatever order the
//! computations finish.

use crate::join::empty_cells;
use crate::join::lemma_stored_full;
use crate::join::produced;
use crate::join::stored;
use crate::join::FuturePoll;
use crate::join::JoinStepView;
use crate::join::JoinTurn;
use crate::join::JoinView;
use crate::poll_state::all_in;
use crate::poll_state::PollState;
use crate::readiness::lemma_count_bounds;
use crate::readiness::lemma_count_update;
use vstd::prelude::*;

verus! {

/// One answer handed to a join: the readiness flags at that moment, the
/// slot that was polled, and what its poll gave. The flags are whatever the
/// wake handles have made of them in the meantime.
pub struct JoinAnswer<T> {
    /// The readiness flags when the answer arrives.
    pub flags: Seq<bool>,
    /// The slot that was polled.
    pub slot: int,
    /// What the poll gave.
    pub outcome: FuturePoll<T>,
}

/// A join of `n` computations before its first poll.
pub open spec fn fresh<T>(n: nat) -> JoinView<T> {
    JoinView {
        cells: empty_cells(n),
        states: all_in(n, PollState::Pending),
        completed: 0,
        handed_out: false,
    }
}

/// The turn that a fresh join of `n` computations ends with when it takes
/// the answers of `trace` one after the other.
pub open spec fn join_run<T>(n: nat, trace: Seq<JoinAnswer<T>>) -> JoinTurn<T>
    decreases trace.len(),
{
    if trace.len() == 0 {
        JoinTurn { join: fresh(n), flags: Seq::empty(), step: JoinStepView::Pending }
    } else {
        let last = trace.last();
        join_run(n, trace.drop_last()).join.resume(last.flags, last.slot, last.outcome)
    }
}

/// Answer `k` of `trace` is the value of slot `slot`.
pub open spec fn produces_at<T>(trace: Seq<JoinAnswer<T>>, k: int, slot: int) -> bool {
    &&& 0 <= k < trace.len()
    &&& trace[k].slot == slot
    &&& trace[k].outcome is Ready
}

/// Some answer of `trace` is the value of slot `slot`.
pub open spec fn has_produced<T>(trace: Seq<JoinAnswer<T>>, slot: int) -> bool {
    exists|k: int| produces_at(trace, k, slot)
}

/// Every answer of `trace` comes from one of `n` slots, and no slot is
/// polled again after it has given its value.
pub open spec fn polled_in_turn<T>(n: nat, trace: Seq<JoinAnswer<T>>) -> bool {
    &&& forall|k: int| 0 <= k < trace.len() ==> 0 <= (#[trigger] trace[k]).slot < n
    &&& forall|k1: int, k2: int|
        0 <= k1 < k2 < trace.len() && (#[trigger] trace[k1]).slot == (#[trigger] trace[k2]).slot
            ==> trace[k1].outcome is Pending
}

/// A slot that gives a value in `trace` gives the one that `values` holds
/// for it.
pub open spec fn gives<T>(trace: Seq<JoinAnswer<T>>, values: Seq<T>) -> bool {
    forall|k: int|
        0 <= k < trace.len() ==> ((#[trigger] trace[k]).outcome matches FuturePoll::Ready(value)
            ==> value == values[trace[k].slot])
}

/// The cells of a join in which exactly the slots that have given a value
/// in `trace` hold theirs.
pub open spec fn cells_after<T>(n: nat, values: Seq<T>, trace: Seq<JoinAnswer<T>>) -> Seq<Option<T>> {
    Seq::new(
        n,
        |i: int|
            if has_produced(trace, i) {
                Some(values[i])
            } else {
                None
            },
    )
}

/// The states of a join in which exactly the slots that have given a value
/// in `trace` are `Ready`, and the others `Pending`.
pub open spec fn states_after<T>(n: nat, trace: Seq<JoinAnswer<T>>) -> Seq<PollState> {
    Seq::new(
        n,
        |i: int|
            if has_produced(trace, i) {
                PollState::Ready
            } else {
                PollState::Pending
            },
    )
}

/// While some computation has not given its value, the join holds exactly
/// the values given so far, each in the cell of its slot, and has not
/// handed out a result.
///
/// This holds for every order of the answers and whatever the readiness
/// flags were at each of them. A join that is given up at this point and
/// drained lets go of `stored(cells_after(n, values, trace))`: the values
/// produced, and nothing else.
pub proof fn lemma_join_holds_produced<T>(n: nat, values: Seq<T>, trace: Seq<JoinAnswer<T>>)
    requires
        values.len() == n,
        polled_in_turn(n, trace),
        gives(trace, values),
        exists|i: int| 0 <= i < n && !has_produced(trace, i),
    ensures
        join_run(n, trace).join.wf(),
        join_run(n, trace).join.active(),
        join_run(n, trace).join.cells == cells_after(n, values, trace),
        join_run(n, trace).join.states == states_after(n, trace),
        !join_run(n, trace).join.finished(),
        !(join_run(n, trace).step is Ready),
    decreases trace.len(),
{
    let missing = choose|i: int| 0 <= i < n && !has_produced(trace, i);
    if trace.len() == 0 {
        let j = fresh::<T>(n);
        lemma_count_bounds(produced(j.states));
        assert forall|i: int| 0 <= i < n implies !has_produced(trace, i) by {
            if has_produced(trace, i) {
                let k = choose|k: int| produces_at(trace, k, i);
                assert(produces_at(trace, k, i));
            }
        }
        assert(j.cells =~= cells_after(n, values, trace));
        assert(j.states =~= states_after(n, trace));
    } else {
        let prefix = trace.drop_last();
        let last = trace.last();
        let at = trace.len() - 1;
        assert(trace[at] == last);
        assert forall|k: int| 0 <= k < prefix.len() implies prefix[k] == trace[k] by {}
        // What the prefix has produced is what the whole trace has, but
        // for the last answer.
        assert forall|i: int| has_produced(prefix, i) implies has_produced(trace, i) by {
            let k = choose|k: int| produces_at(prefix, k, i);
            assert(produces_at(trace, k, i));
        }
        assert forall|i: int|
            has_produced(trace, i) && !(last.slot == i
                && last.outcome is Ready) implies has_produced(prefix, i) by {
            let k = choose|k: int| produces_at(trace, k, i);
            assert(produces_at(prefix, k, i));
        }
        assert(!has_produced(prefix, missing));
        lemma_join_holds_produced(n, values, prefix);
        let before = join_run(n, prefix).join;
        let slot = last.slot;
        match last.outcome {
            FuturePoll::Pending => {
                assert(cells_after(n, values, prefix) =~= cells_after(n, values, trace));
                assert(states_after(n, prefix) =~= states_after(n, trace));
            },
            FuturePoll::Ready(value) => {
                assert(produces_at(trace, at, slot));
                assert(!has_produced(prefix, slot)) by {
                    if has_produced(prefix, slot) {
                        let k = choose|k: int| produces_at(prefix, k, slot);
                        assert(trace[k].slot == trace[at].slot);
                    }
                }
                let filled = before.record(slot, value);
                assert(produced(filled.states) =~= produced(before.states).update(slot, true));
                lemma_count_update(produced(before.states), slot, true);
                lemma_count_bounds(produced(filled.states));
                assert(!produced(filled.states)[missing]);
                assert(filled.cells =~= cells_after(n, values, trace));
                assert(filled.states =~= states_after(n, trace));
            },
        }
    }
}

/// Once every computation has given its value, each exactly once, the
/// join hands out its result with the last of them, and the result holds
/// the value of slot `i` at position `i`.
///
/// This holds for every order in which the computations finish, however
/// many times each was polled in vain before, and whatever the readiness
/// flags were at each answer.
pub proof fn lemma_join_result_by_slot<T>(n: nat, values: Seq<T>, trace: Seq<JoinAnswer<T>>)
    requires
        n > 0,
        values.len() == n,
        polled_in_turn(n, trace),
        gives(trace, values),
        forall|i: int| 0 <= i < n ==> has_produced(trace, i),
    ensures
        join_run(n, trace).step == JoinStepView::Ready(values),
        join_run(n, trace).join.cells == empty_cells::<T>(n),
        join_run(n, trace).join.states == all_in(n, PollState::Consumed),
        join_run(n, trace).join.finished(),
{
    assert(has_produced(trace, 0));
    let k0 = choose|k: int| produces_at(trace, k, 0);
    assert(produces_at(trace, k0, 0));
    let prefix = trace.drop_last();
    let last = trace.last();
    let at = trace.len() - 1;
    let slot = last.slot;
    assert(trace[at] == last);
    assert forall|k: int| 0 <= k < prefix.len() implies prefix[k] == trace[k] by {}
    // The last answer is a value: its slot has given one somewhere, and
    // is not polled after that.
    assert(has_produced(trace, slot));
    let k_slot = choose|k: int| produces_at(trace, k, slot);
    assert(produces_at(trace, k_slot, slot));
    if k_slot < at {
        assert(trace[k_slot].slot == trace[at].slot);
    }
    assert(last.outcome is Ready);
    let value = last.outcome->Ready_0;
    // Before it, every slot but this one has given its value.
    assert(!has_produced(prefix, slot)) by {
        if has_produced(prefix, slot) {
            let k = choose|k: int| produces_at(prefix, k, slot);
            assert(trace[k].slot == trace[at].slot);
        }
    }
    assert forall|i: int| 0 <= i < n && i != slot implies has_produced(prefix, i) by {
        assert(has_produced(trace, i));
        let k = choose|k: int| produces_at(trace, k, i);
        assert(produces_at(trace, k, i));
        assert(produces_at(prefix, k, i));
    }
    lemma_join_holds_produced(n, values, prefix);
    let before = join_run(n, prefix).join;
    let filled = before.record(slot, value);
    assert(produced(filled.states) =~= Seq::new(n, |i: int| true));
    assert(produced(filled.states) =~= produced(before.states).update(slot, true));
    lemma_count_update(produced(before.states), slot, true);
    lemma_count_bounds(produced(filled.states));
    assert(filled.completed == n);
    assert forall|i: int| 0 <= i < n implies filled.cells[i] == Some(values[i]) by {}
    lemma_stored_full(filled.cells);
    assert(stored(filled.cells) =~= values);
    assert(filled.emptied().states =~= all_in(n, PollState::Consumed));
}

} // verus!
