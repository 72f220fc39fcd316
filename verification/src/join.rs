//! Joining computations: which slot is polled next, where its value is
//! kept, and when all values are handed out.

use crate::poll_state::all_in;
use crate::poll_state::PollState;
use crate::poll_state::PollStates;
use crate::readiness::count_ready;
use crate::readiness::lemma_count_bounds;
use crate::readiness::lemma_count_update;
use crate::readiness::ReadinessVec;
use std::task::Waker;
use vstd::prelude::*;

verus! {

/// What one poll of a computation gave.
#[derive(Debug, PartialEq, Eq)]
pub enum FuturePoll<T> {
    /// Nothing yet; the computation will fire its wake handle.
    Pending,
    /// The computation's value. It is not polled again.
    Ready(T),
}

/// What the join asks of its caller, or answers to it.
#[derive(Debug, PartialEq, Eq)]
pub enum JoinStep<T> {
    /// Poll the computation of this slot through the slot's wake handle
    /// and hand its answer to `resume`.
    Poll(usize),
    /// Nothing is due: the outer poll returns "not yet".
    Pending,
    /// Every computation has produced its value. The outer poll returns
    /// them, the value of slot `i` at position `i`.
    Ready(Vec<T>),
}

/// A `JoinStep` as contracts see it.
pub enum JoinStepView<T> {
    /// Poll the computation of this slot.
    Poll(usize),
    /// Nothing is due.
    Pending,
    /// The values, by slot.
    Ready(Seq<T>),
}

impl<T> View for JoinStep<T> {
    type V = JoinStepView<T>;

    open spec fn view(&self) -> JoinStepView<T> {
        match *self {
            JoinStep::Poll(i) => JoinStepView::Poll(i),
            JoinStep::Pending => JoinStepView::Pending,
            JoinStep::Ready(values) => JoinStepView::Ready(values@),
        }
    }
}

/// By slot: whether the slot has produced its value.
pub open spec fn produced(states: Seq<PollState>) -> Seq<bool> {
    Seq::new(states.len(), |i: int| states[i] != PollState::Pending)
}

/// The first slot at or behind `from` that is due for a poll: its flag is
/// set and it has not produced its value. Where there is none, the number
/// of slots.
pub open spec fn first_due(flags: Seq<bool>, states: Seq<PollState>, from: int) -> int
    decreases flags.len() - from,
{
    if from >= flags.len() {
        flags.len() as int
    } else if flags[from] && states[from] == PollState::Pending {
        from
    } else {
        first_due(flags, states, from + 1)
    }
}

/// `flags` with every flag from `from` up to and including `upto` cleared.
pub open spec fn swept(flags: Seq<bool>, from: int, upto: int) -> Seq<bool> {
    Seq::new(flags.len(), |i: int| flags[i] && !(from <= i <= upto))
}

/// The values that `cells` hold, in slot order.
pub open spec fn stored<T>(cells: Seq<Option<T>>) -> Seq<T>
    decreases cells.len(),
{
    if cells.len() == 0 {
        Seq::empty()
    } else {
        match cells.last() {
            Some(value) => stored(cells.drop_last()).push(value),
            None => stored(cells.drop_last()),
        }
    }
}

/// `n` empty cells.
pub open spec fn empty_cells<T>(n: nat) -> Seq<Option<T>> {
    Seq::new(n, |i: int| None::<T>)
}

/// The state of a join as contracts see it.
pub struct JoinView<T> {
    /// By slot: the value that waits to be handed out, if any.
    pub cells: Seq<Option<T>>,
    /// By slot: where the slot's value stands.
    pub states: Seq<PollState>,
    /// How many slots have produced their value.
    pub completed: nat,
    /// Whether the join has handed out its result.
    pub handed_out: bool,
}

/// A join, its readiness flags and a step: what a call leaves behind.
pub struct JoinTurn<T> {
    /// The join after the call.
    pub join: JoinView<T>,
    /// The readiness flags after the call.
    pub flags: Seq<bool>,
    /// What the call returned.
    pub step: JoinStepView<T>,
}

impl<T> JoinView<T> {
    /// The number of slots.
    pub open spec fn len(self) -> nat {
        self.states.len()
    }

    /// A cell holds a value exactly while its slot is `Ready`, and
    /// `completed` counts the slots that are not `Pending`. A join with
    /// slots has handed out its result exactly when every slot has
    /// produced its value.
    pub open spec fn wf(self) -> bool {
        &&& self.cells.len() == self.states.len()
        &&& forall|i: int|
            0 <= i < self.states.len() ==> (self.states[i] == PollState::Ready
                <==> #[trigger] self.cells[i] is Some)
        &&& self.completed == count_ready(produced(self.states))
        &&& self.len() > 0 ==> (self.handed_out <==> self.completed == self.len())
    }

    /// No value has left its cell yet: the join has neither handed out its
    /// result nor been drained.
    pub open spec fn active(self) -> bool {
        forall|i: int| 0 <= i < self.states.len() ==> self.states[i] != PollState::Consumed
    }

    /// The join has handed out its result and must not be polled again.
    /// A join without slots is finished after its first poll.
    pub open spec fn finished(self) -> bool {
        self.handed_out
    }

    /// The join once it has handed out its result.
    pub open spec fn delivered(self) -> JoinView<T> {
        JoinView { handed_out: true, ..self }
    }

    /// The join with the value of slot `index` stored.
    pub open spec fn record(self, index: int, value: T) -> JoinView<T> {
        JoinView {
            cells: self.cells.update(index, Some(value)),
            states: self.states.update(index, PollState::Ready),
            completed: self.completed + 1,
            handed_out: self.handed_out,
        }
    }

    /// The join with every value gone from its cell and every slot that
    /// held one `Consumed`.
    pub open spec fn emptied(self) -> JoinView<T> {
        JoinView {
            cells: empty_cells(self.cells.len()),
            states: Seq::new(
                self.states.len(),
                |i: int|
                    if self.states[i] == PollState::Ready {
                        PollState::Consumed
                    } else {
                        self.states[i]
                    },
            ),
            completed: self.completed,
            handed_out: self.handed_out,
        }
    }

    /// A scan from slot `from` on: the flags up to the first due slot are
    /// cleared, and that slot is to be polled. Where no slot is due, all
    /// flags from `from` on are cleared and the outer poll returns "not
    /// yet".
    pub open spec fn scan(self, flags: Seq<bool>, from: int) -> JoinTurn<T> {
        let due = first_due(flags, self.states, from);
        JoinTurn {
            join: self,
            flags: swept(flags, from, due),
            step: if due < flags.len() {
                JoinStepView::Poll(due as usize)
            } else {
                JoinStepView::Pending
            },
        }
    }

    /// An outer poll. A join without slots hands out its empty result at
    /// once and is finished; any other join scans from the first slot on.
    pub open spec fn poll(self, flags: Seq<bool>) -> JoinTurn<T> {
        if self.len() == 0 {
            JoinTurn { join: self.delivered(), flags, step: JoinStepView::Ready(Seq::empty()) }
        } else {
            self.scan(flags, 0)
        }
    }

    /// The join takes the answer `outcome` of slot `index`.
    ///
    /// A value is stored in the slot's cell. If it was the last one
    /// missing, the values that the cells hold leave them, in slot order,
    /// and the join is done. Otherwise, and after "not yet", the scan goes
    /// on behind `index`.
    pub open spec fn resume(self, flags: Seq<bool>, index: int, outcome: FuturePoll<T>) -> JoinTurn<T> {
        match outcome {
            FuturePoll::Pending => self.scan(flags, index + 1),
            FuturePoll::Ready(value) => {
                let filled = self.record(index, value);
                if filled.completed == filled.len() {
                    JoinTurn {
                        join: filled.emptied().delivered(),
                        flags,
                        step: JoinStepView::Ready(stored(filled.cells)),
                    }
                } else {
                    filled.scan(flags, index + 1)
                }
            },
        }
    }
}

/// Where no slot from `from` on has its flag set, none is due.
pub proof fn lemma_first_due_none(flags: Seq<bool>, states: Seq<PollState>, from: int)
    requires
        0 <= from,
        forall|i: int| from <= i < flags.len() ==> !flags[i],
    ensures
        first_due(flags, states, from) == flags.len(),
    decreases flags.len() - from,
{
    if from < flags.len() {
        lemma_first_due_none(flags, states, from + 1);
    }
}

/// The slot that a scan finds lies at or behind `from`, and no slot
/// between `from` and it is due. A slot that is found is due.
pub proof fn lemma_first_due(flags: Seq<bool>, states: Seq<PollState>, from: int)
    requires
        0 <= from <= flags.len(),
    ensures
        from <= first_due(flags, states, from) <= flags.len(),
        forall|i: int|
            from <= i < first_due(flags, states, from) ==> !(flags[i] && states[i]
                == PollState::Pending),
        first_due(flags, states, from) < flags.len() ==> flags[first_due(flags, states, from)]
            && states[first_due(flags, states, from)] == PollState::Pending,
    decreases flags.len() - from,
{
    if from < flags.len() && !(flags[from] && states[from] == PollState::Pending) {
        lemma_first_due(flags, states, from + 1);
    }
}

/// A scan does not pass over a slot that is due. If slot `slot` lies at or
/// behind `from`, has its flag set and has not produced its value, the
/// scan asks for a slot at or before it; and if it asks for an earlier
/// one, the flag of `slot` stays set, so the slot is still due when the
/// scan goes on.
pub proof fn lemma_due_slot_is_asked<T>(join: JoinView<T>, flags: Seq<bool>, from: int, slot: int)
    requires
        flags.len() == join.len(),
        flags.len() <= usize::MAX,
        0 <= from <= slot < flags.len(),
        flags[slot],
        join.states[slot] == PollState::Pending,
    ensures
        ({
            let turn = join.scan(flags, from);
            &&& turn.step matches JoinStepView::Poll(asked) && from <= asked <= slot
            &&& turn.step != JoinStepView::<T>::Poll(slot as usize) ==> turn.flags[slot]
        }),
{
    lemma_first_due(flags, join.states, from);
}

/// The values held by the first `n + 1` cells are those held by the first
/// `n`, followed by the value of cell `n` if it holds one.
pub proof fn lemma_stored_step<T>(cells: Seq<Option<T>>, n: int)
    requires
        0 <= n < cells.len(),
    ensures
        stored(cells.take(n + 1)) == match cells[n] {
            Some(value) => stored(cells.take(n)).push(value),
            None => stored(cells.take(n)),
        },
{
    assert(cells.take(n + 1).drop_last() =~= cells.take(n));
}

/// Where every cell holds a value, the stored values are the cells'
/// values, cell by cell.
pub proof fn lemma_stored_full<T>(cells: Seq<Option<T>>)
    requires
        forall|i: int| 0 <= i < cells.len() ==> cells[i] is Some,
    ensures
        stored(cells) == Seq::new(cells.len(), |i: int| cells[i]->0),
    decreases cells.len(),
{
    if cells.len() > 0 {
        let front = cells.drop_last();
        lemma_stored_full(front);
        assert(stored(cells) =~= Seq::new(cells.len(), |i: int| cells[i]->0));
    } else {
        assert(stored(cells) =~= Seq::new(cells.len(), |i: int| cells[i]->0));
    }
}

/// The scheduling state of a join over a fixed number of computations
/// with values of type `T`.
///
/// The join holds one cell per computation for the value it produced, the
/// lifecycle state of each cell and the count of values produced. The
/// computations themselves stay with the caller, and so does the readiness
/// bitmap, which the wake handles share: each call takes it for as long as
/// the call lasts.
pub struct Join<T> {
    outputs: Vec<Option<T>>,
    state: PollStates,
    completed: usize,
    handed_out: bool,
}

impl<T> View for Join<T> {
    type V = JoinView<T>;

    closed spec fn view(&self) -> JoinView<T> {
        JoinView {
            cells: self.outputs@,
            states: self.state@,
            completed: self.completed as nat,
            handed_out: self.handed_out,
        }
    }
}

impl<T> Join<T> {
    /// A join of `len` computations, none of which has produced its value.
    pub fn new(len: usize) -> (r: Self)
        ensures
            r@.wf(),
            r@.active(),
            r@.cells == empty_cells::<T>(len as nat),
            r@.states == all_in(len as nat, PollState::Pending),
            r@.completed == 0,
            !r@.finished(),
    {
        let mut outputs: Vec<Option<T>> = Vec::new();
        let mut i: usize = 0;
        while i < len
            invariant
                i <= len,
                outputs@ == empty_cells::<T>(i as nat),
            decreases len - i,
        {
            outputs.push(None);
            i = i + 1;
        }
        let state = PollStates::new(len);
        proof {
            lemma_count_bounds(produced(state@));
        }
        Join { outputs, state, completed: 0, handed_out: false }
    }

    /// The number of computations.
    pub fn len(&self) -> (n: usize)
        ensures
            n == self@.len(),
    {
        self.state.len()
    }

    /// How many computations have produced their value.
    pub fn completed(&self) -> (n: usize)
        ensures
            n == self@.completed,
    {
        self.completed
    }

    /// Whether the join has handed out its result. Once it has, it must
    /// not be polled again.
    pub fn is_finished(&self) -> (b: bool)
        ensures
            b == self@.finished(),
    {
        self.handed_out
    }

    /// Where the value of slot `index` stands.
    pub fn state(&self, index: usize) -> (s: PollState)
        requires
            index < self@.len(),
        ensures
            s == self@.states[index as int],
    {
        if self.state.is_pending(index) {
            PollState::Pending
        } else if self.state.is_ready(index) {
            PollState::Ready
        } else {
            PollState::Consumed
        }
    }

    /// Starts an outer poll: registers `waker` as the outer wake handle
    /// and looks for the first slot that is due.
    ///
    /// The join must not have handed out its result yet.
    pub fn poll(&mut self, readiness: &mut ReadinessVec, waker: Waker) -> (step: JoinStep<T>)
        requires
            old(self)@.wf(),
            !old(self)@.finished(),
            old(readiness).wf(),
            old(readiness)@.len() == old(self)@.len(),
        ensures
            final(self)@.wf(),
            final(readiness).wf(),
            final(readiness).parent() == Some(waker),
            ({
                let turn = old(self)@.poll(old(readiness)@);
                &&& final(self)@ == turn.join
                &&& final(readiness)@ == turn.flags
                &&& step@ == turn.step
            }),
            final(self)@.len() == old(self)@.len(),
            final(readiness)@.len() == old(readiness)@.len(),
            step matches JoinStep::Poll(i) ==> i < final(self)@.len() && final(self)@.states[i as int]
                == PollState::Pending,
            step is Ready <==> final(self)@.finished(),
    {
        readiness.set_waker(waker);
        if self.state.len() == 0 {
            self.handed_out = true;
            proof {
                lemma_count_bounds(produced(self.state@));
            }
            JoinStep::Ready(Vec::new())
        } else {
            self.scan_from(readiness, 0)
        }
    }

    /// Takes the answer `outcome` that the computation of slot `index`
    /// gave to its poll, and says how the outer poll goes on.
    ///
    /// The slot must not have produced a value before: a computation is
    /// polled no more once it has. Where the scan goes on, it asks for a
    /// slot behind `index`: an outer poll asks for each slot once at most.
    pub fn resume(&mut self, readiness: &mut ReadinessVec, index: usize, outcome: FuturePoll<T>) -> (step:
        JoinStep<T>)
        requires
            old(self)@.wf(),
            old(readiness).wf(),
            old(readiness)@.len() == old(self)@.len(),
            index < old(self)@.len(),
            old(self)@.states[index as int] == PollState::Pending,
        ensures
            final(self)@.wf(),
            final(readiness).wf(),
            final(readiness).parent() == old(readiness).parent(),
            ({
                let turn = old(self)@.resume(old(readiness)@, index as int, outcome);
                &&& final(self)@ == turn.join
                &&& final(readiness)@ == turn.flags
                &&& step@ == turn.step
            }),
            final(self)@.len() == old(self)@.len(),
            final(readiness)@.len() == old(readiness)@.len(),
            step matches JoinStep::Poll(i) ==> index < i < final(self)@.len(),
            step matches JoinStep::Poll(i) ==> final(self)@.states[i as int] == PollState::Pending,
            step is Ready <==> final(self)@.finished(),
    {
        let len: usize = self.state.len();
        proof {
            lemma_count_update(produced(self.state@), index as int, true);
            lemma_count_bounds(produced(self.state@));
            assert(!produced(self.state@)[index as int]);
            assert(self.completed < len);
        }
        match outcome {
            FuturePoll::Pending => self.scan_from(readiness, index + 1),
            FuturePoll::Ready(value) => {
                self.outputs.set(index, Some(value));
                self.completed = self.completed + 1;
                self.state.set_ready(index);
                let ghost filled = old(self)@.record(index as int, value);
                proof {
                    assert(produced(self.state@) =~= produced(old(self).state@).update(
                        index as int,
                        true,
                    ));
                    assert(self@ == filled);
                }
                if self.completed == self.state.len() {
                    self.handed_out = true;
                    let values = self.drain();
                    self.state.set_all_completed();
                    proof {
                        lemma_count_bounds(produced(filled.states));
                        assert forall|i: int| 0 <= i < filled.states.len() implies filled.states[i]
                            != PollState::Pending by {
                            assert(produced(filled.states)[i]);
                        }
                        assert(self@.states =~= filled.emptied().states);
                    }
                    JoinStep::Ready(values)
                } else {
                    self.scan_from(readiness, index + 1)
                }
            },
        }
    }

    /// Takes every stored value out of its cell and marks its slot
    /// `Consumed`. The values come in slot order; slots that have produced
    /// nothing are left alone.
    ///
    /// This is how a join that is given up before it is done lets go of
    /// exactly the values that it holds.
    pub fn drain(&mut self) -> (values: Vec<T>)
        requires
            old(self)@.wf(),
        ensures
            final(self)@.wf(),
            final(self)@ == old(self)@.emptied(),
            values@ == stored(old(self)@.cells),
    {
        let len: usize = self.state.len();
        let mut values: Vec<T> = Vec::new();
        let mut index: usize = 0;
        while index < len
            invariant
                index <= len,
                len == old(self)@.len(),
                self.completed == old(self).completed,
                self.handed_out == old(self).handed_out,
                self.outputs@.len() == len,
                self.state@.len() == len,
                old(self)@.wf(),
                values@ == stored(old(self)@.cells.take(index as int)),
                forall|i: int| 0 <= i < index ==> self.outputs@[i] is None,
                forall|i: int| index <= i < len ==> self.outputs@[i] == old(self)@.cells[i],
                forall|i: int| 0 <= i < index ==> self.state@[i] == old(self)@.emptied().states[i],
                forall|i: int| index <= i < len ==> self.state@[i] == old(self)@.states[i],
            decreases len - index,
        {
            proof {
                lemma_stored_step(old(self)@.cells, index as int);
                assert(old(self)@.cells[index as int] is Some <==> old(self)@.states[index as int]
                    == PollState::Ready);
            }
            if self.state.is_ready(index) {
                let cell: Option<T> = self.outputs[index].take();
                values.push(cell.unwrap());
                self.state.set_consumed(index);
            }
            index = index + 1;
        }
        proof {
            assert(old(self)@.cells.take(len as int) =~= old(self)@.cells);
            assert(self@.cells =~= old(self)@.emptied().cells);
            assert(self@.states =~= old(self)@.emptied().states);
            assert(produced(self@.states) =~= produced(old(self)@.states));
        }
        values
    }

    /// Scans the slots from `from` on for the first one that is due.
    fn scan_from(&self, readiness: &mut ReadinessVec, from: usize) -> (step: JoinStep<T>)
        requires
            old(readiness).wf(),
            old(readiness)@.len() == self@.len(),
            from <= self@.len(),
        ensures
            final(readiness).wf(),
            final(readiness).parent() == old(readiness).parent(),
            ({
                let turn = self@.scan(old(readiness)@, from as int);
                &&& final(readiness)@ == turn.flags
                &&& step@ == turn.step
            }),
            step matches JoinStep::Poll(i) ==> from <= i < self@.len() && self@.states[i as int]
                == PollState::Pending,
            !(step is Ready),
    {
        proof {
            lemma_first_due(readiness@, self.state@, from as int);
        }
        let len: usize = self.state.len();
        let mut index: usize = from;
        while index < len
            invariant
                from <= index <= len,
                len == self.state@.len(),
                readiness.wf(),
                readiness@.len() == len,
                readiness.parent() == old(readiness).parent(),
                readiness@ == swept(old(readiness)@, from as int, index - 1),
                first_due(old(readiness)@, self.state@, index as int) == first_due(
                    old(readiness)@,
                    self.state@,
                    from as int,
                ),
            decreases len - index,
        {
            if !readiness.any_ready() {
                proof {
                    assert forall|i: int| index <= i < len implies !old(readiness)@[i] by {
                        assert(!readiness@[i]);
                    }
                    lemma_first_due_none(old(readiness)@, self.state@, index as int);
                    assert(readiness@ =~= swept(old(readiness)@, from as int, len as int));
                }
                return JoinStep::Pending;
            }
            let was_ready: bool = readiness.clear_ready(index);
            proof {
                assert(was_ready == old(readiness)@[index as int]);
                assert(readiness@ =~= swept(old(readiness)@, from as int, index as int));
            }
            if was_ready && self.state.is_pending(index) {
                return JoinStep::Poll(index);
            }
            index = index + 1;
        }
        proof {
            assert(readiness@ =~= swept(old(readiness)@, from as int, len as int));
        }
        JoinStep::Pending
    }
}

} // verus!
