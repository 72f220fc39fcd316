//! Lifecycle of the value a slot produces.

use vstd::prelude::*;

verus! {

/// Where the value of one slot stands.
///
/// A slot starts `Pending`. It becomes `Ready` when its computation has
/// produced a value that is stored and not yet handed out, and `Consumed`
/// when that value has been handed out or destroyed.
#[derive(Clone, Copy, Debug, PartialEq, Eq, Structural)]
pub enum PollState {
    /// No value has been produced yet.
    Pending,
    /// A value is stored and waits to be handed out.
    Ready,
    /// The value has left its cell.
    Consumed,
}

impl PollState {
    /// Whether no value has been produced yet.
    pub fn is_pending(&self) -> (b: bool)
        ensures
            b <==> *self == PollState::Pending,
    {
        match self {
            PollState::Pending => true,
            _ => false,
        }
    }

    /// Whether a value is stored and not yet handed out.
    pub fn is_ready(&self) -> (b: bool)
        ensures
            b <==> *self == PollState::Ready,
    {
        match self {
            PollState::Ready => true,
            _ => false,
        }
    }

    /// Whether the value has left its cell.
    pub fn is_consumed(&self) -> (b: bool)
        ensures
            b <==> *self == PollState::Consumed,
    {
        match self {
            PollState::Consumed => true,
            _ => false,
        }
    }

    /// Records that a value has been stored.
    pub fn set_ready(&mut self)
        ensures
            *final(self) == PollState::Ready,
    {
        *self = PollState::Ready;
    }

    /// Records that the value has left its cell.
    pub fn set_consumed(&mut self)
        ensures
            *final(self) == PollState::Consumed,
    {
        *self = PollState::Consumed;
    }
}

/// `n` slots, each in state `state`.
pub open spec fn all_in(n: nat, state: PollState) -> Seq<PollState> {
    Seq::new(n, |i: int| state)
}

/// The lifecycle states of a fixed number of slots.
pub struct PollStates {
    states: Vec<PollState>,
}

impl View for PollStates {
    type V = Seq<PollState>;

    /// The states, by slot.
    closed spec fn view(&self) -> Seq<PollState> {
        self.states@
    }
}

impl PollStates {
    /// `len` slots, all `Pending`.
    pub fn new(len: usize) -> (r: Self)
        ensures
            r@ == all_in(len as nat, PollState::Pending),
    {
        let mut states: Vec<PollState> = Vec::new();
        let mut i: usize = 0;
        while i < len
            invariant
                i <= len,
                states@ == all_in(i as nat, PollState::Pending),
            decreases len - i,
        {
            states.push(PollState::Pending);
            i = i + 1;
        }
        PollStates { states }
    }

    /// The number of slots.
    pub fn len(&self) -> (n: usize)
        ensures
            n == self@.len(),
    {
        self.states.len()
    }

    /// Whether slot `index` has not produced a value yet.
    pub fn is_pending(&self, index: usize) -> (b: bool)
        requires
            index < self@.len(),
        ensures
            b <==> self@[index as int] == PollState::Pending,
    {
        self.states[index].is_pending()
    }

    /// Whether slot `index` holds a value that has not been handed out.
    pub fn is_ready(&self, index: usize) -> (b: bool)
        requires
            index < self@.len(),
        ensures
            b <==> self@[index as int] == PollState::Ready,
    {
        self.states[index].is_ready()
    }

    /// Whether the value of slot `index` has left its cell.
    pub fn is_consumed(&self, index: usize) -> (b: bool)
        requires
            index < self@.len(),
        ensures
            b <==> self@[index as int] == PollState::Consumed,
    {
        self.states[index].is_consumed()
    }

    /// Marks slot `index` as holding a value.
    pub fn set_ready(&mut self, index: usize)
        requires
            index < old(self)@.len(),
        ensures
            final(self)@ == old(self)@.update(index as int, PollState::Ready),
    {
        self.states.set(index, PollState::Ready);
    }

    /// Marks the value of slot `index` as gone from its cell.
    pub fn set_consumed(&mut self, index: usize)
        requires
            index < old(self)@.len(),
        ensures
            final(self)@ == old(self)@.update(index as int, PollState::Consumed),
    {
        self.states.set(index, PollState::Consumed);
    }

    /// Marks every slot `Consumed`: all values have been handed out.
    pub fn set_all_completed(&mut self)
        ensures
            final(self)@ == all_in(old(self)@.len(), PollState::Consumed),
    {
        let n: usize = self.states.len();
        let mut i: usize = 0;
        while i < n
            invariant
                i <= n,
                self.states@.len() == n,
                forall|j: int| 0 <= j < i ==> self.states@[j] == PollState::Consumed,
            decreases n - i,
        {
            self.states.set(i, PollState::Consumed);
            i = i + 1;
        }
        assert(self.states@ =~= all_in(n as nat, PollState::Consumed));
    }
}

} // verus!
