//! Scheduling core for poll-driven `join` and `merge` combinators.
//!
//! A combinator owns a fixed number of slots, one per child computation. The
//! types here decide which slot is polled next, record what each poll
//! produced and route wake-ups back to the slot they belong to. Polling a
//! child is left to the caller: a step function names the slot to poll, and
//! the caller hands the child's answer back to the matching `resume`.
//!
//! One outer poll of a join runs like this; a merge runs the same way with
//! `poll_next`:
//!
//! 1. take the readiness bitmap and call `poll` with the outer wake handle;
//! 2. while the step is `Poll(slot)`: give the bitmap back, poll the child
//!    of that slot with the slot's own wake handle, take the bitmap again
//!    and call `resume` with the child's answer;
//! 3. return what the last step says.
//!
//! All the steps of one outer poll together make one round over the slots:
//! each slot is looked at once at most, so an outer poll asks for no more
//! children than there are. The bitmap is shared with the wake handles of
//! the slots, which may fire at any moment between two calls. Every
//! contract here therefore holds for whatever flags a call finds, and a
//! flag that is set behind the round stays set for the next outer poll.
//!
//! - [`readiness`], [`waker`], [`waker_vec`]: the bitmap and the wake
//!   handles that mark it;
//! - [`poll_state`], [`fuse`], [`rng`]: the lifecycle of a value, the end
//!   of a sequence, and the start index of a fair scan;
//! - [`join`], [`merge`]: the two combinators;
//! - [`join_trace`], [`merge_trace`], [`round_robin`], [`wake_trace`]:
//!   what the combinators do over whole runs.

pub mod fuse;
pub mod join;
pub mod join_trace;
pub mod merge;
pub mod merge_trace;
pub mod poll_state;
pub mod readiness;
pub mod rng;
pub mod round_robin;
pub mod wake_trace;
pub mod waker;
pub mod waker_vec;
