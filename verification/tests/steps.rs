use poll_combinators::fuse::StreamPoll;
use poll_combinators::join::FuturePoll;
use poll_combinators::join::Join;
use poll_combinators::join::JoinStep;
use poll_combinators::merge::Merge;
use poll_combinators::merge::MergeStep;
use poll_combinators::poll_state::PollState;
use poll_combinators::readiness::ReadinessVec;
use poll_combinators::waker_vec::WakerVec;
use std::sync::Arc;
use std::sync::Mutex;
use std::task::Wake;
use std::task::Waker;

/// An outer wake handle that counts how often it is invoked.
struct Counter {
    hits: Mutex<usize>,
}

impl Counter {
    fn hits(&self) -> usize {
        *self.hits.lock().unwrap()
    }
}

impl Wake for Counter {
    fn wake(self: Arc<Self>) {
        *self.hits.lock().unwrap() += 1;
    }
}

fn counting_waker() -> (Arc<Counter>, Waker) {
    let counter = Arc::new(Counter { hits: Mutex::new(0) });
    let waker = Waker::from(counter.clone());
    (counter, waker)
}

fn quiet_waker() -> Waker {
    counting_waker().1
}

/// The flags of `readiness`, read without changing them.
fn flags(readiness: &mut ReadinessVec) -> Vec<bool> {
    let mut seen: Vec<bool> = Vec::new();
    let mut slot: usize = 0;
    while slot < readiness.len() {
        let was_set = readiness.clear_ready(slot);
        if was_set {
            readiness.set_ready(slot);
        }
        seen.push(was_set);
        slot += 1;
    }
    seen
}

#[test]
fn join_of_nothing_is_ready_at_once() {
    let mut join: Join<i32> = Join::new(0);
    let mut readiness = ReadinessVec::new(0);
    assert_eq!(join.len(), 0);
    assert!(!join.is_finished());
    assert_eq!(join.poll(&mut readiness, quiet_waker()), JoinStep::Ready(vec![]));
    // The empty result is handed out once: the join is finished now.
    assert!(join.is_finished());
    assert_eq!(join.completed(), 0);
}

#[test]
fn join_tries_every_slot_on_its_first_poll() {
    let mut join: Join<i32> = Join::new(3);
    let mut readiness = ReadinessVec::new(3);
    assert_eq!(join.poll(&mut readiness, quiet_waker()), JoinStep::Poll(0));
    assert_eq!(flags(&mut readiness), vec![false, true, true]);
    assert_eq!(join.resume(&mut readiness, 0, FuturePoll::Pending), JoinStep::Poll(1));
    assert_eq!(join.resume(&mut readiness, 1, FuturePoll::Pending), JoinStep::Poll(2));
    assert_eq!(join.resume(&mut readiness, 2, FuturePoll::Pending), JoinStep::Pending);
    assert_eq!(flags(&mut readiness), vec![false, false, false]);
    assert_eq!(join.completed(), 0);
}

#[test]
fn join_polls_only_slots_that_were_woken() {
    let mut join: Join<i32> = Join::new(3);
    let mut wakers = WakerVec::new(3);
    assert_eq!(join.poll(wakers.readiness_mut(), quiet_waker()), JoinStep::Poll(0));
    assert_eq!(join.resume(wakers.readiness_mut(), 0, FuturePoll::Pending), JoinStep::Poll(1));
    assert_eq!(join.resume(wakers.readiness_mut(), 1, FuturePoll::Pending), JoinStep::Poll(2));
    assert_eq!(join.resume(wakers.readiness_mut(), 2, FuturePoll::Pending), JoinStep::Pending);
    // Nothing was woken: the next poll has nothing to do.
    assert_eq!(join.poll(wakers.readiness_mut(), quiet_waker()), JoinStep::Pending);
    // Slot 1 wakes: it alone is polled.
    assert!(wakers.wake(1).is_some());
    assert_eq!(join.poll(wakers.readiness_mut(), quiet_waker()), JoinStep::Poll(1));
    assert_eq!(join.resume(wakers.readiness_mut(), 1, FuturePoll::Ready(11)), JoinStep::Pending);
    assert_eq!(join.state(1), PollState::Ready);
    assert_eq!(join.completed(), 1);
}

#[test]
fn join_orders_values_by_slot_not_by_arrival() {
    let mut join: Join<&str> = Join::new(3);
    let mut wakers = WakerVec::new(3);
    assert_eq!(join.poll(wakers.readiness_mut(), quiet_waker()), JoinStep::Poll(0));
    assert_eq!(join.resume(wakers.readiness_mut(), 0, FuturePoll::Pending), JoinStep::Poll(1));
    assert_eq!(join.resume(wakers.readiness_mut(), 1, FuturePoll::Pending), JoinStep::Poll(2));
    assert_eq!(join.resume(wakers.readiness_mut(), 2, FuturePoll::Ready("c")), JoinStep::Pending);
    wakers.wake(1);
    wakers.wake(0);
    assert_eq!(join.poll(wakers.readiness_mut(), quiet_waker()), JoinStep::Poll(0));
    assert_eq!(join.resume(wakers.readiness_mut(), 0, FuturePoll::Pending), JoinStep::Poll(1));
    assert_eq!(join.resume(wakers.readiness_mut(), 1, FuturePoll::Ready("b")), JoinStep::Pending);
    wakers.wake(0);
    assert_eq!(join.poll(wakers.readiness_mut(), quiet_waker()), JoinStep::Poll(0));
    assert_eq!(
        join.resume(wakers.readiness_mut(), 0, FuturePoll::Ready("a")),
        JoinStep::Ready(vec!["a", "b", "c"])
    );
    assert!(join.is_finished());
    assert_eq!(join.completed(), 3);
    assert_eq!(join.state(0), PollState::Consumed);
    assert_eq!(join.state(1), PollState::Consumed);
    assert_eq!(join.state(2), PollState::Consumed);
}

#[test]
fn join_does_not_poll_a_slot_that_has_its_value() {
    let mut join: Join<i32> = Join::new(2);
    let mut wakers = WakerVec::new(2);
    assert_eq!(join.poll(wakers.readiness_mut(), quiet_waker()), JoinStep::Poll(0));
    assert_eq!(join.resume(wakers.readiness_mut(), 0, FuturePoll::Ready(1)), JoinStep::Poll(1));
    assert_eq!(join.resume(wakers.readiness_mut(), 1, FuturePoll::Pending), JoinStep::Pending);
    // A stray wake of the finished slot is swallowed by the scan.
    wakers.wake(0);
    assert_eq!(join.poll(wakers.readiness_mut(), quiet_waker()), JoinStep::Pending);
    assert_eq!(flags(wakers.readiness_mut()), vec![false, false]);
    wakers.wake(0);
    wakers.wake(1);
    assert_eq!(join.poll(wakers.readiness_mut(), quiet_waker()), JoinStep::Poll(1));
    assert_eq!(flags(wakers.readiness_mut()), vec![false, false]);
    assert_eq!(join.resume(wakers.readiness_mut(), 1, FuturePoll::Ready(2)), JoinStep::Ready(vec![1, 2]));
}

#[test]
fn join_scan_leaves_flags_behind_the_polled_slot() {
    let mut join: Join<i32> = Join::new(4);
    let mut readiness = ReadinessVec::new(4);
    assert!(readiness.clear_ready(0));
    assert!(readiness.clear_ready(1));
    assert_eq!(join.poll(&mut readiness, quiet_waker()), JoinStep::Poll(2));
    assert_eq!(flags(&mut readiness), vec![false, false, false, true]);
    // A wake in front of the scan is kept for the next outer poll.
    readiness.set_ready(0);
    assert_eq!(join.resume(&mut readiness, 2, FuturePoll::Pending), JoinStep::Poll(3));
    assert_eq!(join.resume(&mut readiness, 3, FuturePoll::Pending), JoinStep::Pending);
    assert_eq!(flags(&mut readiness), vec![true, false, false, false]);
    assert_eq!(join.poll(&mut readiness, quiet_waker()), JoinStep::Poll(0));
}

#[test]
fn join_registers_the_outer_handle() {
    let (counter, waker) = counting_waker();
    let mut join: Join<i32> = Join::new(1);
    let mut wakers = WakerVec::new(1);
    assert!(wakers.wake(0).is_none());
    assert_eq!(join.poll(wakers.readiness_mut(), waker.clone()), JoinStep::Poll(0));
    assert_eq!(join.resume(wakers.readiness_mut(), 0, FuturePoll::Pending), JoinStep::Pending);
    let outer = wakers.wake(0).cloned().unwrap();
    assert!(outer.will_wake(&waker));
    outer.wake();
    assert_eq!(counter.hits(), 1);
    assert_eq!(join.poll(wakers.readiness_mut(), waker), JoinStep::Poll(0));
    assert_eq!(join.resume(wakers.readiness_mut(), 0, FuturePoll::Ready(3)), JoinStep::Ready(vec![3]));
}

#[test]
fn drain_gives_exactly_the_stored_values() {
    let mut join: Join<String> = Join::new(4);
    let mut readiness = ReadinessVec::new(4);
    assert_eq!(join.poll(&mut readiness, quiet_waker()), JoinStep::Poll(0));
    assert_eq!(join.resume(&mut readiness, 0, FuturePoll::Pending), JoinStep::Poll(1));
    assert_eq!(join.resume(&mut readiness, 1, FuturePoll::Ready("one".to_owned())), JoinStep::Poll(2));
    assert_eq!(join.resume(&mut readiness, 2, FuturePoll::Pending), JoinStep::Poll(3));
    assert_eq!(join.resume(&mut readiness, 3, FuturePoll::Ready("three".to_owned())), JoinStep::Pending);
    assert_eq!(join.drain(), vec!["one".to_owned(), "three".to_owned()]);
    assert_eq!(join.state(0), PollState::Pending);
    assert_eq!(join.state(1), PollState::Consumed);
    assert_eq!(join.state(2), PollState::Pending);
    assert_eq!(join.state(3), PollState::Consumed);
    assert_eq!(join.completed(), 2);
    // Nothing is left to let go of.
    assert_eq!(join.drain(), Vec::<String>::new());
}

#[test]
fn drain_of_a_fresh_join_gives_nothing() {
    let mut join: Join<i32> = Join::new(3);
    assert_eq!(join.drain(), Vec::<i32>::new());
    assert_eq!(join.state(0), PollState::Pending);
    assert_eq!(join.completed(), 0);
}

#[test]
fn merge_of_nothing_is_always_pending() {
    let mut merge: Merge<i32> = Merge::new(0, 5);
    let mut readiness = ReadinessVec::new(0);
    assert_eq!(merge.len(), 0);
    assert!(!merge.is_terminated());
    assert_eq!(merge.poll_next(&mut readiness, quiet_waker()), MergeStep::Pending);
    assert_eq!(merge.poll_next(&mut readiness, quiet_waker()), MergeStep::Pending);
}

#[test]
fn merge_starts_behind_the_generated_index() {
    // Seeded with 1, the generator's words are 270369, 67634689 and
    // 2647435461; scaled to four slots they give 0, 0 and 2.
    let mut merge: Merge<i32> = Merge::new(4, 1);
    let mut readiness = ReadinessVec::new(4);
    assert_eq!(merge.poll_next(&mut readiness, quiet_waker()), MergeStep::Poll(1));
    assert_eq!(flags(&mut readiness), vec![true, false, true, true]);
    assert_eq!(merge.resume(&mut readiness, 1, StreamPoll::Item(10)), MergeStep::Item(10));
    assert_eq!(flags(&mut readiness), vec![true, true, true, true]);
    assert_eq!(merge.poll_next(&mut readiness, quiet_waker()), MergeStep::Poll(1));
    assert_eq!(merge.resume(&mut readiness, 1, StreamPoll::Item(11)), MergeStep::Item(11));
    assert_eq!(merge.poll_next(&mut readiness, quiet_waker()), MergeStep::Poll(3));
    assert_eq!(merge.resume(&mut readiness, 3, StreamPoll::Item(30)), MergeStep::Item(30));
    assert_eq!(flags(&mut readiness), vec![true, true, true, true]);
}

#[test]
fn merge_serves_a_slot_twice_when_two_scans_start_alike() {
    // Two sequences that always have an item. Seeded with 1, the first two
    // scans both start at index 0, so slot 1 is served twice in a row and
    // slot 0 waits for the third poll.
    let mut merge: Merge<usize> = Merge::new(2, 1);
    let mut readiness = ReadinessVec::new(2);
    let mut served: Vec<usize> = Vec::new();
    let mut round: usize = 0;
    while round < 5 {
        match merge.poll_next(&mut readiness, quiet_waker()) {
            MergeStep::Poll(slot) => {
                assert_eq!(merge.resume(&mut readiness, slot, StreamPoll::Item(slot)), MergeStep::Item(slot));
                served.push(slot);
            }
            other => panic!("every slot is ready, but the merge said {:?}", other),
        }
        round += 1;
    }
    assert_eq!(served, vec![1, 1, 0, 1, 0]);
}

#[test]
fn merge_serves_every_slot_in_a_round_of_different_starts() {
    // Seeded with 0x9E3779B9, the first three scans over three slots start
    // at 0, 2 and 1: each slot is served once.
    let mut merge: Merge<usize> = Merge::new(3, 0x9E37_79B9);
    let mut readiness = ReadinessVec::new(3);
    let mut served: Vec<usize> = Vec::new();
    let mut round: usize = 0;
    while round < 3 {
        match merge.poll_next(&mut readiness, quiet_waker()) {
            MergeStep::Poll(slot) => {
                assert_eq!(merge.resume(&mut readiness, slot, StreamPoll::Item(slot)), MergeStep::Item(slot));
                served.push(slot);
            }
            other => panic!("every slot is ready, but the merge said {:?}", other),
        }
        round += 1;
    }
    assert_eq!(served, vec![1, 0, 2]);
}

#[test]
fn merge_goes_round_after_not_yet() {
    let mut merge: Merge<i32> = Merge::new(3, 1);
    let mut readiness = ReadinessVec::new(3);
    assert_eq!(merge.poll_next(&mut readiness, quiet_waker()), MergeStep::Poll(1));
    assert_eq!(merge.resume(&mut readiness, 1, StreamPoll::Pending), MergeStep::Poll(2));
    assert_eq!(merge.resume(&mut readiness, 2, StreamPoll::Pending), MergeStep::Poll(0));
    assert_eq!(merge.resume(&mut readiness, 0, StreamPoll::Pending), MergeStep::Pending);
    assert_eq!(flags(&mut readiness), vec![false, false, false]);
    assert_eq!(merge.poll_next(&mut readiness, quiet_waker()), MergeStep::Pending);
}

#[test]
fn merge_asks_for_a_slot_once_in_an_outer_poll() {
    // One sequence that fires its own handle before it answers "not yet".
    let mut merge: Merge<i32> = Merge::new(1, 9);
    let mut wakers = WakerVec::new(1);
    assert_eq!(merge.poll_next(wakers.readiness_mut(), quiet_waker()), MergeStep::Poll(0));
    assert!(wakers.wake(0).is_some());
    assert_eq!(merge.resume(wakers.readiness_mut(), 0, StreamPoll::Pending), MergeStep::Pending);
    // The flag stays set for the next outer poll.
    assert_eq!(flags(wakers.readiness_mut()), vec![true]);
    assert_eq!(merge.poll_next(wakers.readiness_mut(), quiet_waker()), MergeStep::Poll(0));
    assert!(wakers.wake(0).is_some());
    assert_eq!(merge.resume(wakers.readiness_mut(), 0, StreamPoll::Item(3)), MergeStep::Item(3));
}

#[test]
fn merge_outer_poll_asks_for_no_more_slots_than_there_are() {
    // Three sequences, each of which fires its own handle whenever it is
    // polled and answers "not yet".
    let mut merge: Merge<i32> = Merge::new(3, 0x9E37_79B9);
    let mut wakers = WakerVec::new(3);
    let mut round: usize = 0;
    while round < 4 {
        let mut asked: Vec<usize> = Vec::new();
        let mut step = merge.poll_next(wakers.readiness_mut(), quiet_waker());
        while let MergeStep::Poll(slot) = step {
            asked.push(slot);
            assert!(asked.len() <= 3);
            wakers.wake(slot);
            step = merge.resume(wakers.readiness_mut(), slot, StreamPoll::Pending);
        }
        assert_eq!(step, MergeStep::Pending);
        asked.sort();
        assert_eq!(asked, vec![0, 1, 2]);
        assert_eq!(flags(wakers.readiness_mut()), vec![true, true, true]);
        round += 1;
    }
}

#[test]
fn merge_keeps_a_flag_set_behind_the_scan() {
    // Seeded with 1, the scan over three slots starts behind index 0.
    let mut merge: Merge<i32> = Merge::new(3, 1);
    let mut wakers = WakerVec::new(3);
    assert_eq!(merge.poll_next(wakers.readiness_mut(), quiet_waker()), MergeStep::Poll(1));
    assert_eq!(merge.resume(wakers.readiness_mut(), 1, StreamPoll::Pending), MergeStep::Poll(2));
    // Slot 1, which the round has passed, wakes while slot 2 is polled.
    wakers.wake(1);
    assert_eq!(merge.resume(wakers.readiness_mut(), 2, StreamPoll::Pending), MergeStep::Poll(0));
    assert_eq!(merge.resume(wakers.readiness_mut(), 0, StreamPoll::Pending), MergeStep::Pending);
    assert_eq!(flags(wakers.readiness_mut()), vec![false, true, false]);
    assert_eq!(merge.poll_next(wakers.readiness_mut(), quiet_waker()), MergeStep::Poll(1));
}

#[test]
fn merge_polls_only_slots_that_were_woken() {
    let mut merge: Merge<i32> = Merge::new(3, 1);
    let mut wakers = WakerVec::new(3);
    assert_eq!(merge.poll_next(wakers.readiness_mut(), quiet_waker()), MergeStep::Poll(1));
    assert_eq!(merge.resume(wakers.readiness_mut(), 1, StreamPoll::Pending), MergeStep::Poll(2));
    assert_eq!(merge.resume(wakers.readiness_mut(), 2, StreamPoll::Pending), MergeStep::Poll(0));
    assert_eq!(merge.resume(wakers.readiness_mut(), 0, StreamPoll::Pending), MergeStep::Pending);
    assert!(wakers.wake(0).is_some());
    assert_eq!(merge.poll_next(wakers.readiness_mut(), quiet_waker()), MergeStep::Poll(0));
    assert_eq!(merge.resume(wakers.readiness_mut(), 0, StreamPoll::Item(7)), MergeStep::Item(7));
    // The slot that gave an item is due again at once.
    assert_eq!(flags(wakers.readiness_mut()), vec![true, false, false]);
}

#[test]
fn merge_ends_when_the_last_sequence_ends() {
    let mut merge: Merge<i32> = Merge::new(2, 1);
    let mut readiness = ReadinessVec::new(2);
    assert_eq!(merge.poll_next(&mut readiness, quiet_waker()), MergeStep::Poll(1));
    assert_eq!(merge.resume(&mut readiness, 1, StreamPoll::Done), MergeStep::Poll(0));
    assert!(merge.is_exhausted(1));
    assert!(!merge.is_exhausted(0));
    assert!(!merge.is_terminated());
    assert_eq!(merge.resume(&mut readiness, 0, StreamPoll::Item(4)), MergeStep::Item(4));
    assert_eq!(merge.poll_next(&mut readiness, quiet_waker()), MergeStep::Poll(0));
    assert_eq!(merge.resume(&mut readiness, 0, StreamPoll::Done), MergeStep::Done);
    assert!(merge.is_exhausted(0));
    assert!(merge.is_terminated());
}

#[test]
fn merge_passes_over_an_ended_slot_that_is_woken() {
    let mut merge: Merge<i32> = Merge::new(2, 1);
    let mut wakers = WakerVec::new(2);
    assert_eq!(merge.poll_next(wakers.readiness_mut(), quiet_waker()), MergeStep::Poll(1));
    assert_eq!(merge.resume(wakers.readiness_mut(), 1, StreamPoll::Done), MergeStep::Poll(0));
    assert_eq!(merge.resume(wakers.readiness_mut(), 0, StreamPoll::Item(4)), MergeStep::Item(4));
    // The handle of the ended slot fires once more. The scan clears its
    // flag, passes over it and asks for the live slot.
    wakers.wake(1);
    assert_eq!(merge.poll_next(wakers.readiness_mut(), quiet_waker()), MergeStep::Poll(0));
    assert_eq!(flags(wakers.readiness_mut()), vec![false, false]);
    assert!(!merge.is_terminated());
    assert!(merge.is_exhausted(1));
    assert!(!merge.is_exhausted(0));
    assert_eq!(merge.resume(wakers.readiness_mut(), 0, StreamPoll::Item(5)), MergeStep::Item(5));
    assert_eq!(merge.poll_next(wakers.readiness_mut(), quiet_waker()), MergeStep::Poll(0));
    assert_eq!(merge.resume(wakers.readiness_mut(), 0, StreamPoll::Done), MergeStep::Done);
    assert!(merge.is_terminated());
}

#[test]
fn merge_does_not_end_while_a_sequence_is_live() {
    let mut merge: Merge<i32> = Merge::new(2, 1);
    let mut wakers = WakerVec::new(2);
    // Slot 1 says "not yet", slot 0 ends: nothing is due.
    assert_eq!(merge.poll_next(wakers.readiness_mut(), quiet_waker()), MergeStep::Poll(1));
    assert_eq!(merge.resume(wakers.readiness_mut(), 1, StreamPoll::Pending), MergeStep::Poll(0));
    assert_eq!(merge.resume(wakers.readiness_mut(), 0, StreamPoll::Done), MergeStep::Pending);
    // The handle of the ended slot fires again, any number of times.
    wakers.wake(0);
    wakers.wake(0);
    assert_eq!(merge.poll_next(wakers.readiness_mut(), quiet_waker()), MergeStep::Pending);
    assert_eq!(flags(wakers.readiness_mut()), vec![false, false]);
    assert!(!merge.is_terminated());
    assert!(!merge.is_exhausted(1));
    // The live slot wakes, gives its item and ends: only now the merge ends.
    wakers.wake(0);
    wakers.wake(1);
    assert_eq!(merge.poll_next(wakers.readiness_mut(), quiet_waker()), MergeStep::Poll(1));
    assert_eq!(merge.resume(wakers.readiness_mut(), 1, StreamPoll::Item(8)), MergeStep::Item(8));
    assert_eq!(merge.poll_next(wakers.readiness_mut(), quiet_waker()), MergeStep::Poll(1));
    assert_eq!(merge.resume(wakers.readiness_mut(), 1, StreamPoll::Done), MergeStep::Done);
    assert!(merge.is_terminated());
}

#[test]
fn merge_that_has_ended_finds_nothing_due() {
    let mut merge: Merge<i32> = Merge::new(1, 9);
    let mut wakers = WakerVec::new(1);
    assert_eq!(merge.poll_next(wakers.readiness_mut(), quiet_waker()), MergeStep::Poll(0));
    assert_eq!(merge.resume(wakers.readiness_mut(), 0, StreamPoll::Done), MergeStep::Done);
    assert!(merge.is_terminated());
    assert_eq!(merge.poll_next(wakers.readiness_mut(), quiet_waker()), MergeStep::Pending);
    wakers.wake(0);
    assert_eq!(merge.poll_next(wakers.readiness_mut(), quiet_waker()), MergeStep::Pending);
    assert_eq!(flags(wakers.readiness_mut()), vec![false]);
    assert!(merge.is_terminated());
}

#[test]
fn merge_answers_done_for_a_slot_that_has_ended() {
    let mut merge: Merge<i32> = Merge::new(3, 1);
    let mut readiness = ReadinessVec::new(3);
    assert_eq!(merge.poll_next(&mut readiness, quiet_waker()), MergeStep::Poll(1));
    assert_eq!(merge.resume(&mut readiness, 1, StreamPoll::Done), MergeStep::Poll(2));
    assert_eq!(merge.resume(&mut readiness, 2, StreamPoll::Pending), MergeStep::Poll(0));
    // An item that arrives under the name of the ended slot is not handed
    // out: the fuse of that slot has blown.
    assert_eq!(merge.resume(&mut readiness, 1, StreamPoll::Item(9)), MergeStep::Pending);
    assert!(merge.is_exhausted(1));
    assert!(!merge.is_terminated());
    // The end of slot 1 was counted once: both other slots have to end
    // before the merge does.
    assert_eq!(merge.resume(&mut readiness, 1, StreamPoll::Done), MergeStep::Pending);
    assert_eq!(merge.resume(&mut readiness, 0, StreamPoll::Done), MergeStep::Pending);
    assert!(!merge.is_terminated());
    assert_eq!(merge.resume(&mut readiness, 2, StreamPoll::Done), MergeStep::Done);
    assert!(merge.is_terminated());
}

#[test]
fn merge_registers_the_outer_handle() {
    let (counter, waker) = counting_waker();
    let mut merge: Merge<i32> = Merge::new(1, 3);
    let mut wakers = WakerVec::new(1);
    assert_eq!(merge.poll_next(wakers.readiness_mut(), waker.clone()), MergeStep::Poll(0));
    assert_eq!(merge.resume(wakers.readiness_mut(), 0, StreamPoll::Pending), MergeStep::Pending);
    let outer = wakers.wake(0).cloned().unwrap();
    assert!(outer.will_wake(&waker));
    outer.wake();
    assert_eq!(counter.hits(), 1);
    assert_eq!(merge.poll_next(wakers.readiness_mut(), waker), MergeStep::Poll(0));
    assert_eq!(merge.resume(wakers.readiness_mut(), 0, StreamPoll::Done), MergeStep::Done);
}

#[test]
fn merge_hands_out_every_item_once() {
    // Three scripted sequences; each gives its items, then ends.
    let scripts: Vec<Vec<i32>> = vec![vec![1, 2, 3], vec![], vec![10, 20]];
    let mut next: Vec<usize> = vec![0, 0, 0];
    let mut merge: Merge<i32> = Merge::new(3, 0xC0FF_EE11);
    let mut readiness = ReadinessVec::new(3);
    let mut received: Vec<i32> = Vec::new();
    let mut given: Vec<i32> = Vec::new();
    let mut over = false;
    while !over {
        let mut step = merge.poll_next(&mut readiness, quiet_waker());
        loop {
            match step {
                MergeStep::Poll(slot) => {
                    let outcome = if next[slot] < scripts[slot].len() {
                        let item = scripts[slot][next[slot]];
                        next[slot] += 1;
                        given.push(item);
                        StreamPoll::Item(item)
                    } else {
                        StreamPoll::Done
                    };
                    step = merge.resume(&mut readiness, slot, outcome);
                }
                MergeStep::Item(item) => {
                    received.push(item);
                    break;
                }
                MergeStep::Done => {
                    over = true;
                    break;
                }
                MergeStep::Pending => panic!("a live sequence was left unpolled"),
            }
        }
    }
    assert_eq!(received, given);
    assert_eq!(received.len(), 5);
    assert_eq!(received.iter().sum::<i32>(), 36);
    // Within one slot the items keep their order.
    let of_first: Vec<i32> = received.iter().copied().filter(|item| *item < 10).collect();
    assert_eq!(of_first, vec![1, 2, 3]);
    let of_third: Vec<i32> = received.iter().copied().filter(|item| *item >= 10).collect();
    assert_eq!(of_third, vec![10, 20]);
    assert!(merge.is_terminated());
    assert!(merge.is_exhausted(0) && merge.is_exhausted(1) && merge.is_exhausted(2));
}
