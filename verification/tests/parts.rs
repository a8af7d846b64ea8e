use std::sync::atomic::{AtomicUsize, Ordering};
use std::sync::Arc;

use fanring::config::{round_capacity, validate_capacity};
use fanring::error::{
    ChannelError, RecvError, RecvTimeoutError, SendError, SendTimeoutError, TryRecvError,
    TryRegisterError, TrySendError,
};
use fanring::mpmc::work::WorkQueue;
use fanring::publication::PublicationTracker;
use fanring::ready::{LaneSignal, ReadyGroup, ReadyIndex, ReadyPage};
use fanring::ring::Ring;
use fanring::wait::{MultiWaitCell, Notice, WaitCell};

#[test]
fn group_claim_rotates_from_cursor() {
    let mut group = ReadyGroup::new(0);
    group.mark((1 << 2) | (1 << 63));

    assert_eq!(group.take_one_from(3), Some(63));
    assert_eq!(group.take_one_from(3), Some(2));
    assert_eq!(group.take_one_from(0), None);
}

#[test]
fn page_republishes_only_after_becoming_empty() {
    let mut group = ReadyGroup::new(0);
    let mut page = ReadyPage::new(0);

    page.mark(1, &mut group);
    assert_eq!(group.take_all(), 1);
    page.mark(2, &mut group);
    assert_eq!(group.take_all(), 0);
    assert_eq!(page.take(), 3);

    page.mark(4, &mut group);
    assert_eq!(group.take_all(), 1);
    assert_eq!(page.take(), 4);
}

#[test]
fn page_mark_racing_group_claim_remains_visible() {
    for mark_first in [false, true] {
        let mut group = ReadyGroup::new(0);
        let mut page = ReadyPage::new(0);
        let mut lanes = 0;
        if mark_first {
            page.mark(1, &mut group);
        }
        if group.take_all() != 0 {
            lanes |= page.take();
        }
        if !mark_first {
            page.mark(1, &mut group);
        }
        if group.take_all() != 0 {
            lanes |= page.take();
        }
        assert_eq!(lanes & 1, 1);
    }
}

#[test]
fn lane_signal_stays_within_256_bytes() {
    assert!(std::mem::size_of::<LaneSignal>() <= 256);
}

#[test]
fn lane_is_queued_once_until_drained() {
    let mut index = ReadyIndex::new();
    index.grow(1);
    let mut signal = LaneSignal::new(65);
    assert!(!signal.is_pending());
    assert!(signal.mark(&mut index));
    assert!(!signal.mark(&mut index));
    assert!(signal.is_pending());
    assert!(index.has_ready());
    assert_eq!(index.claim_page(0, 0), Some((1, 2)));
    assert!(!index.has_ready());
    signal.finish_drain();
    assert!(signal.claim_after_empty());
    assert!(!signal.claim_after_empty());
}

#[derive(Debug)]
struct Counted(Arc<AtomicUsize>);

impl Drop for Counted {
    fn drop(&mut self) {
        self.0.fetch_add(1, Ordering::Relaxed);
    }
}

#[test]
fn close_keeps_full_slot_reserved_until_active_send_finishes() {
    let drops = Arc::new(AtomicUsize::new(0));
    let mut ring = Ring::new(1, true);
    ring.push_and_flush(Counted(drops.clone())).unwrap();
    assert!(ring.begin());
    ring.close_consumer();
    assert_eq!(drops.load(Ordering::Relaxed), 1);
    let value = ring.push(Counted(drops.clone())).unwrap_err();
    ring.finish();
    assert_eq!(drops.load(Ordering::Relaxed), 1);
    drop(value);
    assert_eq!(drops.load(Ordering::Relaxed), 2);
    drop(ring);
    assert_eq!(drops.load(Ordering::Relaxed), 2);
}

#[test]
fn close_does_not_wait_for_paused_publication() {
    // Pause after acquiring publication ownership, on both sides of the payload
    // write and the flush.
    for phase in 0..3 {
        let first = Arc::new(AtomicUsize::new(0));
        let second = Arc::new(AtomicUsize::new(0));
        let mut ring = Ring::new(2, true);
        ring.push_and_flush(Counted(first.clone())).unwrap();
        let value = Counted(second.clone());
        assert!(ring.begin());
        if phase == 0 {
            ring.close_consumer();
            assert_eq!(first.load(Ordering::Relaxed), 1);
            assert_eq!(second.load(Ordering::Relaxed), 0);
        }
        ring.push(value).unwrap();
        if phase == 1 {
            ring.close_consumer();
            assert_eq!(first.load(Ordering::Relaxed), 1);
            assert_eq!(second.load(Ordering::Relaxed), 0);
        }
        ring.flush();
        if phase == 2 {
            ring.close_consumer();
            assert_eq!(first.load(Ordering::Relaxed), 1);
            assert_eq!(second.load(Ordering::Relaxed), 1);
        }
        ring.finish();
        assert_eq!(first.load(Ordering::Relaxed), 1);
        assert_eq!(second.load(Ordering::Relaxed), 1);
        drop(ring);
        assert_eq!(first.load(Ordering::Relaxed), 1);
        assert_eq!(second.load(Ordering::Relaxed), 1);
    }
}

#[test]
fn close_racing_publication_drops_each_value_once() {
    for close_first in [false, true] {
        let first = Arc::new(AtomicUsize::new(0));
        let second = Arc::new(AtomicUsize::new(0));
        let mut ring = Ring::new(2, true);
        ring.push_and_flush(Counted(first.clone())).unwrap();
        let value = Counted(second.clone());
        if close_first {
            ring.close_consumer();
        }
        drop(ring.push_and_flush(value));
        if !close_first {
            ring.close_consumer();
        }
        assert_eq!(first.load(Ordering::Relaxed), 1);
        assert_eq!(second.load(Ordering::Relaxed), 1);
        drop(ring);
        assert_eq!(first.load(Ordering::Relaxed), 1);
        assert_eq!(second.load(Ordering::Relaxed), 1);
    }
}

#[test]
fn ring_keeps_order_across_its_end() {
    let mut ring = Ring::new(3, false);
    assert_eq!(ring.capacity(), 3);
    let mut next = 0;
    for value in 0..30 {
        ring.push_and_flush(value).unwrap();
        if value % 3 == 2 {
            assert!(ring.is_full());
            assert_eq!(ring.push(99), Err(99));
            assert_eq!(ring.prefetch(), 3);
            while let Some(value) = ring.pop() {
                assert_eq!(value, next);
                next += 1;
            }
            assert!(ring.is_full());
            ring.release();
            assert!(!ring.is_full());
        }
    }
    assert_eq!(next, 30);
    assert!(!ring.is_disconnected());
    ring.close_producer();
    assert!(ring.is_disconnected());
    assert!(!ring.is_consumer_dropped());
    ring.close_consumer();
    assert!(ring.is_consumer_dropped());
}

#[test]
fn unflushed_values_are_not_seen() {
    let mut ring = Ring::new(2, false);
    ring.push(1).unwrap();
    assert_eq!(ring.prefetch(), 0);
    assert_eq!(ring.pop(), None);
    ring.flush();
    assert_eq!(ring.prefetch(), 1);
    assert_eq!(ring.pop(), Some(1));
}

#[test]
fn completed_publication_changes_snapshot() {
    let mut tracker = PublicationTracker::new();
    let snapshot = tracker.snapshot();
    tracker.begin();
    tracker.finish();
    assert!(tracker.changed_since(snapshot));
    assert!(!tracker.is_in_flight());
}

#[test]
fn active_publication_prevents_stable_empty_scan() {
    let mut tracker = PublicationTracker::new();
    tracker.begin();
    let snapshot = tracker.snapshot();
    assert!(tracker.is_in_flight());
    tracker.finish();
    assert!(tracker.changed_since(snapshot));
}

#[test]
fn multiple_publishers_leave_visible_generation() {
    let mut tracker = PublicationTracker::new();
    let snapshot = tracker.snapshot();
    tracker.begin();
    tracker.begin();
    tracker.finish();
    assert!(tracker.is_in_flight());
    tracker.finish();
    assert!(tracker.changed_since(snapshot));
    assert!(!tracker.is_in_flight());
}

#[test]
fn wait_notify_cannot_be_lost() {
    for notify_first in [false, true] {
        let mut cell = WaitCell::new();
        let mut ready = false;
        if notify_first {
            ready = true;
            assert_eq!(
                cell.notify(),
                Notice {
                    signal: false,
                    wake: false,
                }
            );
        }
        let registration = cell.prepare();
        if ready {
            registration.cancel(&mut cell);
        } else {
            assert!(registration.wait(&mut cell));
            ready = true;
            assert!(cell.notify().signal);
            assert!(!registration.wait(&mut cell));
        }
        assert!(ready);
        assert!(!cell.notify().signal);
    }
}

#[test]
fn wait_two_notifications_do_not_restore_snapshot() {
    let mut cell = WaitCell::new();
    let registration = cell.prepare();
    cell.notify();
    cell.notify();
    assert_ne!(cell.state, registration.snapshot);
    assert!(!registration.wait(&mut cell));
}

#[test]
fn wait_cell_wakes_a_waker_once() {
    let mut cell = WaitCell::new();
    cell.register_async();
    let notice = cell.notify();
    assert!(notice.wake);
    assert!(!notice.signal);
    assert!(!cell.notify().wake);
    cell.register_async();
    cell.cancel_async();
    assert_eq!(
        cell.notify(),
        Notice {
            signal: false,
            wake: false,
        }
    );
}

#[test]
fn multi_wait_notify_one_cannot_be_lost() {
    for notify_first in [false, true] {
        let mut cell = MultiWaitCell::new();
        let mut ready = false;
        if notify_first {
            ready = true;
            assert!(!cell.notify_one());
        }
        let registration = cell.prepare();
        if ready {
            registration.cancel(&mut cell);
        } else {
            assert!(registration.wait(&mut cell));
            ready = true;
            assert!(cell.notify_one());
            assert!(!registration.wait(&mut cell));
        }
        assert!(ready);
        assert_eq!(cell.waiters, 0);
    }
}

#[test]
fn multi_wait_signals_as_many_as_are_notified() {
    let mut cell = MultiWaitCell::new();
    let waiters = [cell.prepare(), cell.prepare(), cell.prepare()];
    assert_eq!(cell.take_signals(), 0);
    assert!(cell.notify_one());
    assert_eq!(cell.take_signals(), 1);
    assert_eq!(cell.take_signals(), 0);
    cell.notify_one();
    cell.notify_one();
    assert_eq!(cell.signals, 2);
    cell.notify_all();
    assert_eq!(cell.take_signals(), 3);
    for _ in 0..5 {
        cell.notify_one();
    }
    assert_eq!(cell.signals, 3);
    waiters[0].clear(&mut cell);
    assert_eq!(cell.take_signals(), 2);
    cell.notify_one();
    waiters[1].clear(&mut cell);
    assert_eq!(cell.signals, 1);
    waiters[2].clear(&mut cell);
    assert_eq!((cell.waiters, cell.signals), (0, 0));
    assert!(!cell.notify_one());
    assert!(!cell.notify_all());
    assert_eq!(cell.take_signals(), 0);
}

#[test]
fn multi_wait_two_notifications_do_not_restore_snapshot() {
    let mut cell = MultiWaitCell::new();
    let registration = cell.prepare();
    cell.notify_one();
    cell.notify_one();
    assert_ne!(cell.state, registration.snapshot);
    registration.cancel(&mut cell);
}

#[test]
fn multi_wait_notify_all_releases_every_waiter() {
    let mut cell = MultiWaitCell::new();
    let first = cell.prepare();
    let second = cell.prepare();
    assert!(first.wait(&mut cell));
    assert!(second.wait(&mut cell));
    assert!(cell.notify_all());
    assert!(!first.wait(&mut cell));
    assert!(!second.wait(&mut cell));
    assert!(!cell.notify_all());
}

#[test]
fn leaving_restores_a_wait_cell() {
    let mut cell = WaitCell::new();
    cell.notify();
    let before = cell.state;
    let registration = cell.prepare();
    assert_ne!(cell.state, before);
    registration.wake_up(&mut cell);
    assert_eq!(cell.state, before);
}

#[test]
fn steal_returns_one_and_moves_half_the_remainder() {
    let mut source = WorkQueue::bounded(8);
    let mut destination = WorkQueue::bounded(8);
    for value in 0..7 {
        source.push(value);
    }

    assert_eq!(source.steal_batch_into(&mut destination), Some(0));
    assert_eq!(source.len(), 3);
    assert_eq!(destination.len(), 3);

    let mut values = Vec::new();
    while let Some(value) = source.pop() {
        values.push(value);
    }
    while let Some(value) = destination.pop() {
        values.push(value);
    }
    values.sort_unstable();
    assert_eq!(values, (1..7).collect::<Vec<_>>());
}

#[test]
fn steal_batch_is_capped_at_eight_values() {
    let mut source = WorkQueue::bounded(64);
    let mut destination = WorkQueue::bounded(64);
    for value in 0..64 {
        source.push(value);
    }

    assert_eq!(source.steal_batch_into(&mut destination), Some(0));
    assert_eq!(source.len(), 56);
    assert_eq!(destination.len(), 7);
}

#[test]
fn drain_moves_every_value() {
    let mut source = WorkQueue::bounded(4);
    let mut destination = WorkQueue::unbounded();
    for value in 0..4 {
        source.push(value);
    }

    assert!(source.drain_into(&mut destination));
    assert_eq!(source.len(), 0);
    assert_eq!(destination.len(), 4);
    assert!(!source.drain_into(&mut destination));
}

fn drain_steal(source: &mut WorkQueue) -> Vec<u64> {
    let mut destination = WorkQueue::bounded(2);
    let mut values = source
        .steal_batch_into(&mut destination)
        .into_iter()
        .collect::<Vec<_>>();
    while let Some(value) = destination.pop() {
        values.push(value);
    }
    values
}

#[test]
fn concurrent_steals_preserve_every_value() {
    let mut source = WorkQueue::bounded(2);
    source.push(1);
    source.push(2);
    let mut values = drain_steal(&mut source);
    values.extend(drain_steal(&mut source));
    while let Some(value) = source.pop() {
        values.push(value);
    }
    values.sort_unstable();
    assert_eq!(values, [1, 2]);
}

#[test]
fn drain_racing_steal_preserves_every_value() {
    for steal_first in [false, true] {
        let mut source = WorkQueue::bounded(2);
        source.push(1);
        source.push(2);
        let mut orphaned = WorkQueue::unbounded();
        let mut values = Vec::new();
        if steal_first {
            values.extend(drain_steal(&mut source));
        }
        source.drain_into(&mut orphaned);
        if !steal_first {
            values.extend(drain_steal(&mut source));
        }
        while let Some(value) = source.pop() {
            values.push(value);
        }
        while let Some(value) = orphaned.pop() {
            values.push(value);
        }
        values.sort_unstable();
        assert_eq!(values, [1, 2]);
    }
}

#[test]
fn work_queues_are_first_in_first_out() {
    let mut queue = WorkQueue::unbounded();
    assert_eq!(queue.pop(), None);
    for value in [5, 3, 9] {
        queue.push(value);
    }
    assert_eq!(queue.len(), 3);
    assert_eq!(queue.pop(), Some(5));
    assert_eq!(queue.pop(), Some(3));
    assert_eq!(queue.pop(), Some(9));
    assert_eq!(queue.pop(), None);
}

#[test]
fn capacities_are_rounded_to_powers_of_two() {
    let pairs = [(1, 1), (2, 2), (3, 4), (4, 4), (5, 8), (64, 64), (65, 128)];
    for (asked, rounded) in pairs {
        assert_eq!(round_capacity(asked), rounded);
    }
}

#[test]
fn capacities_are_validated() {
    assert_eq!(validate_capacity(0, 8), Err(ChannelError::ZeroCapacity));
    assert_eq!(validate_capacity(8, 8), Ok(()));
    assert_eq!(
        validate_capacity(9, 8),
        Err(ChannelError::CapacityTooLarge {
            requested: 9,
            max: 8
        })
    );
}

#[test]
fn public_errors_implement_std_error() {
    assert_eq!(
        ChannelError::ZeroCapacity.to_string(),
        "capacity_per_sender must be > 0"
    );
    assert_eq!(TrySendError::Full(1).to_string(), "sender ring is full");
    assert_eq!(TryRecvError::Empty.to_string(), "channel is empty");
}

#[test]
fn every_error_has_a_text() {
    let error = ChannelError::CapacityTooLarge {
        requested: 12,
        max: 8,
    };
    assert_eq!(error.to_string(), "capacity_per_sender must be <= 8");
    let gone = "all receivers have been dropped";
    assert_eq!(TryRegisterError::Disconnected.to_string(), gone);
    assert_eq!(SendError(1).to_string(), gone);
    assert_eq!(TrySendError::Disconnected(1).to_string(), gone);
    assert_eq!(SendTimeoutError::Disconnected(1).to_string(), gone);
    assert_eq!(
        SendTimeoutError::Timeout(1).to_string(),
        "timed out waiting for sender capacity"
    );
    let gone = "all senders have been dropped";
    assert_eq!(RecvError.to_string(), gone);
    assert_eq!(TryRecvError::Disconnected.to_string(), gone);
    assert_eq!(RecvTimeoutError::Disconnected.to_string(), gone);
    assert_eq!(
        RecvTimeoutError::Timeout.to_string(),
        "timed out waiting for a message"
    );
}

#[test]
fn errors_give_the_value_back() {
    assert_eq!(SendError(1).into_inner(), 1);
    assert_eq!(TrySendError::Full(2).into_inner(), 2);
    assert_eq!(TrySendError::Disconnected(3).into_inner(), 3);
    assert_eq!(SendTimeoutError::Timeout(4).into_inner(), 4);
    assert_eq!(SendTimeoutError::Disconnected(5).into_inner(), 5);
}

#[test]
fn every_pushed_value_leaves_a_ring_once() {
    for coordinated in [false, true] {
        let drops = (0..3)
            .map(|_| Arc::new(AtomicUsize::new(0)))
            .collect::<Vec<_>>();
        let mut ring = Ring::new(4, coordinated);
        for count in &drops {
            ring.push_and_flush(Counted(count.clone())).unwrap();
        }
        ring.prefetch();
        drop(ring.pop());
        let counts = |drops: &[Arc<AtomicUsize>]| {
            drops
                .iter()
                .map(|count| count.load(Ordering::Relaxed))
                .collect::<Vec<_>>()
        };
        assert_eq!(counts(&drops), [1, 0, 0]);
        ring.close_consumer();
        let closed = if coordinated { [1, 1, 1] } else { [1, 0, 0] };
        assert_eq!(counts(&drops), closed);
        ring.close_consumer();
        assert_eq!(counts(&drops), closed);
        ring.close_producer();
        assert_eq!(counts(&drops), closed);
        drop(ring);
        assert_eq!(counts(&drops), [1, 1, 1]);
    }
}

#[test]
fn last_leaving_waiter_takes_the_bit_along() {
    let mut cell = MultiWaitCell::new();
    cell.notify_all();
    let waiters = [cell.prepare(), cell.prepare(), cell.prepare()];
    cell.notify_all();
    assert_eq!((cell.state, cell.waiters), (5, 3));
    waiters[0].clear(&mut cell);
    assert_eq!((cell.state, cell.waiters), (5, 2));
    waiters[1].clear(&mut cell);
    assert_eq!((cell.state, cell.waiters), (5, 1));
    waiters[2].clear(&mut cell);
    assert_eq!((cell.state, cell.waiters), (4, 0));
}
