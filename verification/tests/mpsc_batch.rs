use std::sync::atomic::{AtomicUsize, Ordering};
use std::sync::Arc;

use fanring::error::{RecvError, TryRecvError, TrySendError};
use fanring::mpsc::receiver::{BatchProgress, RecvProgress};
use fanring::mpsc::{channel_with_policy, Channel, Receiver};
use fanring::teardown::{Coordinated, Deferred, Teardown};

fn recv<T>(rx: &mut Receiver, ch: &mut Channel<T>) -> Result<T, RecvError> {
    let mut attempt = 0;
    loop {
        match rx.recv(ch, attempt) {
            RecvProgress::Done(result) => return result,
            RecvProgress::Spin => attempt += 1,
            RecvProgress::Park(_) => panic!("receiver would sleep"),
        }
    }
}

fn recv_batch_into<T>(
    rx: &mut Receiver,
    ch: &mut Channel<T>,
    output: &mut Vec<T>,
    limit: usize,
) -> Result<usize, RecvError> {
    let mut attempt = 0;
    loop {
        match rx.recv_batch_into(ch, output, limit, attempt) {
            BatchProgress::Done(result) => return result,
            BatchProgress::Spin => attempt += 1,
            BatchProgress::Park(_) => panic!("receiver would sleep"),
        }
    }
}

fn ready_values<T>(rx: &mut Receiver, ch: &mut Channel<T>) -> Vec<T> {
    let mut values = Vec::new();
    while let Ok(value) = rx.try_recv(ch) {
        values.push(value);
    }
    values
}

#[test]
fn release_consumed_preserves_unread_values_and_is_idempotent() {
    fn check<P: Teardown>() {
        let (mut ch, mut tx, mut rx) = channel_with_policy::<_, P>(4);
        for value in 0..4 {
            tx.try_send(&mut ch, value).unwrap();
        }
        rx.release_consumed(&mut ch);
        assert_eq!(tx.try_send(&mut ch, 4), Err(TrySendError::Full(4)));
        assert_eq!(rx.try_recv(&mut ch), Ok(0));
        assert_eq!(recv(&mut rx, &mut ch), Ok(1));
        assert_eq!(tx.try_send(&mut ch, 4), Err(TrySendError::Full(4)));

        rx.release_consumed(&mut ch);
        rx.release_consumed(&mut ch);
        tx.try_send(&mut ch, 4).unwrap();
        tx.try_send(&mut ch, 5).unwrap();
        assert_eq!(tx.try_send(&mut ch, 6), Err(TrySendError::Full(6)));
        assert_eq!(ready_values(&mut rx, &mut ch), [2, 3, 4, 5]);
        rx.release_consumed(&mut ch);
        assert_eq!(rx.try_recv(&mut ch), Err(TryRecvError::Empty));
    }
    check::<Deferred>();
    check::<Coordinated>();
}

#[test]
fn release_consumed_covers_all_lanes_without_resetting_rotation() {
    fn check<P: Teardown>() {
        let (mut ch, mut tx0, mut rx) = channel_with_policy::<_, P>(128);
        let mut tx1 = tx0.try_clone(&mut ch).unwrap();
        for value in 0..128 {
            tx0.try_send(&mut ch, (0, value)).unwrap();
            tx1.try_send(&mut ch, (1, value)).unwrap();
        }
        assert_eq!(recv(&mut rx, &mut ch), Ok((0, 0)));
        rx.release_consumed(&mut ch);
        tx0.try_send(&mut ch, (0, 128)).unwrap();

        // Offset lane 0's release boundary from its rotation boundary so both
        // lanes hold partial release batches when lane 1 becomes active.
        for value in 1..64 {
            assert_eq!(rx.try_recv(&mut ch), Ok((0, value)));
        }
        assert_eq!(recv(&mut rx, &mut ch), Ok((1, 0)));
        assert_eq!(
            tx0.try_send(&mut ch, (0, 129)),
            Err(TrySendError::Full((0, 129)))
        );
        assert_eq!(
            tx1.try_send(&mut ch, (1, 128)),
            Err(TrySendError::Full((1, 128)))
        );
        rx.release_consumed(&mut ch);
        for value in 129..192 {
            tx0.try_send(&mut ch, (0, value)).unwrap();
        }
        tx1.try_send(&mut ch, (1, 128)).unwrap();
        assert_eq!(
            tx0.try_send(&mut ch, (0, 192)),
            Err(TrySendError::Full((0, 192)))
        );
        assert_eq!(
            tx1.try_send(&mut ch, (1, 129)),
            Err(TrySendError::Full((1, 129)))
        );

        tx0.close(&mut ch);
        tx1.close(&mut ch);
        let mut next = [64, 1];
        while let Ok((lane, value)) = recv(&mut rx, &mut ch) {
            let lane: usize = lane;
            assert_eq!(value, next[lane]);
            next[lane] += 1;
        }
        assert_eq!(next, [192, 129]);
    }
    check::<Deferred>();
    check::<Coordinated>();
}

#[test]
fn recv_batch_appends_bounded_values_and_releases_earlier_receives() {
    fn check<P: Teardown>() {
        let (mut ch, mut tx, mut rx) = channel_with_policy::<_, P>(4);
        for value in 0..4 {
            tx.try_send(&mut ch, value).unwrap();
        }
        assert_eq!(recv(&mut rx, &mut ch), Ok(0));
        let mut output = Vec::with_capacity(3);
        output.push(-1);
        let allocation = output.as_ptr();
        let capacity = output.capacity();
        assert_eq!(recv_batch_into(&mut rx, &mut ch, &mut output, 1), Ok(1));
        assert_eq!(output, [-1, 1]);
        assert_eq!(output.as_ptr(), allocation);
        assert_eq!(output.capacity(), capacity);
        tx.try_send(&mut ch, 4).unwrap();
        tx.try_send(&mut ch, 5).unwrap();
        assert_eq!(tx.try_send(&mut ch, 6), Err(TrySendError::Full(6)));

        output.clear();
        assert_eq!(recv_batch_into(&mut rx, &mut ch, &mut output, 2), Ok(2));
        assert_eq!(output, [2, 3]);
        assert_eq!(output.as_ptr(), allocation);
        output.clear();
        assert_eq!(recv_batch_into(&mut rx, &mut ch, &mut output, 3), Ok(2));
        assert_eq!(output, [4, 5]);
        assert_eq!(output.capacity(), capacity);
    }
    check::<Deferred>();
    check::<Coordinated>();
}

#[test]
fn recv_batch_waits_only_for_first_value() {
    fn check<P: Teardown>() {
        let (mut ch, mut tx, mut rx) = channel_with_policy::<_, P>(4);
        let mut output = Vec::with_capacity(4);
        let mut attempt = 0;
        let wait = loop {
            match rx.recv_batch_into(&mut ch, &mut output, 4, attempt) {
                BatchProgress::Spin => attempt += 1,
                BatchProgress::Park(wait) => break wait,
                BatchProgress::Done(_) => panic!("nothing was sent"),
            }
        };
        assert!(rx.park(&mut ch, &wait));
        tx.try_send(&mut ch, 7).unwrap();
        assert!(!rx.park(&mut ch, &wait));
        let result = recv_batch_into(&mut rx, &mut ch, &mut output, 4);
        assert_eq!((result, output), (Ok(1), vec![7]));
    }
    check::<Deferred>();
    check::<Coordinated>();
}

#[test]
fn recv_batch_zero_limit_releases_without_receiving() {
    fn check<P: Teardown>() {
        let (mut ch, mut tx, mut rx) = channel_with_policy::<_, P>(4);
        let mut output = vec![9];
        assert_eq!(recv_batch_into(&mut rx, &mut ch, &mut output, 0), Ok(0));
        for value in 0..4 {
            tx.try_send(&mut ch, value).unwrap();
        }
        assert_eq!(recv(&mut rx, &mut ch), Ok(0));
        assert_eq!(recv_batch_into(&mut rx, &mut ch, &mut output, 0), Ok(0));
        assert_eq!(output, [9]);
        tx.try_send(&mut ch, 4).unwrap();
        tx.close(&mut ch);
        assert_eq!(recv_batch_into(&mut rx, &mut ch, &mut output, 0), Ok(0));
        // A large limit must not cause an up-front allocation for that limit.
        assert_eq!(
            recv_batch_into(&mut rx, &mut ch, &mut output, usize::MAX),
            Ok(4)
        );
        assert_eq!(output, [9, 1, 2, 3, 4]);
        assert_eq!(
            recv_batch_into(&mut rx, &mut ch, &mut output, 1),
            Err(RecvError)
        );
        assert_eq!(recv_batch_into(&mut rx, &mut ch, &mut output, 0), Ok(0));
        assert_eq!(output, [9, 1, 2, 3, 4]);
    }
    check::<Deferred>();
    check::<Coordinated>();
}

#[test]
fn recv_batch_disconnect_preserves_partial_batch_and_owned_values() {
    fn check<P: Teardown>() {
        let (mut ch, mut tx, mut rx) = channel_with_policy::<_, P>(4);
        tx.try_send(&mut ch, Box::new(1)).unwrap();
        tx.try_send(&mut ch, Box::new(2)).unwrap();
        tx.close(&mut ch);
        let mut output = vec![Box::new(0)];
        assert_eq!(recv_batch_into(&mut rx, &mut ch, &mut output, 4), Ok(2));
        assert_eq!(
            output.iter().map(|value| **value).collect::<Vec<_>>(),
            [0, 1, 2]
        );
        assert_eq!(
            recv_batch_into(&mut rx, &mut ch, &mut output, 4),
            Err(RecvError)
        );
        rx.close(&mut ch);
        assert_eq!(
            output.iter().map(|value| **value).collect::<Vec<_>>(),
            [0, 1, 2]
        );
    }
    check::<Deferred>();
    check::<Coordinated>();
}

#[test]
fn recv_batch_reclaims_exact_capacity_across_wraparound_and_release_boundaries() {
    fn check<P: Teardown>() {
        for requested_capacity in [1, 3, 64, 65] {
            let (mut ch, mut tx, mut rx) = channel_with_policy::<_, P>(requested_capacity);
            let capacity = rx.capacity_per_sender();
            for value in 0..capacity {
                tx.try_send(&mut ch, value).unwrap();
            }
            let mut sent = capacity;
            let mut received = 0;
            let mut output = Vec::with_capacity(capacity);
            // Cross the 64-item release boundary and repeatedly reuse physical
            // slots, including capacities that are rounded upward.
            for limit in [1, 3, 63, 64, 65, 129] {
                let count = capacity.min(limit);
                assert_eq!(
                    recv_batch_into(&mut rx, &mut ch, &mut output, limit),
                    Ok(count)
                );
                assert_eq!(output, (received..received + count).collect::<Vec<_>>());
                received += count;
                output.clear();

                for value in sent..sent + count {
                    tx.try_send(&mut ch, value).unwrap();
                }
                sent += count;
                assert_eq!(tx.try_send(&mut ch, sent), Err(TrySendError::Full(sent)));
            }
            tx.close(&mut ch);
            assert_eq!(
                recv_batch_into(&mut rx, &mut ch, &mut output, capacity + 1),
                Ok(capacity)
            );
            assert_eq!(output, (received..sent).collect::<Vec<_>>());
            assert_eq!(
                recv_batch_into(&mut rx, &mut ch, &mut output, 1),
                Err(RecvError)
            );
        }
    }
    check::<Deferred>();
    check::<Coordinated>();
}

#[test]
fn recv_batch_retires_and_reuses_lane_without_releasing_new_unread_slots() {
    fn check<P: Teardown>() {
        let (mut ch, root, mut rx) = channel_with_policy::<_, P>(4);
        let mut old = root.try_clone(&mut ch).unwrap();
        let slot = old.lane_id();
        for value in 0..4 {
            old.try_send(&mut ch, value).unwrap();
        }
        let mut output = Vec::with_capacity(4);
        assert_eq!(recv_batch_into(&mut rx, &mut ch, &mut output, 2), Ok(2));
        assert_eq!(output, [0, 1]);
        old.close(&mut ch);
        output.clear();
        assert_eq!(recv_batch_into(&mut rx, &mut ch, &mut output, 4), Ok(2));
        assert_eq!(output, [2, 3]);
        // The empty poll retires this lane, leaving a hole in the lane table.
        // Releasing again must tolerate that hole.
        assert_eq!(rx.try_recv(&mut ch), Err(TryRecvError::Empty));
        rx.release_consumed(&mut ch);

        let mut new = root.try_clone(&mut ch).unwrap();
        assert_eq!(new.lane_id(), slot);
        for value in 4..8 {
            new.try_send(&mut ch, value).unwrap();
        }
        // The reused slot is registered but has not been read yet.
        rx.release_consumed(&mut ch);
        assert_eq!(new.try_send(&mut ch, 8), Err(TrySendError::Full(8)));
        output.clear();
        assert_eq!(recv_batch_into(&mut rx, &mut ch, &mut output, 1), Ok(1));
        assert_eq!(output, [4]);
        new.try_send(&mut ch, 8).unwrap();
        assert_eq!(new.try_send(&mut ch, 9), Err(TrySendError::Full(9)));
        root.close(&mut ch);
        new.close(&mut ch);
        output.clear();
        assert_eq!(recv_batch_into(&mut rx, &mut ch, &mut output, 5), Ok(4));
        assert_eq!(output, [5, 6, 7, 8]);
        rx.release_consumed(&mut ch);
        assert_eq!(
            recv_batch_into(&mut rx, &mut ch, &mut output, 1),
            Err(RecvError)
        );
    }
    check::<Deferred>();
    check::<Coordinated>();
}

#[derive(Debug)]
struct Counted {
    id: usize,
    drops: Arc<Vec<AtomicUsize>>,
}

impl Drop for Counted {
    fn drop(&mut self) {
        assert_eq!(self.drops[self.id].fetch_add(1, Ordering::Relaxed), 0);
    }
}

#[test]
fn released_slot_reuse_and_receiver_drop_preserve_output_ownership() {
    fn check<P: Teardown>() {
        for explicit_release in [false, true] {
            let drops = Arc::new((0..6).map(|_| AtomicUsize::new(0)).collect::<Vec<_>>());
            let value = |id| Counted {
                id,
                drops: drops.clone(),
            };
            let (mut ch, mut tx, mut rx) = channel_with_policy::<_, P>(4);
            for id in 0..4 {
                tx.try_send(&mut ch, value(id)).unwrap();
            }
            let mut output = Vec::with_capacity(2);
            if explicit_release {
                output.push(recv(&mut rx, &mut ch).unwrap());
                output.push(recv(&mut rx, &mut ch).unwrap());
                rx.release_consumed(&mut ch);
            } else {
                assert_eq!(recv_batch_into(&mut rx, &mut ch, &mut output, 2), Ok(2));
            }
            tx.try_send(&mut ch, value(4)).unwrap();
            tx.try_send(&mut ch, value(5)).unwrap();
            assert!(drops.iter().all(|count| count.load(Ordering::Relaxed) == 0));

            rx.close(&mut ch);
            for count in &drops[2..] {
                assert_eq!(
                    count.load(Ordering::Relaxed),
                    usize::from(P::coordinated())
                );
            }
            tx.close(&mut ch);
            for count in &drops[2..] {
                assert_eq!(count.load(Ordering::Relaxed), 1);
            }
            assert_eq!(
                output.iter().map(|value| value.id).collect::<Vec<_>>(),
                [0, 1]
            );
            assert_eq!(drops[0].load(Ordering::Relaxed), 0);
            assert_eq!(drops[1].load(Ordering::Relaxed), 0);
            drop(output);
            assert!(drops.iter().all(|count| count.load(Ordering::Relaxed) == 1));
        }
    }
    check::<Deferred>();
    check::<Coordinated>();
}
