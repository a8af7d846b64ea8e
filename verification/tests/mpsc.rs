use std::collections::VecDeque;
use std::sync::atomic::{AtomicUsize, Ordering};
use std::sync::Arc;

use fanring::error::{
    ChannelError, RecvError, RecvTimeoutError, SendError, SendTimeoutError, TryRecvError,
    TryRegisterBoundedError, TryRegisterError, TrySendError,
};
use fanring::key::LaneKey;
use fanring::mpsc::receiver::{LanePoll, RecvDeadlineProgress, RecvProgress};
use fanring::mpsc::sender::{SendDeadlineProgress, SendProgress};
use fanring::mpsc::{channel, try_channel, Channel, Receiver, Sender, MAX_CAPACITY_PER_SENDER};

/// Receive, or report that the receiver would go to sleep.
fn recv_step<T>(rx: &mut Receiver, ch: &mut Channel<T>) -> Option<Result<T, RecvError>> {
    let mut attempt = 0;
    loop {
        match rx.recv(ch, attempt) {
            RecvProgress::Done(result) => return Some(result),
            RecvProgress::Spin => attempt += 1,
            RecvProgress::Park(wait) => {
                assert!(rx.park(ch, &wait));
                rx.unpark(ch, &wait);
                return None;
            }
        }
    }
}

fn recv<T>(rx: &mut Receiver, ch: &mut Channel<T>) -> Result<T, RecvError> {
    recv_step(rx, ch).expect("receiver would sleep")
}

fn send<T>(tx: &mut Sender, ch: &mut Channel<T>, value: T) -> Result<(), SendError<T>> {
    let mut attempt = 0;
    let mut value = value;
    loop {
        match tx.send(ch, value, attempt) {
            SendProgress::Done(result) => return result,
            SendProgress::Spin(back) => {
                value = back;
                attempt += 1;
            }
            SendProgress::Park(_, _) => panic!("sender would sleep"),
        }
    }
}

fn recv_deadline<T>(rx: &mut Receiver, ch: &mut Channel<T>) -> Result<T, RecvTimeoutError> {
    match rx.recv_deadline(ch, true) {
        RecvDeadlineProgress::Done(result) => result,
        RecvDeadlineProgress::Park(_) => unreachable!(),
    }
}

fn send_deadline<T>(
    tx: &mut Sender,
    ch: &mut Channel<T>,
    value: T,
) -> Result<(), SendTimeoutError<T>> {
    match tx.send_deadline(ch, value, true) {
        SendDeadlineProgress::Done(result) => result,
        SendDeadlineProgress::Park(_, _) => unreachable!(),
    }
}

fn ready_values<T>(rx: &mut Receiver, ch: &mut Channel<T>) -> Vec<T> {
    let mut values = Vec::new();
    while let Ok(value) = rx.try_recv(ch) {
        values.push(value);
    }
    values
}

fn all_values<T>(rx: &mut Receiver, ch: &mut Channel<T>) -> Vec<T> {
    let mut values = Vec::new();
    while let Ok(value) = recv(rx, ch) {
        values.push(value);
    }
    values
}

fn next_random(state: &mut u64) -> usize {
    *state ^= *state << 13;
    *state ^= *state >> 7;
    *state ^= *state << 17;
    *state as usize
}

#[test]
fn basic_send_recv() {
    let (mut ch, mut tx, mut rx) = channel(4);

    tx.try_send(&mut ch, 1).unwrap();
    tx.try_send(&mut ch, 2).unwrap();

    assert_eq!(rx.try_recv(&mut ch), Ok(1));
    assert_eq!(rx.try_recv(&mut ch), Ok(2));
    assert_eq!(rx.try_recv(&mut ch), Err(TryRecvError::Empty));
}

#[test]
fn blocking_timeouts_report_unsatisfied_operation() {
    let (mut ch, mut tx, mut rx) = channel(1);
    assert_eq!(recv_deadline(&mut rx, &mut ch), Err(RecvTimeoutError::Timeout));

    tx.try_send(&mut ch, 1).unwrap();
    assert_eq!(
        send_deadline(&mut tx, &mut ch, 2),
        Err(SendTimeoutError::Timeout(2))
    );
    rx.close(&mut ch);
    assert_eq!(
        send_deadline(&mut tx, &mut ch, 3),
        Err(SendTimeoutError::Disconnected(3))
    );
}

#[test]
fn mpsc_deadlines_report_unsatisfied_operation() {
    let (mut ch, mut tx, mut rx) = channel(1);
    assert_eq!(recv_deadline(&mut rx, &mut ch), Err(RecvTimeoutError::Timeout));

    tx.try_send(&mut ch, 1).unwrap();
    assert_eq!(
        send_deadline(&mut tx, &mut ch, 2),
        Err(SendTimeoutError::Timeout(2))
    );
}

#[test]
fn mpsc_endpoint_counts_and_identity_are_exposed() {
    let (mut ch, tx0, rx0) = channel::<u8>(1);
    let tx1 = tx0.try_clone(&mut ch).unwrap();

    assert_ne!(tx0.lane_id(), tx1.lane_id());
    assert_eq!(tx0.sender_count(&ch), 2);
    assert_eq!(rx0.sender_count(&ch), 2);
    assert_eq!(tx0.receiver_count(&ch), 1);
    assert_eq!(rx0.receiver_count(&ch), 1);

    tx1.close(&mut ch);
    assert_eq!(tx0.sender_count(&ch), 1);
    rx0.close(&mut ch);
    assert_eq!(tx0.receiver_count(&ch), 0);
    assert!(tx0.is_disconnected(&ch));
}

#[test]
fn mpsc_receiver_iterators_cover_blocking_and_ready_values() {
    let (mut ch, mut tx, mut rx) = channel(4);
    tx.try_send(&mut ch, 1).unwrap();
    tx.try_send(&mut ch, 2).unwrap();
    assert_eq!(ready_values(&mut rx, &mut ch), [1, 2]);

    tx.try_send(&mut ch, 3).unwrap();
    tx.try_send(&mut ch, 4).unwrap();
    tx.close(&mut ch);
    assert_eq!(all_values(&mut rx, &mut ch), [3, 4]);

    let (mut ch, mut tx, mut rx) = channel(1);
    tx.try_send(&mut ch, 5).unwrap();
    tx.close(&mut ch);
    assert_eq!(all_values(&mut rx, &mut ch), [5]);
}

#[test]
fn try_channel_validates_config() {
    assert_eq!(try_channel::<u8>(0).err(), Some(ChannelError::ZeroCapacity));
    assert_eq!(
        try_channel::<u8>(MAX_CAPACITY_PER_SENDER + 1).err(),
        Some(ChannelError::CapacityTooLarge {
            requested: MAX_CAPACITY_PER_SENDER + 1,
            max: MAX_CAPACITY_PER_SENDER,
        })
    );
}

#[test]
fn capacity_reports_yring_rounding() {
    let (ch, tx, rx) = try_channel::<u8>(3).ok().unwrap();

    assert_eq!(tx.capacity(&ch), 4);
    assert_eq!(rx.capacity_per_sender(), 4);
}

#[test]
fn try_register_reports_failure_cause() {
    let (mut ch, tx, rx) = channel::<u8>(1);
    assert!(tx.try_register(&mut ch).is_ok());
    rx.close(&mut ch);
    assert_eq!(
        tx.try_register(&mut ch).unwrap_err(),
        TryRegisterError::Disconnected
    );
    assert!(tx.try_clone(&mut ch).is_none());
}

#[test]
fn bounded_registration_reports_disconnection() {
    let (mut ch, tx, rx) = channel::<u8>(1);
    rx.close(&mut ch);
    assert!(matches!(
        tx.try_register_bounded(&mut ch, 8),
        Err(TryRegisterBoundedError::Disconnected)
    ));
}

#[test]
fn per_sender_fifo_relaxed_across_senders() {
    let (mut ch, mut tx0, mut rx) = channel(8);
    let mut tx1 = tx0.try_clone(&mut ch).unwrap();

    for i in 0..4 {
        tx0.try_send(&mut ch, (0, i)).unwrap();
        tx1.try_send(&mut ch, (1, i)).unwrap();
    }

    let mut seen = [0, 0];
    for _ in 0..8 {
        let (sender, seq): (usize, usize) = rx.try_recv(&mut ch).unwrap();
        assert_eq!(seq, seen[sender]);
        seen[sender] += 1;
    }
    assert_eq!(seen, [4, 4]);
}

#[test]
fn sender_registration_has_no_fixed_limit() {
    let (mut ch, tx0, mut rx) = channel::<usize>(4);
    let mut senders = Vec::new();
    for _ in 0..129 {
        senders.push(tx0.try_clone(&mut ch).expect("dynamic sender lane"));
    }

    for (i, tx) in senders.iter_mut().enumerate() {
        tx.try_send(&mut ch, i).unwrap();
    }

    let mut seen = vec![false; senders.len()];
    for _ in 0..senders.len() {
        seen[rx.try_recv(&mut ch).unwrap()] = true;
    }
    assert!(seen.into_iter().all(|value| value));
}

#[test]
fn full_is_per_sender() {
    let (mut ch, mut tx0, mut rx) = channel(2);
    let mut tx1 = tx0.try_clone(&mut ch).unwrap();

    tx0.try_send(&mut ch, 1).unwrap();
    tx0.try_send(&mut ch, 2).unwrap();
    assert_eq!(tx0.try_send(&mut ch, 3), Err(TrySendError::Full(3)));

    tx1.try_send(&mut ch, 10).unwrap();

    let mut values = [
        rx.try_recv(&mut ch).unwrap(),
        rx.try_recv(&mut ch).unwrap(),
        rx.try_recv(&mut ch).unwrap(),
    ];
    values.sort();
    assert_eq!(values, [1, 2, 10]);
}

#[test]
fn drained_sender_lane_is_reused() {
    let (mut ch, tx0, mut rx) = channel::<u8>(2);
    let tx1 = tx0.try_clone(&mut ch).unwrap();
    let old_slot = tx1.lane_id();
    tx1.close(&mut ch);

    assert_eq!(rx.try_recv(&mut ch), Err(TryRecvError::Empty));
    let mut tx2 = tx0.try_clone(&mut ch).unwrap();
    assert_eq!(tx2.lane_id(), old_slot);
    tx2.try_send(&mut ch, 7).unwrap();
    assert_eq!(rx.try_recv(&mut ch), Ok(7));
}

#[test]
fn receive_releases_capacity_when_prefetched_batch_drains() {
    let (mut ch, mut tx, mut rx) = channel(4);

    for i in 0..4 {
        tx.try_send(&mut ch, i).unwrap();
    }

    assert_eq!(rx.try_recv(&mut ch), Ok(0));
    assert_eq!(tx.try_send(&mut ch, 4), Err(TrySendError::Full(4)));

    assert_eq!(rx.try_recv(&mut ch), Ok(1));
    assert_eq!(rx.try_recv(&mut ch), Ok(2));
    assert_eq!(rx.try_recv(&mut ch), Ok(3));
    tx.try_send(&mut ch, 4).unwrap();
    assert_eq!(rx.try_recv(&mut ch), Ok(4));
}

#[test]
fn receive_releases_capacity_at_local_batch_limit() {
    let (mut ch, mut tx, mut rx) = channel(128);

    for i in 0..128 {
        tx.try_send(&mut ch, i).unwrap();
    }

    for i in 0..63 {
        assert_eq!(rx.try_recv(&mut ch), Ok(i));
    }
    assert_eq!(tx.try_send(&mut ch, 128), Err(TrySendError::Full(128)));

    assert_eq!(rx.try_recv(&mut ch), Ok(63));
    tx.try_send(&mut ch, 128).unwrap();

    for i in 64..128 {
        assert_eq!(rx.try_recv(&mut ch), Ok(i));
    }
    assert_eq!(rx.try_recv(&mut ch), Ok(128));
}

#[test]
fn empty_lane_releases_partial_credit_batch() {
    let (mut ch, mut tx, mut rx) = channel(8);
    tx.try_send(&mut ch, 0).unwrap();
    assert_eq!(rx.try_recv(&mut ch), Ok(0));
    assert_eq!(rx.try_recv(&mut ch), Err(TryRecvError::Empty));

    for value in 1..=8 {
        tx.try_send(&mut ch, value).unwrap();
    }
}

#[test]
fn disconnects_after_draining() {
    let (mut ch, mut tx, mut rx) = channel(4);
    tx.try_send(&mut ch, 7).unwrap();
    tx.close(&mut ch);

    assert_eq!(rx.try_recv(&mut ch), Ok(7));
    assert_eq!(rx.try_recv(&mut ch), Err(TryRecvError::Disconnected));
}

#[test]
fn disconnection_is_reported_again() {
    let (mut ch, tx, mut rx) = channel::<u8>(4);
    assert!(!rx.is_disconnected(&ch));
    tx.close(&mut ch);
    assert!(rx.is_disconnected(&ch));
    for _ in 0..3 {
        assert_eq!(rx.try_recv(&mut ch), Err(TryRecvError::Disconnected));
        assert_eq!(recv(&mut rx, &mut ch), Err(RecvError));
        assert_eq!(
            recv_deadline(&mut rx, &mut ch),
            Err(RecvTimeoutError::Disconnected)
        );
    }
}

#[test]
fn send_fails_after_receiver_drop() {
    let (mut ch, mut tx, rx) = channel(4);
    rx.close(&mut ch);

    assert_eq!(tx.try_send(&mut ch, 7), Err(TrySendError::Disconnected(7)));
    assert_eq!(send(&mut tx, &mut ch, 8), Err(SendError(8)));
}

#[test]
fn sender_drop_preserves_buffered_items_until_drained() {
    let (mut ch, mut tx, mut rx) = channel(8);
    for i in 0..8 {
        tx.try_send(&mut ch, i).unwrap();
    }
    tx.close(&mut ch);

    for i in 0..8 {
        assert_eq!(rx.try_recv(&mut ch), Ok(i));
    }
    assert_eq!(rx.try_recv(&mut ch), Err(TryRecvError::Disconnected));
}

#[test]
fn receiver_drop_turns_full_into_disconnected() {
    let (mut ch, mut tx, rx) = channel(2);
    tx.try_send(&mut ch, 1).unwrap();
    tx.try_send(&mut ch, 2).unwrap();
    assert_eq!(tx.try_send(&mut ch, 3), Err(TrySendError::Full(3)));

    rx.close(&mut ch);
    assert_eq!(tx.try_send(&mut ch, 4), Err(TrySendError::Disconnected(4)));
}

#[derive(Debug)]
struct Counted(Arc<AtomicUsize>);

impl Drop for Counted {
    fn drop(&mut self) {
        self.0.fetch_add(1, Ordering::Relaxed);
    }
}

#[test]
fn drops_remaining_items_once() {
    let drops = Arc::new(AtomicUsize::new(0));
    let (mut ch, mut tx0, rx) = channel(8);
    let mut tx1 = tx0.try_clone(&mut ch).unwrap();

    for _ in 0..8 {
        tx0.try_send(&mut ch, Counted(drops.clone())).unwrap();
        tx1.try_send(&mut ch, Counted(drops.clone())).unwrap();
    }

    rx.close(&mut ch);
    tx0.close(&mut ch);
    tx1.close(&mut ch);

    assert_eq!(drops.load(Ordering::Relaxed), 16);
}

#[test]
fn sparse_sender_set_does_not_require_low_shards() {
    let (mut ch, tx0, mut rx) = channel(4);
    let tx1 = tx0.try_clone(&mut ch).unwrap();
    let mut tx2 = tx1.try_clone(&mut ch).unwrap();
    tx0.close(&mut ch);
    tx1.close(&mut ch);

    tx2.try_send(&mut ch, 42).unwrap();
    assert_eq!(rx.try_recv(&mut ch), Ok(42));
}

#[test]
fn randomized_sender_churn_matches_per_sender_fifo_model() {
    struct ModelSender {
        id: usize,
        next_sequence: usize,
        tx: Sender,
    }

    let (mut ch, root, mut rx) = channel(4);
    let mut senders = vec![ModelSender {
        id: 0,
        next_sequence: 0,
        tx: root,
    }];
    let mut expected = vec![VecDeque::new()];
    let mut expected_count = 0;
    let mut random = 0x9e37_79b9_7f4a_7c15;

    for _ in 0..50_000 {
        match next_random(&mut random) % 5 {
            0 if senders.len() < 16 => {
                let source = next_random(&mut random) % senders.len();
                let tx = senders[source].tx.try_clone(&mut ch).unwrap();
                let id = expected.len();
                expected.push(VecDeque::new());
                senders.push(ModelSender {
                    id,
                    next_sequence: 0,
                    tx,
                });
            }
            1 if senders.len() > 1 => {
                let sender = next_random(&mut random) % senders.len();
                senders.swap_remove(sender).tx.close(&mut ch);
            }
            2 | 3 => {
                let sender = next_random(&mut random) % senders.len();
                let model = &mut senders[sender];
                let value = (model.id, model.next_sequence);
                match model.tx.try_send(&mut ch, value) {
                    Ok(()) => {
                        expected[model.id].push_back(model.next_sequence);
                        expected_count += 1;
                        model.next_sequence += 1;
                    }
                    Err(TrySendError::Full(returned)) => assert_eq!(returned, value),
                    Err(TrySendError::Disconnected(_)) => panic!("receiver remains alive"),
                }
            }
            _ => match rx.try_recv(&mut ch) {
                Ok((sender, sequence)) => {
                    assert_eq!(expected[sender].pop_front(), Some(sequence));
                    expected_count -= 1;
                }
                Err(TryRecvError::Empty) => assert_eq!(expected_count, 0),
                Err(TryRecvError::Disconnected) => panic!("at least one sender remains alive"),
            },
        }
    }

    for sender in senders {
        sender.tx.close(&mut ch);
    }
    loop {
        match rx.try_recv(&mut ch) {
            Ok((sender, sequence)) => {
                assert_eq!(expected[sender].pop_front(), Some(sequence));
                expected_count -= 1;
            }
            Err(TryRecvError::Empty) => {}
            Err(TryRecvError::Disconnected) => break,
        }
    }
    assert_eq!(expected_count, 0);
    assert!(expected.iter().all(VecDeque::is_empty));
}

#[test]
fn stress_sender_slots_reuse_across_ready_page_boundaries() {
    const DYNAMIC_SENDERS: usize = 129;
    const ROUNDS: usize = 4;

    let (mut ch, root, mut rx) = channel(2);
    let mut expected_slots = None;

    for round in 0..ROUNDS {
        let mut senders = (0..DYNAMIC_SENDERS)
            .map(|_| root.try_clone(&mut ch).unwrap())
            .collect::<Vec<_>>();
        let mut slots = senders.iter().map(Sender::lane_id).collect::<Vec<_>>();
        slots.sort_unstable();
        assert!(slots.last().copied().unwrap() >= 129);
        if let Some(expected) = &expected_slots {
            assert_eq!(&slots, expected);
        } else {
            expected_slots = Some(slots);
        }

        for (sender, tx) in senders.iter_mut().enumerate() {
            send(tx, &mut ch, round * DYNAMIC_SENDERS + sender).unwrap();
        }
        for tx in senders {
            tx.close(&mut ch);
        }

        let mut values = (0..DYNAMIC_SENDERS)
            .map(|_| recv(&mut rx, &mut ch).unwrap())
            .collect::<Vec<_>>();
        values.sort_unstable();
        assert_eq!(
            values,
            (round * DYNAMIC_SENDERS..(round + 1) * DYNAMIC_SENDERS).collect::<Vec<_>>()
        );
        assert_eq!(rx.try_recv(&mut ch), Err(TryRecvError::Empty));
    }
}

#[test]
fn stress_busy_first_group_cannot_starve_sparse_second_group() {
    const SECOND_GROUP_SLOT: usize = 64 * 64;

    let (mut ch, mut busy, mut rx) = channel(256);
    let mut other_senders = (0..SECOND_GROUP_SLOT)
        .map(|_| busy.try_clone(&mut ch).unwrap())
        .collect::<Vec<_>>();
    let sparse = other_senders.last_mut().unwrap();
    assert_eq!(sparse.lane_id(), SECOND_GROUP_SLOT);

    for sequence in 0..256 {
        busy.try_send(&mut ch, (0, sequence)).unwrap();
    }
    assert_eq!(rx.try_recv(&mut ch), Ok((0, 0)));
    sparse.try_send(&mut ch, (1, 0)).unwrap();

    let sparse_position = (0..=128)
        .position(|_| rx.try_recv(&mut ch).unwrap().0 == 1)
        .expect("second ready group must be polled");
    assert!(sparse_position <= 128);
}

#[test]
fn stress_sender_slots_reuse_across_ready_group_boundary() {
    const DYNAMIC_SENDERS: usize = 64 * 64;
    const ROUNDS: usize = 2;

    let (mut ch, root, mut rx) = channel(1);
    let mut expected_slots = None;

    for round in 0..ROUNDS {
        let mut senders = (0..DYNAMIC_SENDERS)
            .map(|_| root.try_clone(&mut ch).unwrap())
            .collect::<Vec<_>>();
        let mut slots = senders.iter().map(Sender::lane_id).collect::<Vec<_>>();
        slots.sort_unstable();
        assert_eq!(slots.first(), Some(&1));
        assert_eq!(slots.last(), Some(&DYNAMIC_SENDERS));
        if let Some(expected) = &expected_slots {
            assert_eq!(&slots, expected);
        } else {
            expected_slots = Some(slots);
        }

        for (sender, tx) in senders.iter_mut().enumerate() {
            tx.try_send(&mut ch, round * DYNAMIC_SENDERS + sender).unwrap();
        }
        for tx in senders {
            tx.close(&mut ch);
        }

        let mut values = (0..DYNAMIC_SENDERS)
            .map(|_| recv(&mut rx, &mut ch).unwrap())
            .collect::<Vec<_>>();
        values.sort_unstable();
        assert_eq!(
            values,
            (round * DYNAMIC_SENDERS..(round + 1) * DYNAMIC_SENDERS).collect::<Vec<_>>()
        );
        assert_eq!(rx.try_recv(&mut ch), Err(TryRecvError::Empty));
    }
}

#[test]
fn stress_blocked_receiver_finds_sender_added_in_second_ready_group() {
    const FIRST_GROUP_LANES: usize = 64 * 64;

    let (mut ch, root, mut rx) = channel(1);
    let mut existing = Vec::with_capacity(FIRST_GROUP_LANES);
    existing.push(root);
    for _ in 1..FIRST_GROUP_LANES {
        let tx = existing[0].try_clone(&mut ch).unwrap();
        existing.push(tx);
    }
    assert_eq!(existing.last().unwrap().lane_id(), FIRST_GROUP_LANES - 1);
    assert_eq!(rx.try_recv(&mut ch), Err(TryRecvError::Empty));

    let mut attempt = 0;
    let wait = loop {
        match rx.recv(&mut ch, attempt) {
            RecvProgress::Spin => attempt += 1,
            RecvProgress::Park(wait) => break wait,
            RecvProgress::Done(_) => panic!("nothing was sent"),
        }
    };
    assert!(rx.park(&mut ch, &wait));

    let mut newest = existing[0].try_clone(&mut ch).unwrap();
    assert_eq!(newest.lane_id(), FIRST_GROUP_LANES);
    send(&mut newest, &mut ch, 42).unwrap();

    assert!(!rx.park(&mut ch, &wait));
    assert_eq!(recv(&mut rx, &mut ch), Ok(42));
}

#[test]
fn capacity_one_blocking_ping_pong_does_not_lose_wakeups() {
    let (mut ch, mut tx, mut rx) = channel(1);
    for value in 0..2_000 {
        send(&mut tx, &mut ch, value).unwrap();
        assert_eq!(recv(&mut rx, &mut ch), Ok(value));
    }
    assert_eq!(recv_step(&mut rx, &mut ch), None);
}

#[test]
fn bursts_of_one_lane_end_after_64_values() {
    let (mut ch, mut busy, mut rx) = channel(256);
    let mut other = busy.try_clone(&mut ch).unwrap();
    for value in 0..256 {
        busy.try_send(&mut ch, (0, value)).unwrap();
        other.try_send(&mut ch, (1, value)).unwrap();
    }
    let order = ready_values(&mut rx, &mut ch);
    assert_eq!(order.len(), 512);
    for burst in order.chunks(64) {
        assert!(burst.iter().all(|value| value.0 == burst[0].0));
    }
    assert_ne!(order[0].0, order[64].0);
    assert_ne!(order[64].0, order[128].0);
}

#[test]
fn registered_lanes_counts_rings() {
    let (mut ch, tx, _rx) = channel::<u8>(1);
    assert_eq!(tx.registered_lanes(&ch), 1);
    let second = tx.try_register_bounded(&mut ch, 2).unwrap();
    assert_eq!(second.registered_lanes(&ch), 2);
}

#[test]
fn mpsc_allocated_slots_have_their_page() {
    let (mut ch, tx, _rx) = channel::<u8>(1);
    for slot in 1..64 {
        assert_eq!(tx.try_register(&mut ch).unwrap().lane_id(), slot);
    }
    assert_eq!(
        ch.allocate_lane(),
        (
            LaneKey {
                slot: 64,
                generation: 0
            },
            1
        )
    );
}

#[test]
fn polled_lanes_give_values_and_slots_back() {
    let (mut ch, mut tx, mut rx) = channel(2);
    let key = LaneKey {
        slot: 0,
        generation: 0,
    };
    let gone = LaneKey {
        slot: 0,
        generation: 1,
    };
    tx.try_send(&mut ch, 1).unwrap();
    tx.try_send(&mut ch, 2).unwrap();
    assert!(matches!(ch.poll_lane(gone), LanePoll::Stale));
    assert!(matches!(
        ch.poll_lane(LaneKey {
            slot: 7,
            generation: 0
        }),
        LanePoll::Stale
    ));
    assert!(matches!(
        ch.poll_lane(key),
        LanePoll::Item {
            value: 1,
            rotate: false,
            released: false
        }
    ));
    assert!(matches!(
        ch.poll_lane(key),
        LanePoll::Item {
            value: 2,
            released: true,
            ..
        }
    ));
    assert!(matches!(
        ch.poll_lane(key),
        LanePoll::Idle {
            disconnected: false,
            released: false
        }
    ));
    tx.try_send(&mut ch, 3).unwrap();
    assert_eq!(rx.try_recv(&mut ch), Ok(3));

    let (mut ch, mut tx, _rx) = channel(2);
    tx.try_send(&mut ch, 1).unwrap();
    assert!(matches!(
        ch.poll_lane(key),
        LanePoll::Item {
            released: false,
            ..
        }
    ));
    tx.close(&mut ch);
    assert!(matches!(
        ch.poll_lane(key),
        LanePoll::Idle {
            disconnected: true,
            released: true
        }
    ));
}

#[test]
fn mpsc_refused_sends_leave_the_values_in_order() {
    let (mut ch, mut tx, mut rx) = channel(2);
    tx.try_send(&mut ch, 0).unwrap();
    tx.try_send(&mut ch, 1).unwrap();
    for _ in 0..3 {
        assert_eq!(tx.try_send(&mut ch, 9), Err(TrySendError::Full(9)));
        let Err(SendTimeoutError::Timeout(back)) = send_deadline(&mut tx, &mut ch, 9) else {
            panic!("no slot is left");
        };
        assert_eq!(back, 9);
    }
    let SendProgress::Park(back, wait) = tx.send(&mut ch, 9, 1_000) else {
        panic!("no slot is left");
    };
    assert_eq!(back, 9);
    assert!(tx.park(&mut ch, &wait));
    tx.unpark(&mut ch, &wait);
    assert_eq!(ready_values(&mut rx, &mut ch), [0, 1]);
}

#[test]
fn disconnection_follows_the_last_value_at_once() {
    let (mut ch, mut tx, mut rx) = channel(4);
    let clones = (0..150).map(|_| tx.try_clone(&mut ch).unwrap()).collect::<Vec<_>>();
    tx.try_send(&mut ch, 7).unwrap();
    for clone in clones {
        clone.close(&mut ch);
    }
    tx.try_send(&mut ch, 8).unwrap();
    tx.close(&mut ch);
    assert_eq!(recv(&mut rx, &mut ch), Ok(7));
    assert_eq!(recv(&mut rx, &mut ch), Ok(8));
    assert_eq!(recv(&mut rx, &mut ch), Err(RecvError));
    assert_eq!(rx.try_recv(&mut ch), Err(TryRecvError::Disconnected));
}
