use std::collections::BTreeSet;
use std::sync::atomic::{AtomicUsize, Ordering};
use std::sync::Arc;

use fanring::error::{
    ChannelError, RecvError, RecvTimeoutError, SendError, SendTimeoutError, TryRecvError,
    TryRegisterError, TrySendError,
};
use fanring::key::LaneKey;
use fanring::mpmc::receiver::{RecvDeadlineProgress, RecvProgress};
use fanring::mpmc::sender::{SendDeadlineProgress, SendProgress};
use fanring::mpmc::{
    channel, channel_with_policy, try_channel, Channel, Receiver, Sender, MAX_CAPACITY_PER_SENDER,
    PREFETCH_LIMIT,
};
use fanring::ready::LANES_PER_PAGE;
use fanring::teardown::{Coordinated, Deferred, Teardown};
use fanring::wait::MultiWaitRegistration;

fn recv<T>(rx: &mut Receiver, ch: &mut Channel<T>) -> Result<T, RecvError> {
    let mut attempt = 0;
    loop {
        match rx.recv(ch, attempt) {
            RecvProgress::Done(result) => return result,
            RecvProgress::Spin => attempt += 1,
            RecvProgress::Park(_) => panic!("receiver would sleep"),
        }
    }
}

fn send<T>(tx: &mut Sender, ch: &mut Channel<T>, value: T) -> Result<(), SendError<T>> {
    let mut attempt = 0;
    let mut value = value;
    loop {
        match tx.send(ch, value, attempt) {
            SendProgress::Done(result) => return result,
            SendProgress::Spin(back) => {
                value = back;
                attempt += 1;
            }
            SendProgress::Park(_, _) => panic!("sender would sleep"),
        }
    }
}

fn recv_deadline<T>(rx: &mut Receiver, ch: &mut Channel<T>) -> Result<T, RecvTimeoutError> {
    loop {
        match rx.recv_deadline(ch, true) {
            RecvDeadlineProgress::Done(result) => return result,
            RecvDeadlineProgress::Again => {}
            RecvDeadlineProgress::Park(_) => unreachable!(),
        }
    }
}

fn send_deadline<T>(
    tx: &mut Sender,
    ch: &mut Channel<T>,
    value: T,
) -> Result<(), SendTimeoutError<T>> {
    match tx.send_deadline(ch, value, true) {
        SendDeadlineProgress::Done(result) => result,
        SendDeadlineProgress::Park(_, _) => unreachable!(),
    }
}

fn ready_values<T>(rx: &mut Receiver, ch: &mut Channel<T>) -> Vec<T> {
    let mut values = Vec::new();
    while let Ok(value) = rx.try_recv(ch) {
        values.push(value);
    }
    values
}

fn all_values<T>(rx: &mut Receiver, ch: &mut Channel<T>) -> Vec<T> {
    let mut values = Vec::new();
    while let Ok(value) = recv(rx, ch) {
        values.push(value);
    }
    values
}

fn next_random(state: &mut u64) -> usize {
    *state ^= *state << 13;
    *state ^= *state >> 7;
    *state ^= *state << 17;
    *state as usize
}

#[test]
fn cloned_receivers_distribute_messages() {
    let (mut ch, mut tx, mut rx0) = channel(8);
    let mut rx1 = rx0.clone(&mut ch);
    for value in 0..8 {
        tx.try_send(&mut ch, value).unwrap();
    }

    let mut values = Vec::new();
    for _ in 0..4 {
        values.push(rx0.try_recv(&mut ch).unwrap());
        values.push(rx1.try_recv(&mut ch).unwrap());
    }
    values.sort_unstable();
    assert_eq!(values, (0..8).collect::<Vec<_>>());
}

#[test]
fn cloned_receiver_steals_prefetched_work() {
    let (mut ch, mut tx, mut rx0) = channel(4);
    tx.try_send(&mut ch, 1).unwrap();
    tx.try_send(&mut ch, 2).unwrap();
    assert_eq!(rx0.try_recv(&mut ch), Ok(1));

    let mut rx1 = rx0.clone(&mut ch);
    assert_eq!(rx1.try_recv(&mut ch), Ok(2));
}

#[test]
fn receiver_drop_preserves_prefetched_work() {
    let (mut ch, mut tx, mut rx0) = channel(4);
    let mut rx1 = rx0.clone(&mut ch);
    tx.try_send(&mut ch, 1).unwrap();
    tx.try_send(&mut ch, 2).unwrap();
    assert_eq!(rx0.try_recv(&mut ch), Ok(1));
    rx0.close(&mut ch);
    assert_eq!(rx1.try_recv(&mut ch), Ok(2));
}

#[test]
fn last_receiver_drop_disconnects_senders() {
    let (mut ch, mut tx, rx0) = channel(1);
    let rx1 = rx0.clone(&mut ch);
    rx0.close(&mut ch);
    assert_eq!(tx.try_send(&mut ch, 1), Ok(()));
    rx1.close(&mut ch);
    assert_eq!(tx.try_send(&mut ch, 2), Err(TrySendError::Disconnected(2)));
}

#[test]
fn blocking_receivers_wake_for_distinct_messages() {
    let (mut ch, mut tx, mut rx0) = channel(2);
    let mut rx1 = rx0.clone(&mut ch);
    send(&mut tx, &mut ch, 1).unwrap();
    send(&mut tx, &mut ch, 2).unwrap();
    let mut values = [
        recv(&mut rx0, &mut ch).unwrap(),
        recv(&mut rx1, &mut ch).unwrap(),
    ];
    values.sort_unstable();
    assert_eq!(values, [1, 2]);
}

#[test]
fn dynamic_senders_share_receivers() {
    let (mut ch, mut tx0, mut rx0) = channel(2);
    let mut tx1 = tx0.try_clone(&mut ch).unwrap();
    let mut rx1 = rx0.clone(&mut ch);
    tx0.try_send(&mut ch, 1).unwrap();
    tx1.try_send(&mut ch, 2).unwrap();
    let mut values = [
        rx0.try_recv(&mut ch).unwrap(),
        rx1.try_recv(&mut ch).unwrap(),
    ];
    values.sort_unstable();
    assert_eq!(values, [1, 2]);
}

#[test]
fn mpmc_deadlines_report_unsatisfied_operation() {
    let (mut ch, mut tx, mut rx) = channel(1);
    assert_eq!(recv_deadline(&mut rx, &mut ch), Err(RecvTimeoutError::Timeout));

    tx.try_send(&mut ch, 1).unwrap();
    assert_eq!(
        send_deadline(&mut tx, &mut ch, 2),
        Err(SendTimeoutError::Timeout(2))
    );
    rx.close(&mut ch);
    assert_eq!(
        send_deadline(&mut tx, &mut ch, 3),
        Err(SendTimeoutError::Disconnected(3))
    );
}

#[test]
fn mpmc_endpoint_counts_and_identity_are_exposed() {
    let (mut ch, tx0, rx0) = channel::<u8>(1);
    let tx1 = tx0.try_clone(&mut ch).unwrap();
    let rx1 = rx0.clone(&mut ch);

    assert_ne!(tx0.lane_id(), tx1.lane_id());
    assert_eq!(tx0.sender_count(&ch), 2);
    assert_eq!(rx0.sender_count(&ch), 2);
    assert_eq!(tx0.receiver_count(&ch), 2);
    assert_eq!(rx0.receiver_count(&ch), 2);

    tx1.close(&mut ch);
    assert_eq!(tx0.sender_count(&ch), 1);
    rx1.close(&mut ch);
    assert_eq!(tx0.receiver_count(&ch), 1);
    rx0.close(&mut ch);
    assert_eq!(tx0.receiver_count(&ch), 0);
    assert!(tx0.is_disconnected(&ch));
}

#[test]
fn mpmc_receiver_iterators_cover_blocking_and_ready_values() {
    let (mut ch, mut tx, mut rx) = channel(4);
    tx.try_send(&mut ch, 1).unwrap();
    tx.try_send(&mut ch, 2).unwrap();
    assert_eq!(ready_values(&mut rx, &mut ch), [1, 2]);

    tx.try_send(&mut ch, 3).unwrap();
    tx.try_send(&mut ch, 4).unwrap();
    tx.close(&mut ch);
    assert_eq!(all_values(&mut rx, &mut ch), [3, 4]);

    let (mut ch, mut tx, mut rx) = channel(1);
    tx.try_send(&mut ch, 5).unwrap();
    tx.close(&mut ch);
    assert_eq!(all_values(&mut rx, &mut ch), [5]);
}

#[test]
fn mpmc_configuration_is_validated() {
    assert_eq!(try_channel::<u8>(0).err(), Some(ChannelError::ZeroCapacity));
    assert_eq!(
        try_channel::<u8>(MAX_CAPACITY_PER_SENDER + 1).err(),
        Some(ChannelError::CapacityTooLarge {
            requested: MAX_CAPACITY_PER_SENDER + 1,
            max: MAX_CAPACITY_PER_SENDER,
        })
    );
    let (ch, tx, rx) = try_channel::<u8>(3).ok().unwrap();
    assert_eq!(tx.capacity(&ch), 4);
    assert_eq!(rx.capacity_per_sender(), 4);
}

#[test]
fn mpmc_registration_fails_after_the_last_receiver() {
    let (mut ch, tx, rx) = channel::<u8>(1);
    assert!(!rx.is_disconnected(&ch));
    rx.close(&mut ch);
    assert_eq!(
        tx.try_register(&mut ch).unwrap_err(),
        TryRegisterError::Disconnected
    );
    assert!(tx.try_clone(&mut ch).is_none());
}

struct DropCount(Arc<AtomicUsize>);

impl Drop for DropCount {
    fn drop(&mut self) {
        self.0.fetch_add(1, Ordering::Relaxed);
    }
}

#[test]
fn non_copy_items_drop_once_across_receiver_handoff() {
    let drops = Arc::new(AtomicUsize::new(0));
    let (mut ch, mut tx, mut rx0) = channel(128);
    let rx1 = rx0.clone(&mut ch);
    for _ in 0..65 {
        tx.try_send(&mut ch, DropCount(drops.clone()))
            .unwrap_or_else(|_| unreachable!());
    }

    drop(rx0.try_recv(&mut ch).unwrap_or_else(|_| unreachable!()));
    rx0.close(&mut ch);
    rx1.close(&mut ch);
    tx.close(&mut ch);

    assert_eq!(drops.load(Ordering::Relaxed), 65);
}

#[test]
fn stalled_receiver_does_not_strand_its_sender_lane() {
    let (mut ch, mut tx, mut stalled) = channel(64);
    let mut worker = stalled.clone(&mut ch);
    for value in 0..64 {
        tx.try_send(&mut ch, value).unwrap();
    }
    assert_eq!(stalled.try_recv(&mut ch), Ok(0));
    tx.close(&mut ch);

    for expected in 1..64 {
        assert_eq!(recv(&mut worker, &mut ch), Ok(expected));
    }
    assert_eq!(recv(&mut worker, &mut ch), Err(RecvError));
}

#[test]
fn busy_lane_cannot_hide_ready_lane() {
    let (mut ch, mut busy, mut rx) = channel(128);
    let mut sparse = busy.try_clone(&mut ch).unwrap();
    for value in 0..128 {
        busy.try_send(&mut ch, (0, value)).unwrap();
    }
    sparse.try_send(&mut ch, (1, 0)).unwrap();

    assert!((0..=64).any(|_| rx.try_recv(&mut ch).unwrap().0 == 1));
}

#[test]
fn randomized_endpoint_churn_preserves_exact_reachability() {
    let (mut ch, mut root, rx0) = channel(128);
    let mut pending = BTreeSet::new();
    for value in 0..65 {
        root.try_send(&mut ch, value).unwrap();
        pending.insert(value);
    }

    let mut senders = vec![root];
    let mut receivers = vec![rx0];
    let mut next_value = 65;
    let mut random = 0xd1b5_4a32_d192_ed03;

    for _ in 0..100_000 {
        match next_random(&mut random) % 8 {
            0 if senders.len() < 8 => {
                let source = next_random(&mut random) % senders.len();
                let tx = senders[source].try_clone(&mut ch).unwrap();
                senders.push(tx);
            }
            1 if senders.len() > 1 => {
                let sender = next_random(&mut random) % senders.len();
                senders.swap_remove(sender).close(&mut ch);
            }
            2 if receivers.len() < 8 => {
                let source = next_random(&mut random) % receivers.len();
                let rx = receivers[source].clone(&mut ch);
                receivers.push(rx);
            }
            3 if receivers.len() > 1 => {
                let receiver = next_random(&mut random) % receivers.len();
                receivers.swap_remove(receiver).close(&mut ch);
            }
            4 | 5 => {
                let sender = next_random(&mut random) % senders.len();
                match senders[sender].try_send(&mut ch, next_value) {
                    Ok(()) => {
                        assert!(pending.insert(next_value));
                        next_value += 1;
                    }
                    Err(TrySendError::Full(returned)) => {
                        assert_eq!(returned, next_value);
                    }
                    Err(TrySendError::Disconnected(_)) => {
                        panic!("at least one receiver remains alive")
                    }
                }
            }
            _ => {
                let receiver = next_random(&mut random) % receivers.len();
                match receivers[receiver].try_recv(&mut ch) {
                    Ok(value) => assert!(pending.remove(&value), "duplicate value {value}"),
                    Err(TryRecvError::Empty) if !pending.is_empty() => {
                        let mut reached = false;
                        for _ in 0..128 {
                            let receiver = next_random(&mut random) % receivers.len();
                            match receivers[receiver].try_recv(&mut ch) {
                                Ok(value) => {
                                    assert!(pending.remove(&value), "duplicate value {value}");
                                    reached = true;
                                    break;
                                }
                                Err(TryRecvError::Empty) => {}
                                Err(TryRecvError::Disconnected) => {
                                    panic!("{0} values remain unconsumed", pending.len())
                                }
                            }
                        }
                        assert!(reached, "{0} values remain unreachable", pending.len());
                    }
                    Err(TryRecvError::Empty) => {}
                    Err(TryRecvError::Disconnected) => {
                        panic!("at least one sender remains alive")
                    }
                }
            }
        }
    }

    for tx in senders {
        tx.close(&mut ch);
    }
    let mut empty_polls = 0;
    while !pending.is_empty() {
        let mut progress = false;
        for rx in &mut receivers {
            match rx.try_recv(&mut ch) {
                Ok(value) => {
                    assert!(pending.remove(&value), "duplicate value {value}");
                    progress = true;
                }
                Err(TryRecvError::Empty) => {}
                Err(TryRecvError::Disconnected) => assert!(pending.is_empty()),
            }
        }
        if progress {
            empty_polls = 0;
        } else {
            empty_polls += 1;
            assert!(
                empty_polls < 1_000,
                "{0} values remain unreachable",
                pending.len()
            );
        }
    }

    for rx in &mut receivers {
        loop {
            match rx.try_recv(&mut ch) {
                Ok(value) => panic!("unexpected value {value}"),
                Err(TryRecvError::Empty) => {}
                Err(TryRecvError::Disconnected) => break,
            }
        }
    }
}

#[test]
fn mpmc_stress_sender_slots_reuse_across_ready_page_boundaries() {
    const DYNAMIC_SENDERS: usize = 129;
    const ROUNDS: usize = 4;

    let (mut ch, root, mut rx) = channel(2);
    let mut expected_slots = None;

    for round in 0..ROUNDS {
        let mut senders = (0..DYNAMIC_SENDERS)
            .map(|_| root.try_clone(&mut ch).unwrap())
            .collect::<Vec<_>>();
        let mut slots = senders.iter().map(Sender::lane_id).collect::<Vec<_>>();
        slots.sort_unstable();
        assert!(slots.last().copied().unwrap() >= 129);
        if let Some(expected) = &expected_slots {
            assert_eq!(&slots, expected);
        } else {
            expected_slots = Some(slots);
        }

        for (sender, tx) in senders.iter_mut().enumerate() {
            send(tx, &mut ch, round * DYNAMIC_SENDERS + sender).unwrap();
        }
        for tx in senders {
            tx.close(&mut ch);
        }

        let mut values = (0..DYNAMIC_SENDERS)
            .map(|_| recv(&mut rx, &mut ch).unwrap())
            .collect::<Vec<_>>();
        values.sort_unstable();
        assert_eq!(
            values,
            (round * DYNAMIC_SENDERS..(round + 1) * DYNAMIC_SENDERS).collect::<Vec<_>>()
        );
    }
}

#[test]
fn sparse_lane_on_later_ready_page_is_not_starved() {
    let (mut ch, mut busy, mut rx) = channel(256);
    let mut senders = (0..128)
        .map(|_| busy.try_clone(&mut ch).unwrap())
        .collect::<Vec<_>>();
    let sparse = senders.last_mut().unwrap();

    for value in 0..256 {
        busy.try_send(&mut ch, (0, value)).unwrap();
    }
    sparse.try_send(&mut ch, (1, 0)).unwrap();

    let sparse_position = (0..=128)
        .position(|_| rx.try_recv(&mut ch).unwrap().0 == 1)
        .expect("later ready page must be activated");
    assert!(sparse_position <= 128);
}

#[test]
fn mpmc_stress_blocked_receiver_finds_sender_added_in_second_ready_group() {
    const FIRST_GROUP_LANES: usize = 64 * 64;

    let (mut ch, root, mut rx) = channel(1);
    let mut existing = Vec::with_capacity(FIRST_GROUP_LANES);
    existing.push(root);
    for _ in 1..FIRST_GROUP_LANES {
        let tx = existing[0].try_clone(&mut ch).unwrap();
        existing.push(tx);
    }
    assert_eq!(existing.last().unwrap().lane_id(), FIRST_GROUP_LANES - 1);
    assert_eq!(rx.try_recv(&mut ch), Err(TryRecvError::Empty));

    let mut attempt = 0;
    let wait = loop {
        match rx.recv(&mut ch, attempt) {
            RecvProgress::Spin => attempt += 1,
            RecvProgress::Park(wait) => break wait,
            RecvProgress::Done(_) => panic!("nothing was sent"),
        }
    };
    assert!(rx.park(&mut ch, &wait));

    let mut newest = existing[0].try_clone(&mut ch).unwrap();
    assert_eq!(newest.lane_id(), FIRST_GROUP_LANES);
    send(&mut newest, &mut ch, 42).unwrap();

    assert!(!rx.park(&mut ch, &wait));
    assert_eq!(recv(&mut rx, &mut ch), Ok(42));
}

#[test]
fn mpmc_stress_busy_first_group_cannot_starve_sparse_second_group() {
    const SECOND_GROUP_SLOT: usize = 64 * 64;

    let (mut ch, mut busy, mut rx) = channel(256);
    let mut other_senders = (0..SECOND_GROUP_SLOT)
        .map(|_| busy.try_clone(&mut ch).unwrap())
        .collect::<Vec<_>>();
    let sparse = other_senders.last_mut().unwrap();
    assert_eq!(sparse.lane_id(), SECOND_GROUP_SLOT);

    for sequence in 0..256 {
        busy.try_send(&mut ch, (0, sequence)).unwrap();
    }
    assert_eq!(rx.try_recv(&mut ch), Ok((0, 0)));
    sparse.try_send(&mut ch, (1, 0)).unwrap();

    let sparse_position = (0..=128)
        .position(|_| rx.try_recv(&mut ch).unwrap().0 == 1)
        .expect("second ready group must be claimed");
    assert!(sparse_position <= 128);
}

#[test]
fn mpmc_stress_sender_slots_reuse_across_ready_group_boundary() {
    const DYNAMIC_SENDERS: usize = 64 * 64;
    const ROUNDS: usize = 2;

    let (mut ch, root, mut rx) = channel(1);
    let mut expected_slots = None;

    for round in 0..ROUNDS {
        let mut senders = (0..DYNAMIC_SENDERS)
            .map(|_| root.try_clone(&mut ch).unwrap())
            .collect::<Vec<_>>();
        let mut slots = senders.iter().map(Sender::lane_id).collect::<Vec<_>>();
        slots.sort_unstable();
        assert_eq!(slots.first(), Some(&1));
        assert_eq!(slots.last(), Some(&DYNAMIC_SENDERS));
        if let Some(expected) = &expected_slots {
            assert_eq!(&slots, expected);
        } else {
            expected_slots = Some(slots);
        }

        for (sender, tx) in senders.iter_mut().enumerate() {
            tx.try_send(&mut ch, round * DYNAMIC_SENDERS + sender).unwrap();
        }
        for tx in senders {
            tx.close(&mut ch);
        }

        let mut values = (0..DYNAMIC_SENDERS)
            .map(|_| recv(&mut rx, &mut ch).unwrap())
            .collect::<Vec<_>>();
        values.sort_unstable();
        assert_eq!(
            values,
            (round * DYNAMIC_SENDERS..(round + 1) * DYNAMIC_SENDERS).collect::<Vec<_>>()
        );
        assert_eq!(rx.try_recv(&mut ch), Err(TryRecvError::Empty));
    }
}

#[test]
fn full_ready_page_requeues_without_overflow_or_loss() {
    const SENDERS: usize = 64;
    const MESSAGES_PER_LANE: usize = 65;

    for receiver_count in [1, 2, 8, 64] {
        let total = SENDERS * MESSAGES_PER_LANE;
        let mut seen = vec![0; total];
        let (mut ch, tx0, rx0) = channel(128);
        let mut senders = vec![tx0];
        for _ in 1..SENDERS {
            let tx = senders[0].try_clone(&mut ch).unwrap();
            senders.push(tx);
        }
        let mut receivers = vec![rx0];
        for _ in 1..receiver_count {
            let rx = receivers[0].clone(&mut ch);
            receivers.push(rx);
        }

        for (sender, tx) in senders.iter_mut().enumerate() {
            for sequence in 0..MESSAGES_PER_LANE {
                tx.try_send(&mut ch, sender * MESSAGES_PER_LANE + sequence)
                    .unwrap();
            }
        }
        for tx in senders {
            tx.close(&mut ch);
        }

        let mut turn = 0;
        let mut ended = 0;
        while ended < receiver_count {
            match recv(&mut receivers[turn % receiver_count], &mut ch) {
                Ok(value) => {
                    seen[value] += 1;
                    ended = 0;
                }
                Err(RecvError) => ended += 1,
            }
            turn += 1;
        }
        assert!(seen.iter().all(|count| *count == 1));
    }
}

#[test]
fn requeue_new_page_after_acquiring_through_stale_topology() {
    fn check_new_page_requeue<P: Teardown>() {
        let (mut ch, tx, mut rx) = channel_with_policy::<_, P>(PREFETCH_LIMIT + 1);
        let mut senders = vec![tx];
        for _ in 0..LANES_PER_PAGE {
            let tx = senders[0].try_clone(&mut ch).unwrap();
            senders.push(tx);
        }
        assert_eq!(senders.last().unwrap().lane_id(), LANES_PER_PAGE);
        for value in 0..=PREFETCH_LIMIT {
            senders.last_mut().unwrap().try_send(&mut ch, value).unwrap();
        }

        // One value remains in the newly registered ring after the first batch,
        // forcing the lane to be queued again.
        for expected in 0..=PREFETCH_LIMIT {
            assert_eq!(rx.try_recv(&mut ch), Ok(expected));
        }
        for tx in senders {
            tx.close(&mut ch);
        }
        assert_eq!(recv(&mut rx, &mut ch), Err(RecvError));
    }
    check_new_page_requeue::<Deferred>();
    check_new_page_requeue::<Coordinated>();
}

#[test]
fn a_receiver_sleeps_only_when_nothing_is_there() {
    let (mut ch, root, mut rx) = channel(1);
    let senders = (0..600)
        .map(|_| root.try_clone(&mut ch).unwrap())
        .collect::<Vec<_>>();
    let mut last = root.try_clone(&mut ch).unwrap();
    for tx in senders {
        tx.close(&mut ch);
    }
    last.try_send(&mut ch, 7).unwrap();
    let mut attempt = 1_000;
    loop {
        match rx.recv(&mut ch, attempt) {
            RecvProgress::Done(result) => {
                assert_eq!(result, Ok(7));
                break;
            }
            RecvProgress::Spin => attempt += 1,
            RecvProgress::Park(_) => panic!("a value is there"),
        }
    }
}

#[test]
fn a_deadline_does_not_hide_a_value() {
    let (mut ch, root, mut rx) = channel(1);
    let senders = (0..20)
        .map(|_| root.try_clone(&mut ch).unwrap())
        .collect::<Vec<_>>();
    let mut last = root.try_clone(&mut ch).unwrap();
    for tx in senders {
        tx.close(&mut ch);
    }
    last.try_send(&mut ch, 7).unwrap();
    assert_eq!(recv_deadline(&mut rx, &mut ch), Ok(7));
}

#[test]
fn staged_values_wake_sleeping_receivers() {
    let (mut ch, mut tx, mut rx0) = channel(4);
    let mut rx1 = rx0.clone(&mut ch);
    let RecvProgress::Park(wait) = rx1.recv(&mut ch, 1_000) else {
        panic!("nothing was sent");
    };
    assert!(rx1.park(&mut ch, &wait));
    tx.try_send(&mut ch, 1).unwrap();
    tx.try_send(&mut ch, 2).unwrap();
    assert!(!rx1.park(&mut ch, &wait));
    let RecvProgress::Park(wait) = ({
        assert_eq!(rx1.try_recv(&mut ch), Ok(1));
        assert_eq!(rx0.try_recv(&mut ch), Ok(2));
        rx1.recv(&mut ch, 1_000)
    }) else {
        panic!("nothing is left");
    };
    tx.try_send(&mut ch, 3).unwrap();
    let state = ch.data_waiters.state;
    tx.try_send(&mut ch, 4).unwrap();
    assert_eq!(ch.data_waiters.state, state);
    assert_eq!(rx0.try_recv(&mut ch), Ok(3));
    assert_ne!(ch.data_waiters.state, state);
    assert!(!rx1.park(&mut ch, &wait));
    assert_eq!(rx1.try_recv(&mut ch), Ok(4));
}

#[test]
fn a_sleeping_receiver_can_leave() {
    let (mut ch, _tx, mut rx) = channel::<u8>(1);
    let RecvDeadlineProgress::Park(wait) = rx.recv_deadline(&mut ch, false) else {
        panic!("nothing was sent");
    };
    assert_eq!(ch.data_waiters.waiters, 1);
    rx.unpark(&mut ch, &wait);
    assert_eq!(ch.data_waiters.waiters, 0);
}

#[test]
fn own_work_then_left_behind_then_rings_then_stealing() {
    let (mut ch, mut tx, mut rx0) = channel(64);
    let mut rx1 = rx0.clone(&mut ch);
    let mut rx2 = rx0.clone(&mut ch);
    for value in 0..10 {
        tx.try_send(&mut ch, value).unwrap();
    }
    assert_eq!(rx0.try_recv(&mut ch), Ok(0));
    assert_eq!(rx1.try_recv(&mut ch), Ok(1));
    rx1.close(&mut ch);
    tx.try_send(&mut ch, 10).unwrap();
    assert_eq!(rx0.try_recv(&mut ch), Ok(6));
    for value in 2..6 {
        assert_eq!(rx2.try_recv(&mut ch), Ok(value));
    }
    assert_eq!(rx2.try_recv(&mut ch), Ok(10));
    assert_eq!(rx2.try_recv(&mut ch), Ok(7));
    assert_eq!(rx2.try_recv(&mut ch), Ok(8));
    assert_eq!(rx0.try_recv(&mut ch), Ok(9));
    assert_eq!(rx0.try_recv(&mut ch), Err(TryRecvError::Empty));
}

#[test]
fn batches_and_steals_are_bounded() {
    let (mut ch, mut tx, mut rx0) = channel(256);
    let mut rx1 = rx0.clone(&mut ch);
    for value in 0..100 {
        tx.try_send(&mut ch, value).unwrap();
    }
    assert_eq!(rx0.try_recv(&mut ch), Ok(0));
    assert_eq!(ch.receivers[0].as_ref().unwrap().local.len(), 63);
    for value in 64..100 {
        assert_eq!(rx1.try_recv(&mut ch), Ok(value));
    }
    assert_eq!(rx1.try_recv(&mut ch), Ok(1));
    assert_eq!(ch.receivers[0].as_ref().unwrap().local.len(), 55);
    assert_eq!(ch.receivers[1].as_ref().unwrap().local.len(), 7);
    assert_eq!(rx1.try_recv(&mut ch), Ok(2));
    assert_eq!(rx0.try_recv(&mut ch), Ok(9));
}

#[test]
fn a_sole_receiver_shares_its_work_when_it_is_cloned() {
    let (mut ch, mut tx, mut rx0) = channel(16);
    for value in 0..10 {
        tx.try_send(&mut ch, value).unwrap();
    }
    assert_eq!(rx0.try_recv(&mut ch), Ok(0));
    assert_eq!(ch.receivers[0].as_ref().unwrap().private.len(), 9);
    let rx1 = rx0.clone(&mut ch);
    assert_eq!(rx1.id, 1);
    assert_eq!(ch.receivers[0].as_ref().unwrap().private.len(), 0);
    assert_eq!(ch.receivers[0].as_ref().unwrap().local.len(), 9);
    assert_eq!(ch.receivers[1].as_ref().unwrap().local.len(), 0);
    for value in 1..10 {
        assert_eq!(rx0.try_recv(&mut ch), Ok(value));
    }
}

#[test]
fn marked_and_queued_lanes_come_first_in_turn() {
    let (mut ch, mut a, mut rx) = channel(256);
    let mut b = a.try_clone(&mut ch).unwrap();
    let mut c = a.try_clone(&mut ch).unwrap();
    for n in 0..192 {
        a.try_send(&mut ch, (0, n)).unwrap();
        b.try_send(&mut ch, (1, n)).unwrap();
    }
    for lane in 0..2 {
        for n in 0..64 {
            assert_eq!(rx.try_recv(&mut ch), Ok((lane, n)));
        }
    }
    c.try_send(&mut ch, (2, 0)).unwrap();
    assert_eq!(rx.try_recv(&mut ch), Ok((2, 0)));
    c.try_send(&mut ch, (2, 1)).unwrap();
    for n in 64..128 {
        assert_eq!(rx.try_recv(&mut ch), Ok((0, n)));
    }
    assert_eq!(rx.try_recv(&mut ch), Ok((2, 1)));
    assert_eq!(rx.try_recv(&mut ch), Ok((1, 64)));
}

#[test]
fn the_page_that_gave_a_lane_comes_last() {
    let (mut ch, mut first, mut rx) = channel(4);
    let mut others = (0..128)
        .map(|_| first.try_clone(&mut ch).unwrap())
        .collect::<Vec<_>>();
    first.try_send(&mut ch, 0).unwrap();
    others[LANES_PER_PAGE - 1].try_send(&mut ch, 64).unwrap();
    others[2 * LANES_PER_PAGE - 1].try_send(&mut ch, 128).unwrap();
    assert_eq!(rx.try_recv(&mut ch), Ok(0));
    first.try_send(&mut ch, 1).unwrap();
    assert_eq!(rx.try_recv(&mut ch), Ok(64));
    assert_eq!(rx.try_recv(&mut ch), Ok(128));
    assert_eq!(rx.try_recv(&mut ch), Ok(1));
}

#[test]
fn sent_value_is_received_at_once() {
    let (mut ch, tx, mut rx) = channel(2);
    let mut senders = vec![tx];
    for _ in 1..LANES_PER_PAGE {
        let tx = senders[0].try_clone(&mut ch).unwrap();
        senders.push(tx);
    }
    for (value, tx) in senders.iter_mut().enumerate().rev() {
        tx.try_send(&mut ch, value).unwrap();
        assert_eq!(rx.try_recv(&mut ch), Ok(value));
        assert_eq!(rx.try_recv(&mut ch), Err(TryRecvError::Empty));
    }
}

#[test]
fn rest_of_a_batch_goes_where_the_receivers_find_it() {
    for clones in [false, true] {
        let (mut ch, mut tx, mut rx) = channel(8);
        let other = if clones {
            Some(rx.clone(&mut ch))
        } else {
            None
        };
        for value in 0..4 {
            tx.try_send(&mut ch, value).unwrap();
        }
        assert_eq!(rx.try_recv(&mut ch), Ok(0));
        match other {
            Some(mut other) => {
                rx.close(&mut ch);
                assert_eq!(ready_values(&mut other, &mut ch), [1, 2, 3]);
            }
            None => {
                let mut other = rx.clone(&mut ch);
                assert_eq!(ready_values(&mut other, &mut ch), [1, 2, 3]);
            }
        }
    }
}

#[test]
fn refused_sends_leave_the_values_in_order() {
    let (mut ch, mut tx, mut rx) = channel(2);
    tx.try_send(&mut ch, 0).unwrap();
    tx.try_send(&mut ch, 1).unwrap();
    for _ in 0..3 {
        assert_eq!(tx.try_send(&mut ch, 9), Err(TrySendError::Full(9)));
        let Err(SendTimeoutError::Timeout(back)) = send_deadline(&mut tx, &mut ch, 9) else {
            panic!("no slot is left");
        };
        assert_eq!(back, 9);
    }
    let SendProgress::Park(back, wait) = tx.send(&mut ch, 9, 1_000) else {
        panic!("no slot is left");
    };
    assert_eq!(back, 9);
    assert!(tx.park(&mut ch, &wait));
    tx.unpark(&mut ch, &wait);
    assert_eq!(ready_values(&mut rx, &mut ch), [0, 1]);
}

#[test]
fn mpmc_disconnection_is_reported_again() {
    let (mut ch, mut tx, mut rx) = channel(4);
    tx.try_send(&mut ch, 1).unwrap();
    tx.close(&mut ch);
    let mut other = rx.clone(&mut ch);
    assert_eq!(recv(&mut other, &mut ch), Ok(1));
    for _ in 0..3 {
        assert_eq!(rx.try_recv(&mut ch), Err(TryRecvError::Disconnected));
        assert_eq!(other.try_recv(&mut ch), Err(TryRecvError::Disconnected));
        let next = other.clone(&mut ch);
        other.close(&mut ch);
        other = next;
        assert_eq!(
            recv_deadline(&mut other, &mut ch),
            Err(RecvTimeoutError::Disconnected)
        );
        assert_eq!(recv(&mut rx, &mut ch), Err(RecvError));
    }
}

#[test]
fn allocated_slots_have_their_page() {
    let (mut ch, tx, mut rx) = channel::<u8>(1);
    let mut senders = vec![tx];
    for _ in 2..LANES_PER_PAGE {
        let tx = senders[0].try_clone(&mut ch).unwrap();
        senders.push(tx);
    }
    senders.swap_remove(5).close(&mut ch);
    assert_eq!(rx.try_recv(&mut ch), Err(TryRecvError::Empty));
    let reused = ch.allocate_lane();
    assert_eq!(reused, (LaneKey { slot: 5, generation: 1 }, 0, false));

    for (taken, expected) in [(63, (63, 0, false)), (64, (64, 1, true)), (65, (65, 1, false))] {
        let (mut ch, tx, _rx) = channel::<u8>(1);
        let mut senders = vec![tx];
        while senders.len() < taken {
            let tx = senders[0].try_clone(&mut ch).unwrap();
            senders.push(tx);
        }
        let (key, page, added) = ch.allocate_lane();
        assert_eq!((key.slot, page, added), expected);
        assert_eq!(key.generation, 0);
    }
}

fn steal_cursor<T>(ch: &Channel<T>, place: usize) -> usize {
    ch.receivers[place].as_ref().unwrap().steal_cursor
}

#[test]
fn steals_rotate_over_the_receivers_that_are_left() {
    let (mut ch, mut tx, mut rx0) = channel(8);
    let mut rx1 = rx0.clone(&mut ch);
    let rx2 = rx0.clone(&mut ch);
    let mut rx3 = rx0.clone(&mut ch);
    for value in [10, 11, 12] {
        tx.try_send(&mut ch, value).unwrap();
    }
    assert_eq!(rx1.try_recv(&mut ch), Ok(10));
    for value in [30, 31, 32] {
        tx.try_send(&mut ch, value).unwrap();
    }
    assert_eq!(rx3.try_recv(&mut ch), Ok(30));
    rx2.close(&mut ch);

    assert_eq!(rx0.try_recv(&mut ch), Ok(11));
    assert_eq!(steal_cursor(&ch, 0), 2);
    assert_eq!(rx0.try_recv(&mut ch), Ok(12));
    assert_eq!(steal_cursor(&ch, 0), 2);
    assert_eq!(rx0.try_recv(&mut ch), Ok(31));
    assert_eq!(steal_cursor(&ch, 0), 3);
    assert_eq!(rx0.try_recv(&mut ch), Ok(32));
    assert_eq!(rx0.try_recv(&mut ch), Err(TryRecvError::Empty));
    assert_eq!(steal_cursor(&ch, 0), 1);
    assert_eq!(rx0.try_recv(&mut ch), Err(TryRecvError::Empty));
    assert_eq!(steal_cursor(&ch, 0), 2);
    assert_eq!(rx0.try_recv(&mut ch), Err(TryRecvError::Empty));
    assert_eq!(steal_cursor(&ch, 0), 0);

    let mut rx4 = rx0.clone(&mut ch);
    assert_eq!(rx4.id, 2);
    assert_eq!(steal_cursor(&ch, 2), 0);
    assert_eq!(rx4.try_recv(&mut ch), Err(TryRecvError::Empty));
    assert_eq!(steal_cursor(&ch, 2), 1);
}

fn fall_asleep<T>(rx: &mut Receiver, ch: &mut Channel<T>) -> MultiWaitRegistration {
    match rx.recv(ch, 1_000) {
        RecvProgress::Park(wait) => wait,
        _ => panic!("receiver would not sleep"),
    }
}

#[test]
fn steps_signal_one_receiver_or_all() {
    let (mut ch, mut tx, mut rx0) = channel(8);
    let mut others = [rx0.clone(&mut ch), rx0.clone(&mut ch), rx0.clone(&mut ch)];
    let wait = fall_asleep(&mut rx0, &mut ch);
    for rx in &mut others {
        let _ = fall_asleep(rx, &mut ch);
    }
    assert_eq!(ch.take_signals(), 0);

    tx.try_send(&mut ch, 1).unwrap();
    assert_eq!(ch.take_signals(), 1);
    tx.try_send(&mut ch, 2).unwrap();
    assert_eq!(ch.take_signals(), 0);
    assert!(!rx0.park(&mut ch, &wait));

    assert_eq!(rx0.try_recv(&mut ch), Ok(1));
    assert_eq!(ch.take_signals(), 3);
    assert_eq!(rx0.try_recv(&mut ch), Ok(2));
    assert_eq!(ch.take_signals(), 0);

    let second = tx.try_clone(&mut ch).unwrap();
    assert_eq!(ch.take_signals(), 0);
    second.close(&mut ch);
    assert_eq!(ch.take_signals(), 1);
    tx.close(&mut ch);
    assert_eq!(ch.take_signals(), 3);
    while rx0.try_recv(&mut ch) == Err(TryRecvError::Empty) {}
    assert_eq!(ch.take_signals(), 3);
    rx0.close(&mut ch);
    assert_eq!(ch.take_signals(), 3);
}

#[test]
fn disconnection_follows_the_values_after_the_upkeep() {
    let (mut ch, mut tx, mut rx0) = channel(4);
    let mut rx1 = rx0.clone(&mut ch);
    let clones = (0..150).map(|_| tx.try_clone(&mut ch).unwrap()).collect::<Vec<_>>();
    for value in 0..3 {
        tx.try_send(&mut ch, value).unwrap();
    }
    for clone in clones {
        clone.close(&mut ch);
    }
    tx.close(&mut ch);

    // 151 lanes on three pages can be dry.
    let upkeep = 2 * 151 + 3;
    let mut values = Vec::new();
    let mut tries = 0;
    loop {
        tries += 1;
        let rx = if tries % 2 == 0 { &mut rx1 } else { &mut rx0 };
        match rx.recv(&mut ch, 1_000) {
            RecvProgress::Done(Ok(value)) => values.push(value),
            RecvProgress::Done(Err(RecvError)) => break,
            RecvProgress::Spin => {}
            RecvProgress::Park(_) => panic!("no sender is left to wake it"),
        }
    }
    values.sort_unstable();
    assert_eq!(values, [0, 1, 2]);
    assert!(2 * (tries - 1) <= upkeep + 3 * values.len());
    assert_eq!(rx0.try_recv(&mut ch), Err(TryRecvError::Disconnected));
    assert_eq!(rx1.try_recv(&mut ch), Err(TryRecvError::Disconnected));
}
