use fanring::error::{RecvError, SendError, TryRecvError, TryRegisterBoundedError};
use fanring::mpsc::asynchronous::Poll;
use fanring::mpsc::{channel, Channel, Sender};

/// Whether the sender's lane holds a waker.
fn sender_waits<T>(ch: &Channel<T>, tx: &Sender) -> bool {
    ch.lanes[tx.lane_id()]
        .as_ref()
        .is_some_and(|lane| lane.signal.space_waiter.waker)
}

#[test]
fn capacity_wakes_only_its_producer_and_cancel_releases_registration() {
    let (mut ch, mut first, mut rx) = channel(1);
    let mut second = first.try_clone(&mut ch).unwrap();
    first.try_send(&mut ch, 1).unwrap();
    second.try_send(&mut ch, 2).unwrap();
    let mut send = Some(3);
    let mut other = Some(4);
    assert_eq!(first.poll_send(&mut ch, &mut send), Poll::Pending);
    assert_eq!(second.poll_send(&mut ch, &mut other), Poll::Pending);
    assert!(sender_waits(&ch, &first));
    assert!(sender_waits(&ch, &second));
    assert_eq!(rx.try_recv(&mut ch), Ok(1));
    assert!(!sender_waits(&ch, &first));
    assert!(sender_waits(&ch, &second));
    assert_eq!(
        first.poll_send(&mut ch, &mut send),
        Poll::Ready(Ok(()))
    );
    let next = rx.try_recv(&mut ch).unwrap();
    if next == 3 {
        assert_eq!(rx.try_recv(&mut ch), Ok(2));
    } else {
        assert_eq!(next, 2);
    }
    assert!(!sender_waits(&ch, &second));
}

#[test]
fn canceled_send_and_receive_do_not_consume_capacity_or_keep_wakers() {
    let (mut ch, mut tx, mut rx) = channel(1);
    assert_eq!(rx.poll_recv(&mut ch), Poll::Pending);
    assert!(ch.data_waiter.waker);
    rx.cancel_recv_wait(&mut ch);
    assert!(!ch.data_waiter.waker);
    tx.try_send(&mut ch, 1).unwrap();
    let mut send = Some(2);
    assert_eq!(tx.poll_send(&mut ch, &mut send), Poll::Pending);
    assert_eq!(send, Some(2));
    tx.cancel_send_wait(&mut ch);
    assert!(!sender_waits(&ch, &tx));
    assert_eq!(rx.try_recv(&mut ch), Ok(1));
    assert_eq!(tx.try_send(&mut ch, 3), Ok(()));
    assert_eq!(rx.try_recv(&mut ch), Ok(3));
    assert_eq!(rx.try_recv(&mut ch), Err(TryRecvError::Empty));
}

#[test]
fn registration_final_disconnect_and_receiver_drop_wake_waiters() {
    let (mut ch, tx, mut rx) = channel(1);
    assert_eq!(rx.poll_recv(&mut ch), Poll::Pending);
    let mut added = tx.try_register(&mut ch).unwrap();
    added.try_send(&mut ch, 7).unwrap();
    assert!(!ch.data_waiter.waker);
    assert_eq!(rx.poll_recv(&mut ch), Poll::Ready(Ok(7)));
    tx.close(&mut ch);
    added.close(&mut ch);
    assert_eq!(rx.poll_recv(&mut ch), Poll::Ready(Err(RecvError)));

    let (mut ch, mut tx, rx) = channel(1);
    tx.try_send(&mut ch, 1).unwrap();
    let mut send = Some(2);
    assert_eq!(tx.poll_send(&mut ch, &mut send), Poll::Pending);
    assert!(sender_waits(&ch, &tx));
    rx.close(&mut ch);
    assert!(!sender_waits(&ch, &tx));
    assert_eq!(
        tx.poll_send(&mut ch, &mut send),
        Poll::Ready(Err(SendError(2)))
    );
}

#[test]
fn endpoint_drop_releases_manual_poll_wakers_while_other_endpoint_lives() {
    let (mut ch, mut tx, rx) = channel(1);
    tx.try_send(&mut ch, 1).unwrap();
    assert_eq!(tx.poll_ready(&mut ch), Poll::Pending);
    let slot = tx.lane_id();
    assert!(sender_waits(&ch, &tx));
    tx.close(&mut ch);
    assert!(ch.lanes[slot]
        .as_ref()
        .is_none_or(|lane| !lane.signal.space_waiter.waker));
    rx.close(&mut ch);

    let (mut ch, tx, mut rx) = channel::<u8>(1);
    assert_eq!(rx.poll_recv(&mut ch), Poll::Pending);
    assert!(ch.data_waiter.waker);
    rx.close(&mut ch);
    assert!(!ch.data_waiter.waker);
    tx.close(&mut ch);
}

#[test]
fn bounded_registration_counts_retired_rings_until_drained() {
    let (mut ch, tx, mut rx) = channel(1);
    let mut second = tx.try_register_bounded(&mut ch, 2).unwrap();
    second.try_send(&mut ch, 9).unwrap();
    second.close(&mut ch);
    assert_eq!(tx.registered_lanes(&ch), 2);
    assert!(matches!(
        tx.try_register_bounded(&mut ch, 2),
        Err(TryRegisterBoundedError::AtCapacity)
    ));
    assert_eq!(rx.try_recv(&mut ch), Ok(9));
    assert_eq!(rx.try_recv(&mut ch), Err(TryRecvError::Empty));
    assert_eq!(tx.registered_lanes(&ch), 1);
    assert!(tx.try_register_bounded(&mut ch, 2).is_ok());
}

#[test]
fn async_bulk_releases_slots_and_preserves_partial_final_batch() {
    let (mut ch, mut tx, mut rx) = channel(4);
    for n in 0..4 {
        assert_eq!(tx.poll_send(&mut ch, &mut Some(n)), Poll::Ready(Ok(())));
    }
    let mut out = vec![99];
    assert_eq!(
        rx.poll_recv_batch_into(&mut ch, &mut out, 2),
        Poll::Ready(Ok(2))
    );
    assert_eq!(out, [99, 0, 1]);
    assert_eq!(tx.poll_send(&mut ch, &mut Some(4)), Poll::Ready(Ok(())));
    tx.close(&mut ch);
    assert_eq!(
        rx.poll_recv_batch_into(&mut ch, &mut out, 10),
        Poll::Ready(Ok(3))
    );
    assert_eq!(out, [99, 0, 1, 2, 3, 4]);
    assert_eq!(
        rx.poll_recv_batch_into(&mut ch, &mut out, 0),
        Poll::Ready(Ok(0))
    );
    assert_eq!(rx.poll_recv(&mut ch), Poll::Ready(Err(RecvError)));
}

#[test]
fn publication_and_final_drop_racing_registration_cannot_lose_receive() {
    for send_first in [false, true] {
        let (mut ch, mut tx, mut rx) = channel(1);
        if send_first {
            tx.try_send(&mut ch, 7).unwrap();
            tx.close(&mut ch);
            assert_eq!(rx.poll_recv(&mut ch), Poll::Ready(Ok(7)));
        } else {
            assert_eq!(rx.poll_recv(&mut ch), Poll::Pending);
            tx.try_send(&mut ch, 7).unwrap();
            tx.close(&mut ch);
            assert!(!ch.data_waiter.waker);
            assert_eq!(rx.poll_recv(&mut ch), Poll::Ready(Ok(7)));
        }
        assert_eq!(rx.poll_recv(&mut ch), Poll::Ready(Err(RecvError)));
    }
}

#[test]
fn capacity_release_racing_registration_cannot_lose_sender() {
    for release_first in [false, true] {
        let (mut ch, mut tx, mut rx) = channel(1);
        tx.try_send(&mut ch, 1).unwrap();
        if !release_first {
            assert_eq!(tx.poll_ready(&mut ch), Poll::Pending);
            assert!(sender_waits(&ch, &tx));
        }
        assert_eq!(rx.try_recv(&mut ch), Ok(1));
        rx.release_consumed(&mut ch);
        assert!(!sender_waits(&ch, &tx));
        assert_eq!(tx.poll_ready(&mut ch), Poll::Ready(Ok(())));
        tx.try_send(&mut ch, 2).unwrap();
        assert_eq!(rx.try_recv(&mut ch), Ok(2));
    }
}

#[test]
fn receiver_drop_racing_registration_cannot_leave_sender_asleep() {
    for drop_first in [false, true] {
        let (mut ch, mut tx, rx) = channel(1);
        tx.try_send(&mut ch, 1).unwrap();
        if !drop_first {
            assert_eq!(tx.poll_ready(&mut ch), Poll::Pending);
        }
        rx.close(&mut ch);
        assert!(!sender_waits(&ch, &tx));
        assert!(matches!(tx.poll_ready(&mut ch), Poll::Ready(Err(_))));
    }
}
