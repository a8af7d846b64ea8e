use std::sync::atomic::{AtomicUsize, Ordering};
use std::sync::Arc;

use fanring::error::TryRecvError;
use fanring::teardown::{Coordinated, Deferred, Teardown};
use fanring::{mpmc, mpsc};

#[derive(Debug)]
struct Counted {
    id: usize,
    drops: Arc<Vec<AtomicUsize>>,
}

impl Drop for Counted {
    fn drop(&mut self) {
        self.drops[self.id].fetch_add(1, Ordering::Relaxed);
    }
}

fn counters(count: usize) -> Arc<Vec<AtomicUsize>> {
    Arc::new((0..count).map(|_| AtomicUsize::new(0)).collect())
}

fn counted(drops: &Arc<Vec<AtomicUsize>>, id: usize) -> Counted {
    Counted {
        id,
        drops: drops.clone(),
    }
}

fn assert_drops(drops: &[AtomicUsize], expected: usize) {
    for (id, count) in drops.iter().enumerate() {
        assert_eq!(count.load(Ordering::Relaxed), expected, "payload {id}");
    }
}

#[test]
fn mpsc_default_defers_each_lane_until_its_sender_drops() {
    for register in [false, true] {
        let drops = counters(2);
        let (mut ch, mut tx, mut rx) = mpsc::channel(4);
        let mut cloned = tx.try_clone(&mut ch).unwrap();
        if register {
            assert!(rx.try_recv(&mut ch).is_err());
        }
        tx.try_send(&mut ch, counted(&drops, 0)).unwrap();
        cloned.try_send(&mut ch, counted(&drops, 1)).unwrap();
        rx.close(&mut ch);
        assert!(tx.is_disconnected(&ch));
        assert!(cloned.is_disconnected(&ch));
        assert_drops(&drops, 0);
        cloned.close(&mut ch);
        assert_eq!(drops[0].load(Ordering::Relaxed), 0);
        assert_eq!(drops[1].load(Ordering::Relaxed), 1);
        tx.close(&mut ch);
        assert_drops(&drops, 1);
    }
}

#[test]
fn mpmc_default_defers_each_lane_until_its_sender_drops() {
    for register in [false, true] {
        let drops = counters(2);
        let (mut ch, mut tx, mut rx) = mpmc::channel(4);
        let mut cloned = tx.try_clone(&mut ch).unwrap();
        if register {
            assert!(rx.try_recv(&mut ch).is_err());
        }
        tx.try_send(&mut ch, counted(&drops, 0)).unwrap();
        cloned.try_send(&mut ch, counted(&drops, 1)).unwrap();
        rx.close(&mut ch);
        assert!(tx.is_disconnected(&ch));
        assert!(cloned.is_disconnected(&ch));
        assert_drops(&drops, 0);
        cloned.close(&mut ch);
        assert_eq!(drops[0].load(Ordering::Relaxed), 0);
        assert_eq!(drops[1].load(Ordering::Relaxed), 1);
        tx.close(&mut ch);
        assert_drops(&drops, 1);
    }
}

#[test]
fn mpsc_both_policies_preserve_operations_and_sender_disconnect() {
    fn next(rx: &mut mpsc::Receiver, ch: &mut mpsc::Channel<i32>) -> Option<i32> {
        let mut attempt = 0;
        loop {
            match rx.recv(ch, attempt) {
                mpsc::receiver::RecvProgress::Done(result) => return result.ok(),
                mpsc::receiver::RecvProgress::Spin => attempt += 1,
                mpsc::receiver::RecvProgress::Park(_) => panic!("receiver would sleep"),
            }
        }
    }

    fn check<P: Teardown>() {
        let (mut ch, mut tx, mut rx) = mpsc::channel_with_policy::<_, P>(4);
        let mut cloned = tx.try_clone(&mut ch).unwrap();
        match tx.send_deadline(&mut ch, 1, true) {
            mpsc::sender::SendDeadlineProgress::Done(result) => result.unwrap(),
            mpsc::sender::SendDeadlineProgress::Park(_, _) => unreachable!(),
        }
        match cloned.send(&mut ch, 2, 0) {
            mpsc::sender::SendProgress::Done(result) => result.unwrap(),
            _ => panic!("sender would wait"),
        }
        tx.close(&mut ch);
        cloned.close(&mut ch);
        let mut values = Vec::new();
        while let Some(value) = next(&mut rx, &mut ch) {
            values.push(value);
        }
        values.sort_unstable();
        assert_eq!(values, [1, 2]);
        assert_eq!(rx.try_recv(&mut ch), Err(TryRecvError::Disconnected));
        assert_eq!(next(&mut rx, &mut ch), None);
    }
    check::<Deferred>();
    check::<Coordinated>();
}

#[test]
fn mpmc_both_policies_preserve_operations_and_sender_disconnect() {
    fn next(rx: &mut mpmc::Receiver, ch: &mut mpmc::Channel<i32>) -> Option<i32> {
        let mut attempt = 0;
        loop {
            match rx.recv(ch, attempt) {
                mpmc::receiver::RecvProgress::Done(result) => return result.ok(),
                mpmc::receiver::RecvProgress::Spin => attempt += 1,
                mpmc::receiver::RecvProgress::Park(_) => panic!("receiver would sleep"),
            }
        }
    }

    fn check<P: Teardown>() {
        let (mut ch, mut tx, mut rx) = mpmc::channel_with_policy::<_, P>(4);
        let mut cloned = tx.try_clone(&mut ch).unwrap();
        match tx.send_deadline(&mut ch, 1, true) {
            mpmc::sender::SendDeadlineProgress::Done(result) => result.unwrap(),
            mpmc::sender::SendDeadlineProgress::Park(_, _) => unreachable!(),
        }
        match cloned.send(&mut ch, 2, 0) {
            mpmc::sender::SendProgress::Done(result) => result.unwrap(),
            _ => panic!("sender would wait"),
        }
        tx.close(&mut ch);
        cloned.close(&mut ch);
        let mut values = Vec::new();
        while let Some(value) = next(&mut rx, &mut ch) {
            values.push(value);
        }
        values.sort_unstable();
        assert_eq!(values, [1, 2]);
        assert_eq!(rx.try_recv(&mut ch), Err(TryRecvError::Disconnected));
        assert_eq!(next(&mut rx, &mut ch), None);
    }
    check::<Deferred>();
    check::<Coordinated>();
}

#[test]
fn mpsc_queued_reply_disconnects_while_sender_lives() {
    let (mut ch, mut tx, rx) = mpsc::channel_with_policy::<_, Coordinated>(4);
    let (reply_tx, reply_rx) = std::sync::mpsc::channel::<()>();
    tx.try_send(&mut ch, reply_tx).unwrap();
    rx.close(&mut ch);
    assert!(tx.is_disconnected(&ch));
    assert_eq!(
        reply_rx.try_recv(),
        Err(std::sync::mpsc::TryRecvError::Disconnected)
    );
    tx.close(&mut ch);
}

#[test]
fn mpmc_queued_reply_disconnects_while_sender_lives() {
    let (mut ch, mut tx, rx) = mpmc::channel_with_policy::<_, Coordinated>(4);
    let (reply_tx, reply_rx) = std::sync::mpsc::channel::<()>();
    tx.try_send(&mut ch, reply_tx).unwrap();
    rx.close(&mut ch);
    assert!(tx.is_disconnected(&ch));
    assert_eq!(
        reply_rx.try_recv(),
        Err(std::sync::mpsc::TryRecvError::Disconnected)
    );
    tx.close(&mut ch);
}

#[test]
fn mpsc_initial_and_cloned_lanes_drop_unread_values() {
    for register in [false, true] {
        let drops = counters(8);
        let (mut ch, mut tx0, mut rx) = mpsc::channel_with_policy::<_, Coordinated>(4);
        let mut tx1 = tx0.try_clone(&mut ch).unwrap();
        if register {
            assert!(rx.try_recv(&mut ch).is_err());
        }
        for id in 0..4 {
            tx0.try_send(&mut ch, counted(&drops, id)).unwrap();
            tx1.try_send(&mut ch, counted(&drops, id + 4)).unwrap();
        }
        rx.close(&mut ch);
        assert_drops(&drops, 1);
        assert!(tx0.is_disconnected(&ch));
        assert!(tx1.is_disconnected(&ch));
        tx0.close(&mut ch);
        tx1.close(&mut ch);
        assert_drops(&drops, 1);
    }
}

#[test]
fn mpmc_initial_and_cloned_lanes_drop_unread_values() {
    for register in [false, true] {
        let drops = counters(8);
        let (mut ch, mut tx0, mut rx) = mpmc::channel_with_policy::<_, Coordinated>(4);
        let mut tx1 = tx0.try_clone(&mut ch).unwrap();
        if register {
            assert!(rx.try_recv(&mut ch).is_err());
        }
        for id in 0..4 {
            tx0.try_send(&mut ch, counted(&drops, id)).unwrap();
            tx1.try_send(&mut ch, counted(&drops, id + 4)).unwrap();
        }
        rx.close(&mut ch);
        assert_drops(&drops, 1);
        assert!(tx0.is_disconnected(&ch));
        assert!(tx1.is_disconnected(&ch));
        tx0.close(&mut ch);
        tx1.close(&mut ch);
        assert_drops(&drops, 1);
    }
}

#[test]
fn mpsc_partial_batch_drops_only_unread_values() {
    let drops = counters(128);
    let (mut ch, mut tx, mut rx) = mpsc::channel_with_policy::<_, Coordinated>(128);
    for id in 0..128 {
        tx.try_send(&mut ch, counted(&drops, id)).unwrap();
    }
    let received: Vec<_> = (0..3).map(|_| rx.try_recv(&mut ch).unwrap()).collect();
    rx.close(&mut ch);
    for (id, count) in drops.iter().enumerate() {
        let expected = usize::from(!received.iter().any(|value| value.id == id));
        assert_eq!(count.load(Ordering::Relaxed), expected, "payload {id}");
    }
    drop(received);
    assert_drops(&drops, 1);
    tx.close(&mut ch);
    assert_drops(&drops, 1);
}

#[test]
fn mpmc_partial_batch_drops_only_unread_values() {
    let drops = counters(128);
    let (mut ch, mut tx, mut rx) = mpmc::channel_with_policy::<_, Coordinated>(128);
    for id in 0..128 {
        tx.try_send(&mut ch, counted(&drops, id)).unwrap();
    }
    let received: Vec<_> = (0..3).map(|_| rx.try_recv(&mut ch).unwrap()).collect();
    rx.close(&mut ch);
    for (id, count) in drops.iter().enumerate() {
        let expected = usize::from(!received.iter().any(|value| value.id == id));
        assert_eq!(count.load(Ordering::Relaxed), expected, "payload {id}");
    }
    drop(received);
    assert_drops(&drops, 1);
    tx.close(&mut ch);
    assert_drops(&drops, 1);
}

#[test]
fn mpsc_send_racing_close_drops_values_before_sender_drops() {
    for close_first in [false, true] {
        let drops = counters(2);
        let (mut ch, mut tx, rx) = mpsc::channel_with_policy::<_, Coordinated>(2);
        tx.try_send(&mut ch, counted(&drops, 0)).unwrap();
        let value = counted(&drops, 1);
        if close_first {
            rx.close(&mut ch);
            drop(tx.try_send(&mut ch, value));
        } else {
            drop(tx.try_send(&mut ch, value));
            rx.close(&mut ch);
        }
        assert_drops(&drops, 1);
        assert!(tx.is_disconnected(&ch));
        tx.close(&mut ch);
        assert_drops(&drops, 1);
    }
}

#[test]
fn mpmc_send_racing_close_drops_values_before_sender_drops() {
    for close_first in [false, true] {
        let drops = counters(2);
        let (mut ch, mut tx, rx) = mpmc::channel_with_policy::<_, Coordinated>(2);
        tx.try_send(&mut ch, counted(&drops, 0)).unwrap();
        let value = counted(&drops, 1);
        if close_first {
            rx.close(&mut ch);
            drop(tx.try_send(&mut ch, value));
        } else {
            drop(tx.try_send(&mut ch, value));
            rx.close(&mut ch);
        }
        assert_drops(&drops, 1);
        assert!(tx.is_disconnected(&ch));
        tx.close(&mut ch);
        assert_drops(&drops, 1);
    }
}

#[test]
fn mpsc_registration_and_send_racing_close_release_values() {
    for close_first in [false, true] {
        let drops = counters(1);
        let (mut ch, root, rx) = mpsc::channel_with_policy::<_, Coordinated>(2);
        let value = counted(&drops, 0);
        let mut rx = Some(rx);
        if close_first {
            rx.take().unwrap().close(&mut ch);
        }
        let mut child = root.try_clone(&mut ch);
        assert_eq!(child.is_some(), !close_first);
        if let Some(tx) = &mut child {
            drop(tx.try_send(&mut ch, value));
        } else {
            drop(value);
        }
        if let Some(rx) = rx {
            rx.close(&mut ch);
        }
        assert_drops(&drops, 1);
        root.close(&mut ch);
        if let Some(tx) = child {
            tx.close(&mut ch);
        }
        assert_drops(&drops, 1);
    }
}

#[test]
fn mpmc_registration_and_send_racing_close_release_values() {
    for close_first in [false, true] {
        let drops = counters(1);
        let (mut ch, root, rx) = mpmc::channel_with_policy::<_, Coordinated>(2);
        let value = counted(&drops, 0);
        let mut rx = Some(rx);
        if close_first {
            rx.take().unwrap().close(&mut ch);
        }
        let mut child = root.try_clone(&mut ch);
        assert_eq!(child.is_some(), !close_first);
        if let Some(tx) = &mut child {
            drop(tx.try_send(&mut ch, value));
        } else {
            drop(value);
        }
        if let Some(rx) = rx {
            rx.close(&mut ch);
        }
        assert_drops(&drops, 1);
        root.close(&mut ch);
        if let Some(tx) = child {
            tx.close(&mut ch);
        }
        assert_drops(&drops, 1);
    }
}

#[test]
fn nonlast_mpmc_receiver_preserves_private_and_shared_batches() {
    for clone_before_prefetch in [false, true] {
        let drops = counters(128);
        let (mut ch, mut tx, mut rx0) = mpmc::channel_with_policy::<_, Coordinated>(128);
        for id in 0..128 {
            tx.try_send(&mut ch, counted(&drops, id)).unwrap();
        }
        let rx1 = if clone_before_prefetch {
            Some(rx0.clone(&mut ch))
        } else {
            None
        };
        let received = rx0.try_recv(&mut ch).unwrap();
        let mut rx1 = match rx1 {
            Some(rx1) => rx1,
            None => rx0.clone(&mut ch),
        };
        rx0.close(&mut ch);
        assert_drops(&drops, 0);
        assert!(!tx.is_disconnected(&ch));
        // Orphaned work and the partially consumed lane must remain readable.
        let mut received = vec![received];
        received.extend((0..127).map(|_| rx1.try_recv(&mut ch).unwrap()));
        assert_drops(&drops, 0);
        rx1.close(&mut ch);
        assert!(tx.is_disconnected(&ch));
        assert_drops(&drops, 0);
        drop(received);
        assert_drops(&drops, 1);
        tx.close(&mut ch);
        assert_drops(&drops, 1);
    }
}

#[test]
fn last_mpmc_receiver_drops_orphaned_work_and_requeued_lane() {
    let drops = counters(128);
    let (mut ch, mut tx, mut rx0) = mpmc::channel_with_policy::<_, Coordinated>(128);
    let rx1 = rx0.clone(&mut ch);
    for id in 0..128 {
        tx.try_send(&mut ch, counted(&drops, id)).unwrap();
    }
    drop(rx0.try_recv(&mut ch).unwrap());
    rx0.close(&mut ch);
    rx1.close(&mut ch);
    assert_drops(&drops, 1);
    assert!(tx.is_disconnected(&ch));
    tx.close(&mut ch);
    assert_drops(&drops, 1);
}
