//! Races between endpoints. Every operation on a channel is one step, so a race
//! is an order of steps: each test runs its threads in every order.

use std::collections::BTreeMap;

use fanring::error::{
    RecvError, SendError, TryRecvError, TryRegisterError, TrySendError,
};
use fanring::{mpmc, mpsc};

/// A step of a thread. Endpoints are named by numbers.
#[derive(Clone, Copy, Debug)]
enum Op {
    /// Send, waiting for room.
    Send(usize, u32),
    /// Send if there is room.
    TrySend(usize, u32),
    /// Receive, waiting for a value.
    Recv(usize),
    /// Receive if there is a value.
    TryRecv(usize),
    /// Register a sender under a new number.
    CloneTx(usize, usize),
    /// Clone a receiver under a new number.
    CloneRx(usize, usize),
    /// Drop a sender.
    DropTx(usize),
    /// Drop a receiver.
    DropRx(usize),
}

use Op::{CloneRx, CloneTx, DropRx, DropTx, Recv, Send, TryRecv, TrySend};

/// What came of a step.
#[derive(Clone, Copy, Debug, PartialEq, Eq)]
enum Event {
    Sent(Result<(), SendError<u32>>),
    TrySent(Result<(), TrySendError<u32>>),
    Received(Result<u32, RecvError>),
    TryReceived(Result<u32, TryRecvError>),
    Registered(Result<usize, TryRegisterError>),
}

/// How a blocking operation went on.
enum Progress<R, W> {
    Done(R),
    Again,
    Asleep(W),
}

/// A kind of channel.
trait Kind: Sized {
    type Tx;
    type Rx;
    type TxWait;
    type RxWait;

    fn open(capacity: usize) -> (Self, Self::Tx, Self::Rx);
    fn send(
        &mut self,
        tx: &mut Self::Tx,
        value: u32,
    ) -> Progress<Result<(), SendError<u32>>, Self::TxWait>;
    fn send_sleeps(&mut self, tx: &mut Self::Tx, wait: &Self::TxWait) -> bool;
    fn try_send(&mut self, tx: &mut Self::Tx, value: u32) -> Result<(), TrySendError<u32>>;
    fn recv(&mut self, rx: &mut Self::Rx) -> Progress<Result<u32, RecvError>, Self::RxWait>;
    fn recv_sleeps(&mut self, rx: &mut Self::Rx, wait: &Self::RxWait) -> bool;
    fn try_recv(&mut self, rx: &mut Self::Rx) -> Result<u32, TryRecvError>;
    fn clone_tx(&mut self, tx: &Self::Tx) -> Result<Self::Tx, TryRegisterError>;
    fn clone_rx(&mut self, rx: &Self::Rx) -> Self::Rx;
    fn drop_tx(&mut self, tx: Self::Tx);
    fn drop_rx(&mut self, rx: Self::Rx);
    fn lane(tx: &Self::Tx) -> usize;

    /// How many sleeping receivers the last step signals; `None` for all.
    fn signals(&mut self) -> Option<usize>;
}

/// Past every attempt at spinning.
const PATIENCE: usize = 1_000;

impl Kind for mpsc::Channel<u32> {
    type Tx = mpsc::Sender;
    type Rx = mpsc::Receiver;
    type TxWait = fanring::wait::WaitRegistration;
    type RxWait = fanring::wait::WaitRegistration;

    fn open(capacity: usize) -> (Self, Self::Tx, Self::Rx) {
        mpsc::channel(capacity)
    }

    fn send(
        &mut self,
        tx: &mut Self::Tx,
        value: u32,
    ) -> Progress<Result<(), SendError<u32>>, Self::TxWait> {
        match tx.send(self, value, PATIENCE) {
            mpsc::sender::SendProgress::Done(result) => Progress::Done(result),
            mpsc::sender::SendProgress::Spin(_) => Progress::Again,
            mpsc::sender::SendProgress::Park(_, wait) => Progress::Asleep(wait),
        }
    }

    fn send_sleeps(&mut self, tx: &mut Self::Tx, wait: &Self::TxWait) -> bool {
        tx.park(self, wait)
    }

    fn try_send(&mut self, tx: &mut Self::Tx, value: u32) -> Result<(), TrySendError<u32>> {
        tx.try_send(self, value)
    }

    fn recv(&mut self, rx: &mut Self::Rx) -> Progress<Result<u32, RecvError>, Self::RxWait> {
        match rx.recv(self, PATIENCE) {
            mpsc::receiver::RecvProgress::Done(result) => Progress::Done(result),
            mpsc::receiver::RecvProgress::Spin => Progress::Again,
            mpsc::receiver::RecvProgress::Park(wait) => Progress::Asleep(wait),
        }
    }

    fn recv_sleeps(&mut self, rx: &mut Self::Rx, wait: &Self::RxWait) -> bool {
        rx.park(self, wait)
    }

    fn try_recv(&mut self, rx: &mut Self::Rx) -> Result<u32, TryRecvError> {
        rx.try_recv(self)
    }

    fn clone_tx(&mut self, tx: &Self::Tx) -> Result<Self::Tx, TryRegisterError> {
        tx.try_register(self)
    }

    fn clone_rx(&mut self, _: &Self::Rx) -> Self::Rx {
        unreachable!()
    }

    fn drop_tx(&mut self, tx: Self::Tx) {
        tx.close(self);
    }

    fn drop_rx(&mut self, rx: Self::Rx) {
        rx.close(self);
    }

    fn lane(tx: &Self::Tx) -> usize {
        tx.lane_id()
    }

    fn signals(&mut self) -> Option<usize> {
        None
    }
}

impl Kind for mpmc::Channel<u32> {
    type Tx = mpmc::Sender;
    type Rx = mpmc::Receiver;
    type TxWait = fanring::wait::WaitRegistration;
    type RxWait = fanring::wait::MultiWaitRegistration;

    fn open(capacity: usize) -> (Self, Self::Tx, Self::Rx) {
        mpmc::channel(capacity)
    }

    fn send(
        &mut self,
        tx: &mut Self::Tx,
        value: u32,
    ) -> Progress<Result<(), SendError<u32>>, Self::TxWait> {
        match tx.send(self, value, PATIENCE) {
            mpmc::sender::SendProgress::Done(result) => Progress::Done(result),
            mpmc::sender::SendProgress::Spin(_) => Progress::Again,
            mpmc::sender::SendProgress::Park(_, wait) => Progress::Asleep(wait),
        }
    }

    fn send_sleeps(&mut self, tx: &mut Self::Tx, wait: &Self::TxWait) -> bool {
        tx.park(self, wait)
    }

    fn try_send(&mut self, tx: &mut Self::Tx, value: u32) -> Result<(), TrySendError<u32>> {
        tx.try_send(self, value)
    }

    fn recv(&mut self, rx: &mut Self::Rx) -> Progress<Result<u32, RecvError>, Self::RxWait> {
        match rx.recv(self, PATIENCE) {
            mpmc::receiver::RecvProgress::Done(result) => Progress::Done(result),
            mpmc::receiver::RecvProgress::Spin => Progress::Again,
            mpmc::receiver::RecvProgress::Park(wait) => Progress::Asleep(wait),
        }
    }

    fn recv_sleeps(&mut self, rx: &mut Self::Rx, wait: &Self::RxWait) -> bool {
        rx.park(self, wait)
    }

    fn try_recv(&mut self, rx: &mut Self::Rx) -> Result<u32, TryRecvError> {
        rx.try_recv(self)
    }

    fn clone_tx(&mut self, tx: &Self::Tx) -> Result<Self::Tx, TryRegisterError> {
        tx.try_register(self)
    }

    fn clone_rx(&mut self, rx: &Self::Rx) -> Self::Rx {
        rx.clone(self)
    }

    fn drop_tx(&mut self, tx: Self::Tx) {
        tx.close(self);
    }

    fn drop_rx(&mut self, rx: Self::Rx) {
        rx.close(self);
    }

    fn lane(tx: &Self::Tx) -> usize {
        tx.lane_id()
    }

    fn signals(&mut self) -> Option<usize> {
        Some(self.take_signals())
    }
}

/// A channel, its endpoints and what happened to them, thread by thread.
struct World<C: Kind> {
    ch: C,
    tx: BTreeMap<usize, C::Tx>,
    rx: BTreeMap<usize, C::Rx>,
    log: Vec<Vec<Event>>,
}

/// Where a thread stands.
struct Place<C: Kind> {
    next: usize,
    sends: Option<C::TxWait>,
    receives: Option<C::RxWait>,
}

/// What a turn of a thread did.
#[derive(PartialEq, Eq)]
enum Turn {
    Ran,
    Slept,
}

impl<C: Kind> World<C> {
    fn turn(&mut self, thread: usize, ops: &[Op], place: &mut Place<C>) -> Turn {
        let event = match ops[place.next] {
            Send(tx, value) => {
                let Some(tx) = self.tx.get_mut(&tx) else {
                    place.next += 1;
                    return Turn::Ran;
                };
                if let Some(wait) = &place.sends {
                    if self.ch.send_sleeps(tx, wait) {
                        return Turn::Slept;
                    }
                    place.sends = None;
                    return Turn::Ran;
                }
                match self.ch.send(tx, value) {
                    Progress::Done(result) => Some(Event::Sent(result)),
                    Progress::Again => return Turn::Ran,
                    Progress::Asleep(wait) => {
                        place.sends = Some(wait);
                        return Turn::Ran;
                    }
                }
            }
            TrySend(tx, value) => self
                .tx
                .get_mut(&tx)
                .map(|tx| Event::TrySent(self.ch.try_send(tx, value))),
            Recv(rx) => {
                let rx = self.rx.get_mut(&rx).unwrap();
                if let Some(wait) = &place.receives {
                    if self.ch.recv_sleeps(rx, wait) {
                        return Turn::Slept;
                    }
                    place.receives = None;
                    return Turn::Ran;
                }
                match self.ch.recv(rx) {
                    Progress::Done(result) => Some(Event::Received(result)),
                    Progress::Again => return Turn::Ran,
                    Progress::Asleep(wait) => {
                        place.receives = Some(wait);
                        return Turn::Ran;
                    }
                }
            }
            TryRecv(rx) => {
                let rx = self.rx.get_mut(&rx).unwrap();
                Some(Event::TryReceived(self.ch.try_recv(rx)))
            }
            CloneTx(from, to) => {
                let result = self.ch.clone_tx(&self.tx[&from]);
                Some(Event::Registered(result.map(|tx| {
                    let lane = C::lane(&tx);
                    self.tx.insert(to, tx);
                    lane
                })))
            }
            CloneRx(from, to) => {
                let rx = self.ch.clone_rx(&self.rx[&from]);
                self.rx.insert(to, rx);
                None
            }
            DropTx(tx) => {
                if let Some(tx) = self.tx.remove(&tx) {
                    self.ch.drop_tx(tx);
                }
                None
            }
            DropRx(rx) => {
                if let Some(rx) = self.rx.remove(&rx) {
                    self.ch.drop_rx(rx);
                }
                None
            }
        };
        self.log[thread].extend(event);
        place.next += 1;
        Turn::Ran
    }

    /// Run one thread alone and give what came of its steps.
    fn alone(&mut self, ops: &[Op]) -> Vec<Event> {
        let thread = self.log.len();
        self.log.push(Vec::new());
        let mut place = Place {
            next: 0,
            sends: None,
            receives: None,
        };
        while place.next < ops.len() {
            assert!(
                self.turn(thread, ops, &mut place) == Turn::Ran,
                "nobody is left to wake it: {0:?}",
                ops[place.next]
            );
        }
        self.log.pop().unwrap()
    }

    fn received(&self) -> Vec<u32> {
        let mut values = self
            .log
            .iter()
            .flatten()
            .filter_map(|event| match event {
                Event::Received(Ok(value)) | Event::TryReceived(Ok(value)) => Some(*value),
                _ => None,
            })
            .collect::<Vec<_>>();
        values.sort_unstable();
        values
    }

    fn ended(&self) -> usize {
        self.log
            .iter()
            .flatten()
            .filter(|event| **event == Event::Received(Err(RecvError)))
            .count()
    }
}

/// The most orders that one test goes through.
const ORDERS: usize = 10_000;

/// Run the threads in every order, each time on a channel prepared anew.
fn race<C: Kind>(
    capacity: usize,
    prepare: &[Op],
    threads: &[&[Op]],
    check: impl Fn(&mut World<C>),
) {
    let mut order: Vec<(usize, usize)> = Vec::new();
    for _ in 0..ORDERS {
        let (ch, tx, rx) = C::open(capacity);
        let mut world = World {
            ch,
            tx: BTreeMap::from([(0, tx)]),
            rx: BTreeMap::from([(0, rx)]),
            log: Vec::new(),
        };
        world.alone(prepare);
        world.log = threads.iter().map(|_| Vec::new()).collect();
        let mut places = threads
            .iter()
            .map(|_| Place {
                next: 0,
                sends: None,
                receives: None,
            })
            .collect::<Vec<Place<C>>>();
        let mut asleep = threads.iter().map(|_| false).collect::<Vec<_>>();
        let mut step = 0;
        loop {
            let left = (0..threads.len())
                .filter(|thread| places[*thread].next < threads[*thread].len())
                .collect::<Vec<_>>();
            if left.is_empty() {
                break;
            }
            let ready = left
                .iter()
                .copied()
                .filter(|thread| !asleep[*thread])
                .collect::<Vec<_>>();
            assert!(!ready.is_empty(), "every thread sleeps in order {order:?}");
            assert!(step < 1_000, "no end in order {order:?}");
            if order.len() == step {
                order.push((0, ready.len()));
            }
            order[step].1 = ready.len();
            let thread = ready[order[step].0];
            step += 1;
            match world.turn(thread, threads[thread], &mut places[thread]) {
                Turn::Ran => {
                    let mut signals = world.ch.signals().unwrap_or(threads.len());
                    for other in 0..threads.len() {
                        if places[other].receives.is_none() {
                            asleep[other] = false;
                        } else if asleep[other] && signals > 0 {
                            asleep[other] = false;
                            signals -= 1;
                        }
                    }
                }
                Turn::Slept => asleep[thread] = true,
            }
        }
        order.truncate(step);
        check(&mut world);
        while let Some((choice, choices)) = order.pop() {
            if choice + 1 < choices {
                order.push((choice + 1, choices));
                break;
            }
        }
        if order.is_empty() {
            return;
        }
    }
}

fn mpsc_race(
    capacity: usize,
    prepare: &[Op],
    threads: &[&[Op]],
    check: impl Fn(&mut World<mpsc::Channel<u32>>),
) {
    race(capacity, prepare, threads, check);
}

fn mpmc_race(
    capacity: usize,
    prepare: &[Op],
    threads: &[&[Op]],
    check: impl Fn(&mut World<mpmc::Channel<u32>>),
) {
    race(capacity, prepare, threads, check);
}

const ENDED: Event = Event::Received(Err(RecvError));
const DISCONNECTED: Event = Event::TryReceived(Err(TryRecvError::Disconnected));

#[test]
fn send_recv_ready_race_does_not_lose_message() {
    mpsc_race(
        1,
        &[TrySend(0, 1), TryRecv(0)],
        &[&[TrySend(0, 2)], &[TryRecv(0), TryRecv(0)]],
        |world| {
            assert_eq!(world.log[0], [Event::TrySent(Ok(()))]);
            if world.received().is_empty() {
                assert_eq!(world.alone(&[TryRecv(0)]), [Event::TryReceived(Ok(2))]);
            } else {
                assert_eq!(world.received(), [2]);
            }
        },
    );
}

#[test]
fn receiver_drop_makes_sender_disconnect() {
    mpsc_race(
        1,
        &[TrySend(0, 1)],
        &[&[TrySend(0, 2)], &[DropRx(0)]],
        |world| {
            let refused = world.log[0][0];
            assert!(
                refused == Event::TrySent(Err(TrySendError::Full(2)))
                    || refused == Event::TrySent(Err(TrySendError::Disconnected(2)))
            );
            assert_eq!(
                world.alone(&[TrySend(0, 2)]),
                [Event::TrySent(Err(TrySendError::Disconnected(2)))]
            );
        },
    );
}

#[test]
fn second_lane_ready_race_does_not_lose_message() {
    mpsc_race(
        1,
        &[CloneTx(0, 1), TrySend(0, 10), TryRecv(0)],
        &[&[TrySend(1, 20), DropTx(1)], &[TryRecv(0)]],
        |world| {
            if world.received().is_empty() {
                assert_eq!(world.log[1], [Event::TryReceived(Err(TryRecvError::Empty))]);
                assert_eq!(world.alone(&[TryRecv(0)]), [Event::TryReceived(Ok(20))]);
            } else {
                assert_eq!(world.received(), [20]);
            }
            assert_eq!(world.alone(&[DropTx(0), TryRecv(0)]), [DISCONNECTED]);
        },
    );
}

#[test]
fn registration_racing_ready_page_drain_does_not_lose_new_lane() {
    mpsc_race(
        1,
        &[TrySend(0, 1)],
        &[
            &[CloneTx(0, 1), TrySend(1, 2), DropTx(1), DropTx(0)],
            &[Recv(0), Recv(0)],
        ],
        |world| {
            assert_eq!(world.received(), [1, 2]);
            assert_eq!(world.alone(&[Recv(0)]), [ENDED]);
        },
    );
}

#[test]
fn registration_racing_group_drain_does_not_lose_new_page() {
    mpsc_race(
        1,
        &[CloneTx(0, 9), TrySend(0, 1)],
        &[
            &[CloneTx(0, 1), TrySend(1, 2), DropTx(1), DropTx(9), DropTx(0)],
            &[Recv(0), Recv(0)],
        ],
        |world| {
            assert_eq!(world.log[0][0], Event::Registered(Ok(2)));
            assert_eq!(world.received(), [1, 2]);
            assert_eq!(world.alone(&[Recv(0)]), [ENDED]);
        },
    );
}

#[test]
fn register_race_with_receiver_drop_reports_disconnected() {
    mpsc_race(1, &[], &[&[CloneTx(0, 1)], &[DropRx(0)]], |world| {
        match world.log[0][0] {
            Event::Registered(Ok(_)) => assert_eq!(
                world.alone(&[TrySend(1, 1)]),
                [Event::TrySent(Err(TrySendError::Disconnected(1)))]
            ),
            other => assert_eq!(
                other,
                Event::Registered(Err(TryRegisterError::Disconnected))
            ),
        }
        assert_eq!(
            world.alone(&[TrySend(0, 2)]),
            [Event::TrySent(Err(TrySendError::Disconnected(2)))]
        );
    });
}

#[test]
fn receiver_refreshes_topology_after_new_ready_group_is_added() {
    mpsc_race(
        1,
        &[CloneTx(0, 1), CloneTx(0, 2), CloneTx(0, 3), TryRecv(0)],
        &[
            &[Recv(0)],
            &[
                CloneTx(0, 4),
                Send(4, 42),
                DropTx(4),
                DropTx(1),
                DropTx(2),
                DropTx(3),
                DropTx(0),
            ],
        ],
        |world| {
            assert_eq!(world.log[1][0], Event::Registered(Ok(4)));
            assert_eq!(world.log[0], [Event::Received(Ok(42))]);
            assert_eq!(world.alone(&[TryRecv(0)]), [DISCONNECTED]);
        },
    );
}

#[test]
fn sender_drop_during_receiver_drain_preserves_buffered_items() {
    mpsc_race(
        2,
        &[TrySend(0, 1), TrySend(0, 2)],
        &[&[DropTx(0)], &[TryRecv(0)]],
        |world| {
            assert_eq!(world.log[1], [Event::TryReceived(Ok(1))]);
            assert_eq!(
                world.alone(&[TryRecv(0), TryRecv(0)]),
                [Event::TryReceived(Ok(2)), DISCONNECTED]
            );
        },
    );
}

#[test]
fn reused_mpsc_lane_ignores_stale_generation_state() {
    mpsc_race(
        1,
        &[CloneTx(0, 1), TrySend(1, 1), DropTx(1), Recv(0), TryRecv(0), CloneTx(0, 2)],
        &[&[TrySend(2, 2), DropTx(2)], &[Recv(0)]],
        |world| {
            assert_eq!(world.log[1], [Event::Received(Ok(2))]);
            assert_eq!(world.alone(&[DropTx(0), Recv(0)]), [ENDED]);
        },
    );
    let (mut ch, root, mut rx) = mpsc::channel(1);
    let mut retired = root.try_clone(&mut ch).unwrap();
    let reused_slot = retired.lane_id();
    retired.try_send(&mut ch, 1).unwrap();
    retired.close(&mut ch);
    assert_eq!(rx.try_recv(&mut ch), Ok(1));
    assert_eq!(rx.try_recv(&mut ch), Err(TryRecvError::Empty));
    let reused = root.try_clone(&mut ch).unwrap();
    assert_eq!(reused.lane_id(), reused_slot);
}

#[test]
fn empty_short_lived_mpsc_lane_cannot_delay_disconnect() {
    mpsc_race(
        1,
        &[],
        &[&[CloneTx(0, 1), DropTx(1), DropTx(0)], &[Recv(0)]],
        |world| {
            assert_eq!(world.log[1], [ENDED]);
            assert_eq!(world.alone(&[TryRecv(0)]), [DISCONNECTED]);
        },
    );
}

#[test]
fn blocking_recv_does_not_lose_data_wakeup() {
    mpsc_race(1, &[], &[&[Send(0, 1)], &[Recv(0)]], |world| {
        assert_eq!(world.log[1], [Event::Received(Ok(1))]);
        assert_eq!(world.log[0], [Event::Sent(Ok(()))]);
    });
}

#[test]
fn blocking_send_does_not_lose_space_wakeup() {
    mpsc_race(
        1,
        &[TrySend(0, 1)],
        &[&[Send(0, 2)], &[Recv(0)]],
        |world| {
            assert_eq!(world.log[1], [Event::Received(Ok(1))]);
            assert_eq!(world.log[0], [Event::Sent(Ok(()))]);
            assert_eq!(world.alone(&[Recv(0)]), [Event::Received(Ok(2))]);
        },
    );
}

#[test]
fn blocking_send_recv_do_not_deadlock_while_sender_stays_alive() {
    mpsc_race(
        1,
        &[TrySend(0, 1)],
        &[&[Send(0, 2)], &[Recv(0), Recv(0)]],
        |world| {
            assert_eq!(
                world.log[1],
                [Event::Received(Ok(1)), Event::Received(Ok(2))]
            );
            assert_eq!(world.log[0], [Event::Sent(Ok(()))]);
        },
    );
}

#[test]
fn blocking_recv_wakes_on_sender_disconnect() {
    mpsc_race(1, &[], &[&[DropTx(0)], &[Recv(0)]], |world| {
        assert_eq!(world.log[1], [ENDED]);
    });
}

#[test]
fn blocking_send_wakes_on_receiver_disconnect() {
    mpsc_race(
        1,
        &[TrySend(0, 1)],
        &[&[Send(0, 2)], &[DropRx(0)]],
        |world| {
            assert_eq!(world.log[0], [Event::Sent(Err(SendError(2)))]);
        },
    );
}

#[test]
fn blocking_send_waits_for_lane_capacity() {
    mpsc_race(
        1,
        &[TrySend(0, 1)],
        &[&[Send(0, 2), DropTx(0)], &[Recv(0), Recv(0)]],
        |world| {
            assert_eq!(
                world.log[1],
                [Event::Received(Ok(1)), Event::Received(Ok(2))]
            );
            assert_eq!(world.log[0], [Event::Sent(Ok(()))]);
        },
    );
}

#[test]
fn blocking_recv_wakes_for_data_and_disconnect() {
    mpsc_race(
        1,
        &[],
        &[&[Send(0, 7), DropTx(0)], &[Recv(0)]],
        |world| {
            assert_eq!(world.log[1], [Event::Received(Ok(7))]);
            assert_eq!(world.alone(&[Recv(0)]), [ENDED]);
        },
    );
}

#[test]
fn blocking_send_wakes_when_receiver_drops() {
    mpsc_race(
        1,
        &[TrySend(0, 1)],
        &[&[Send(0, 2), DropTx(0)], &[DropRx(0)]],
        |world| {
            assert_eq!(world.log[0], [Event::Sent(Err(SendError(2)))]);
        },
    );
}

#[test]
fn mpmc_two_receivers_take_distinct_messages() {
    mpmc_race(
        2,
        &[CloneRx(0, 1), TrySend(0, 1), TrySend(0, 2)],
        &[&[Recv(0), DropRx(0)], &[Recv(1), DropRx(1)]],
        |world| assert_eq!(world.received(), [1, 2]),
    );
}

#[test]
fn mpmc_two_blocked_receivers_wake_for_distinct_messages() {
    mpmc_race(
        1,
        &[CloneRx(0, 1)],
        &[
            &[Recv(0), DropRx(0)],
            &[Recv(1), DropRx(1)],
            &[Send(0, 1), Send(0, 2), DropTx(0)],
        ],
        |world| assert_eq!(world.received(), [1, 2]),
    );
}

#[test]
fn mpmc_batch_publication_after_disconnect_preserves_values() {
    mpmc_race(
        2,
        &[CloneRx(0, 1), TrySend(0, 1), TrySend(0, 2), DropTx(0)],
        &[&[Recv(0), DropRx(0)], &[Recv(1), DropRx(1)]],
        |world| assert_eq!(world.received(), [1, 2]),
    );
}

#[test]
fn mpmc_multiple_batch_publishers_preserve_values() {
    mpmc_race(
        2,
        &[
            CloneTx(0, 1),
            CloneRx(0, 1),
            TrySend(0, 1),
            TrySend(0, 2),
            TrySend(1, 3),
            TrySend(1, 4),
            DropTx(0),
            DropTx(1),
        ],
        &[
            &[Recv(0), Recv(0), DropRx(0)],
            &[Recv(1), Recv(1), DropRx(1)],
        ],
        |world| assert_eq!(world.received(), [1, 2, 3, 4]),
    );
}

#[test]
fn mpmc_requeued_lane_and_staged_work_remain_reachable() {
    mpmc_race(
        4,
        &[
            CloneRx(0, 1),
            TrySend(0, 0),
            TrySend(0, 1),
            TrySend(0, 2),
            TrySend(0, 3),
            DropTx(0),
        ],
        &[&[Recv(1)], &[Recv(0)]],
        |world| {
            let mut values = world.received();
            while values.len() != 4 {
                for event in world.alone(&[TryRecv(0), TryRecv(1)]) {
                    if let Event::TryReceived(Ok(value)) = event {
                        values.push(value);
                    }
                }
            }
            values.sort_unstable();
            assert_eq!(values, [0, 1, 2, 3]);
            assert_eq!(
                world.alone(&[TryRecv(0), TryRecv(1)]),
                [DISCONNECTED, DISCONNECTED]
            );
        },
    );
}

#[test]
fn reused_mpmc_lane_ignores_stale_requeue_state() {
    mpmc_race(
        4,
        &[
            CloneTx(0, 1),
            TrySend(1, 0),
            TrySend(1, 1),
            TrySend(1, 2),
            DropTx(1),
            Recv(0),
            Recv(0),
            Recv(0),
            TryRecv(0),
            CloneTx(0, 2),
        ],
        &[&[TrySend(2, 3), DropTx(2)], &[Recv(0)]],
        |world| {
            assert_eq!(world.log[1], [Event::Received(Ok(3))]);
            assert_eq!(world.alone(&[DropTx(0), Recv(0)]), [ENDED]);
        },
    );
    let (mut ch, root, mut rx) = mpmc::channel(4);
    let mut retired = root.try_clone(&mut ch).unwrap();
    let reused_slot = retired.lane_id();
    for value in 0..3 {
        retired.try_send(&mut ch, value).unwrap();
    }
    retired.close(&mut ch);
    for value in 0..3 {
        assert_eq!(rx.try_recv(&mut ch), Ok(value));
    }
    assert_eq!(rx.try_recv(&mut ch), Err(TryRecvError::Empty));
    let reused = root.try_clone(&mut ch).unwrap();
    assert_eq!(reused.lane_id(), reused_slot);
}

#[test]
fn empty_short_lived_mpmc_lane_cannot_delay_disconnect() {
    mpmc_race(
        1,
        &[],
        &[&[CloneTx(0, 1), DropTx(1), DropTx(0)], &[Recv(0)]],
        |world| {
            assert_eq!(world.log[1], [ENDED]);
            assert_eq!(world.alone(&[TryRecv(0)]), [DISCONNECTED]);
        },
    );
}

#[test]
fn mpmc_disconnect_wakes_receiver() {
    mpmc_race(1, &[], &[&[DropTx(0)], &[Recv(0)]], |world| {
        assert_eq!(world.log[1], [ENDED]);
    });
}

#[test]
fn mpmc_buffered_last_sender_drop_wakes_all_receivers() {
    mpmc_race(
        1,
        &[CloneRx(0, 1), TrySend(0, 7)],
        &[
            &[Recv(0), DropRx(0)],
            &[Recv(1), DropRx(1)],
            &[DropTx(0)],
        ],
        |world| {
            assert_eq!(world.received(), [7]);
            assert_eq!(world.ended(), 1);
        },
    );
}

#[test]
fn mpmc_receiver_drop_preserves_prefetched_work() {
    mpmc_race(
        2,
        &[TrySend(0, 1), TrySend(0, 2), TryRecv(0), CloneRx(0, 1)],
        &[&[DropRx(0)], &[Recv(1)]],
        |world| assert_eq!(world.log[1], [Event::Received(Ok(2))]),
    );
}

#[test]
fn mpmc_clone_makes_private_prefetch_competitive() {
    mpmc_race(
        2,
        &[
            TrySend(0, 1),
            TrySend(0, 2),
            DropTx(0),
            Recv(0),
            CloneRx(0, 1),
        ],
        &[&[Recv(0), DropRx(0)], &[Recv(1), DropRx(1)]],
        |world| {
            assert_eq!(world.received(), [2]);
            assert_eq!(world.ended(), 1);
        },
    );
}

#[test]
fn mpmc_owner_drop_racing_private_prefetch_steal_preserves_work() {
    mpmc_race(
        2,
        &[
            TrySend(0, 1),
            TrySend(0, 2),
            DropTx(0),
            Recv(0),
            CloneRx(0, 1),
        ],
        &[&[Recv(1)], &[DropRx(0)]],
        |world| assert_eq!(world.log[0], [Event::Received(Ok(2))]),
    );
}

#[test]
fn mpmc_last_competitor_drop_racing_prefetch_preserves_work() {
    mpmc_race(
        2,
        &[CloneRx(0, 1), TrySend(0, 1), TrySend(0, 2), DropTx(0)],
        &[&[DropRx(1)], &[Recv(0)]],
        |world| {
            assert_eq!(world.log[1], [Event::Received(Ok(1))]);
            assert_eq!(
                world.alone(&[CloneRx(0, 2), DropRx(0), Recv(2), TryRecv(2)]),
                [Event::Received(Ok(2)), DISCONNECTED]
            );
        },
    );
}

#[test]
fn mpmc_shared_to_private_staging_transition_preserves_work() {
    mpmc_race(
        2,
        &[CloneRx(0, 1), TrySend(0, 1), TrySend(0, 2), Recv(0)],
        &[&[DropRx(1)], &[Recv(0)]],
        |world| {
            assert_eq!(world.log[1], [Event::Received(Ok(2))]);
            assert_eq!(
                world.alone(&[TrySend(0, 3), TrySend(0, 4), DropTx(0), Recv(0)]),
                [
                    Event::TrySent(Ok(())),
                    Event::TrySent(Ok(())),
                    Event::Received(Ok(3))
                ]
            );
            assert_eq!(
                world.alone(&[CloneRx(0, 2), DropRx(0), Recv(2), TryRecv(2)]),
                [Event::Received(Ok(4)), DISCONNECTED]
            );
        },
    );
}

#[test]
fn mpmc_unregister_register_race_preserves_staged_work() {
    mpmc_race(
        2,
        &[
            CloneRx(0, 1),
            TrySend(0, 1),
            TrySend(0, 2),
            DropTx(0),
            Recv(0),
        ],
        &[&[DropRx(1)], &[CloneRx(0, 2)]],
        |world| {
            assert_eq!(
                world.alone(&[DropRx(0), Recv(2), TryRecv(2)]),
                [Event::Received(Ok(2)), DISCONNECTED]
            );
        },
    );
}

#[test]
fn mpmc_owner_drop_and_two_thieves_preserve_shared_work() {
    mpmc_race(
        2,
        &[
            CloneRx(0, 1),
            CloneRx(0, 2),
            TrySend(0, 1),
            TrySend(0, 2),
            DropTx(0),
            Recv(0),
        ],
        &[
            &[Recv(1), DropRx(1)],
            &[Recv(2), DropRx(2)],
            &[DropRx(0)],
        ],
        |world| {
            assert_eq!(world.received(), [2]);
            assert_eq!(world.ended(), 1);
        },
    );
}

#[test]
fn mpmc_receiver_drop_racing_steal_preserves_prefetched_work() {
    mpmc_race(
        2,
        &[
            CloneRx(0, 1),
            TrySend(0, 1),
            TrySend(0, 2),
            TryRecv(0),
            DropTx(0),
        ],
        &[&[Recv(1)], &[DropRx(0)]],
        |world| assert_eq!(world.log[0], [Event::Received(Ok(2))]),
    );
}

#[test]
fn mpmc_blocking_send_does_not_lose_space_wakeup() {
    mpmc_race(
        1,
        &[TrySend(0, 1)],
        &[&[Send(0, 2), DropTx(0)], &[Recv(0)]],
        |world| {
            assert_eq!(world.log[1], [Event::Received(Ok(1))]);
            assert_eq!(world.log[0], [Event::Sent(Ok(()))]);
            assert_eq!(world.alone(&[Recv(0)]), [Event::Received(Ok(2))]);
        },
    );
}

#[test]
fn mpmc_blocking_send_wakes_on_last_receiver_drop() {
    mpmc_race(
        1,
        &[CloneRx(0, 1), TrySend(0, 1)],
        &[&[Send(0, 2), DropTx(0)], &[DropRx(0), DropRx(1)]],
        |world| assert_eq!(world.log[0], [Event::Sent(Err(SendError(2)))]),
    );
}

#[test]
fn mpmc_blocked_sender_survives_nonfinal_receiver_drop() {
    mpmc_race(
        1,
        &[CloneRx(0, 1), TrySend(0, 1)],
        &[&[Send(0, 2), DropTx(0)], &[DropRx(0), Recv(1)]],
        |world| {
            assert_eq!(world.log[1], [Event::Received(Ok(1))]);
            assert_eq!(world.log[0], [Event::Sent(Ok(()))]);
            assert_eq!(
                world.alone(&[Recv(1), Recv(1)]),
                [Event::Received(Ok(2)), ENDED]
            );
        },
    );
}

#[test]
fn mpmc_register_race_with_last_receiver_drop_reports_disconnected() {
    mpmc_race(
        1,
        &[CloneRx(0, 1), DropRx(0)],
        &[&[CloneTx(0, 1)], &[DropRx(1)]],
        |world| {
            match world.log[0][0] {
                Event::Registered(Ok(_)) => assert_eq!(
                    world.alone(&[TrySend(1, 1)]),
                    [Event::TrySent(Err(TrySendError::Disconnected(1)))]
                ),
                other => assert_eq!(
                    other,
                    Event::Registered(Err(TryRegisterError::Disconnected))
                ),
            }
            assert_eq!(
                world.alone(&[TrySend(0, 2)]),
                [Event::TrySent(Err(TrySendError::Disconnected(2)))]
            );
        },
    );
}

#[test]
fn mpmc_receiver_refreshes_topology_after_new_ready_group_is_added() {
    mpmc_race(
        1,
        &[CloneTx(0, 1), CloneTx(0, 2), CloneTx(0, 3), TryRecv(0)],
        &[
            &[Recv(0)],
            &[
                CloneTx(0, 4),
                Send(4, 42),
                DropTx(4),
                DropTx(1),
                DropTx(2),
                DropTx(3),
                DropTx(0),
            ],
        ],
        |world| {
            assert_eq!(world.log[1][0], Event::Registered(Ok(4)));
            assert_eq!(world.log[0], [Event::Received(Ok(42))]);
            assert_eq!(world.alone(&[Recv(0)]), [ENDED]);
        },
    );
}

#[test]
fn blocked_sender_wakes_after_receive_releases_space() {
    mpmc_race(
        1,
        &[TrySend(0, 1)],
        &[&[Send(0, 2)], &[Recv(0), Recv(0)]],
        |world| {
            assert_eq!(world.log[0], [Event::Sent(Ok(()))]);
            assert_eq!(
                world.log[1],
                [Event::Received(Ok(1)), Event::Received(Ok(2))]
            );
        },
    );
}

#[test]
fn blocked_sender_wakes_when_last_receiver_drops() {
    mpmc_race(
        1,
        &[TrySend(0, 1)],
        &[&[Send(0, 2)], &[DropRx(0)]],
        |world| assert_eq!(world.log[0], [Event::Sent(Err(SendError(2)))]),
    );
}

#[test]
fn parked_receivers_all_observe_disconnect() {
    let clones = (1..8).map(|rx| CloneRx(0, rx)).collect::<Vec<_>>();
    let receivers = (0..8).map(|rx| [Recv(rx), DropRx(rx)]).collect::<Vec<_>>();
    let mut threads = receivers
        .iter()
        .map(|ops| ops.as_slice())
        .collect::<Vec<_>>();
    threads.push(&[DropTx(0)]);
    mpmc_race(1, &clones, &threads, |world| {
        assert!(world.received().is_empty());
        assert_eq!(world.ended(), 8);
    });
}

#[test]
fn buffered_last_sender_drop_wakes_every_receiver() {
    let mut clones = (1..8).map(|rx| CloneRx(0, rx)).collect::<Vec<_>>();
    clones.push(TrySend(0, 7));
    let receivers = (0..8).map(|rx| [Recv(rx), DropRx(rx)]).collect::<Vec<_>>();
    let mut threads = receivers
        .iter()
        .map(|ops| ops.as_slice())
        .collect::<Vec<_>>();
    threads.push(&[DropTx(0)]);
    mpmc_race(1, &clones, &threads, |world| {
        assert_eq!(world.received(), [7]);
        assert_eq!(world.ended(), 7);
    });
}
