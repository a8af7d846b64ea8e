//! Polling operations over the same lanes. The caller keeps the wakers; the
//! channel records who left one behind and who has to be woken.
use vstd::prelude::*;

use crate::error::{RecvError, SendError, TryRecvError};
use crate::ready::LaneSignal;
use crate::wait::WaitCell;

use super::receiver::batched;
use super::{Channel, Lane, Receiver, Sender};

verus! {

/// Whether an operation is over.
#[derive(Debug, PartialEq, Eq)]
pub enum Poll<T> {
    /// It is over.
    Ready(T),
    /// A waker was left behind.
    Pending,
}

impl<T> Channel<T> {
    /// Whether the sender of the lane in `slot` leaves a waker behind is all
    /// that differs.
    pub open spec fn space_waker_set(&self, before: &Channel<T>, slot: int, waker: bool) -> bool {
        self.lane_replaced(
            before,
            slot,
            Lane {
                signal: LaneSignal {
                    space_waiter: WaitCell { waker, ..before.lane(slot).signal.space_waiter },
                    ..before.lane(slot).signal
                },
                ..before.lane(slot)
            },
        )
    }

    fn set_space_waker(&mut self, slot: usize, waker: bool)
        requires
            old(self).wf(),
            old(self).present(slot as int),
        ensures
            final(self).wf(),
            final(self).space_waker_set(old(self), slot as int, waker),
    {
        let ghost before = *self;
        let lane = self.lanes[slot].as_mut().unwrap();
        if waker {
            lane.signal.space_waiter.register_async();
        } else {
            lane.signal.space_waiter.cancel_async();
        }
        proof {
            let cell = self.lane(slot as int).signal.space_waiter;
            assert(self.lanes@ =~= before.lanes@.update(slot as int, Some(self.lane(slot as int))));
            before.lemma_space_waiter(self, slot as int, cell);
        }
    }

    /// Whether the receiver leaves a waker behind is all that differs.
    pub open spec fn data_waker_set(&self, before: &Channel<T>, waker: bool) -> bool {
        *self == (Channel { data_waiter: WaitCell { waker, ..before.data_waiter }, ..*before })
    }

    fn set_data_waker(&mut self, waker: bool)
        requires
            old(self).wf(),
        ensures
            final(self).wf(),
            final(self).data_waker_set(old(self), waker),
    {
        let ghost before = *self;
        if waker {
            self.data_waiter.register_async();
        } else {
            self.data_waiter.cancel_async();
        }
        proof {
            before.lemma_data_waiter(self);
        }
    }

    /// What a receive that leaves a waker behind does: it gives all taken slots
    /// back, whatever it found.
    pub open spec fn polled(
        &self,
        before: &Channel<T>,
        result: Result<T, TryRecvError>,
    ) -> bool {
        exists|mid: Channel<T>, rest: Channel<T>|
            mid.wf() && mid.answers(before, result) && #[trigger] rest.all_given_back(&mid)
                && self.data_waker_set(
                &rest,
                result == Err::<T, TryRecvError>(TryRecvError::Empty),
            )
    }
}

impl Sender {
    /// Poll this sender's capacity without reserving a slot.
    pub fn poll_ready<T>(&mut self, ch: &mut Channel<T>) -> (r: Poll<Result<(), SendError<()>>>)
        requires
            old(ch).wf(),
            old(ch).owns(old(self)),
        ensures
            *final(self) == *old(self),
            final(ch).wf(),
            final(ch).owns(final(self)),
            ({
                let slot = old(self).key.slot as int;
                let room = !old(ch).lane(slot).ring.full();
                &&& final(ch).space_waker_set(old(ch), slot, r is Pending)
                &&& match r {
                    Poll::Pending => old(ch).receiver_alive && !room,
                    Poll::Ready(Ok(())) => old(ch).receiver_alive && room,
                    Poll::Ready(Err(_)) => !old(ch).receiver_alive,
                }
            }),
    {
        assert(ch.lanes@[self.key.slot as int] is Some);
        let full: bool = ch.lanes[self.key.slot].as_ref().unwrap().ring.is_full();
        if ch.receiver_alive && full {
            ch.set_space_waker(self.key.slot, true);
            return Poll::Pending;
        }
        self.cancel_send_wait(ch);
        if ch.receiver_alive {
            Poll::Ready(Ok(()))
        } else {
            Poll::Ready(Err(SendError(())))
        }
    }

    /// Remove the waker left behind by a pending poll.
    pub fn cancel_send_wait<T>(&mut self, ch: &mut Channel<T>)
        requires
            old(ch).wf(),
            old(ch).owns(old(self)),
        ensures
            *final(self) == *old(self),
            final(ch).wf(),
            final(ch).owns(final(self)),
            final(ch).space_waker_set(old(ch), old(self).key.slot as int, false),
    {
        ch.set_space_waker(self.key.slot, false);
    }

    /// Poll a send that waits for capacity. The value stays with the caller
    /// until the send is over; polling again after that is not allowed.
    pub fn poll_send<T>(&mut self, ch: &mut Channel<T>, value: &mut Option<T>) -> (r: Poll<
        Result<(), SendError<T>>,
    >)
        requires
            old(ch).wf(),
            old(ch).owns(old(self)),
            *old(value) is Some,
        ensures
            *final(self) == *old(self),
            final(ch).wf(),
            final(ch).owns(final(self)),
            ({
                let slot = old(self).key.slot as int;
                let room = !old(ch).lane(slot).ring.full();
                match r {
                    Poll::Pending => old(ch).receiver_alive && !room && *final(value) == *old(value)
                        && final(ch).space_waker_set(old(ch), slot, true),
                    Poll::Ready(result) => {
                        &&& *final(value) is None
                        &&& result is Ok <==> old(ch).receiver_alive && room
                        &&& result is Err <==> !old(ch).receiver_alive
                        &&& result matches Err(SendError(back)) ==> back == (*old(value))->Some_0
                        &&& exists|mid: Channel<T>| #[trigger]
                            mid.space_waker_set(old(ch), slot, false) && if result is Ok {
                                final(ch).sent(&mid, slot, (*old(value))->Some_0)
                            } else {
                                final(ch).unchanged(&mid)
                            }
                    },
                }
            }),
    {
        match self.poll_ready(ch) {
            Poll::Pending => Poll::Pending,
            Poll::Ready(_) => {
                let ghost mid = *ch;
                proof {
                    assert(mid.space_waker_set(old(ch), old(self).key.slot as int, false));
                }
                let unsent = value.take().unwrap();
                match self.try_send(ch, unsent) {
                    Ok(()) => Poll::Ready(Ok(())),
                    Err(error) => Poll::Ready(Err(SendError(error.into_inner()))),
                }
            },
        }
    }
}

impl Receiver {
    /// Poll a receive. Taken slots are given back before it returns.
    pub fn poll_recv<T>(&mut self, ch: &mut Channel<T>) -> (r: Poll<Result<T, RecvError>>)
        requires
            old(ch).wf(),
            old(ch).receiver_alive,
        ensures
            *final(self) == *old(self),
            final(ch).wf(),
            final(ch).polled(
                old(ch),
                match r {
                    Poll::Ready(Ok(value)) => Ok(value),
                    Poll::Ready(Err(_)) => Err(TryRecvError::Disconnected),
                    Poll::Pending => Err(TryRecvError::Empty),
                },
            ),
    {
        let result = self.try_recv(ch);
        let ghost mid = *ch;
        self.release_consumed(ch);
        let ghost rest = *ch;
        let waiting: bool = matches!(result, Err(TryRecvError::Empty));
        ch.set_data_waker(waiting);
        proof {
            assert(rest.all_given_back(&mid));
            assert(ch.data_waker_set(
                &rest,
                result == Err::<T, TryRecvError>(TryRecvError::Empty),
            ));
            assert(ch.polled(old(ch), result));
        }
        match result {
            Ok(value) => Poll::Ready(Ok(value)),
            Err(TryRecvError::Disconnected) => Poll::Ready(Err(RecvError)),
            Err(TryRecvError::Empty) => Poll::Pending,
        }
    }

    /// Remove the waker left behind by a pending poll.
    pub fn cancel_recv_wait<T>(&mut self, ch: &mut Channel<T>)
        requires
            old(ch).wf(),
        ensures
            *final(self) == *old(self),
            final(ch).wf(),
            final(ch).data_waker_set(old(ch), false),
    {
        ch.set_data_waker(false);
    }

    /// Poll a batch receive that waits only for its first value.
    pub fn poll_recv_batch_into<T>(
        &mut self,
        ch: &mut Channel<T>,
        output: &mut Vec<T>,
        limit: usize,
    ) -> (r: Poll<Result<usize, RecvError>>)
        requires
            old(ch).wf(),
            old(ch).receiver_alive,
        ensures
            *final(self) == *old(self),
            final(ch).wf(),
            match r {
                Poll::Ready(Ok(received)) => {
                    let values = final(output)@.skip(old(output)@.len() as int);
                    &&& received == values.len()
                    &&& final(output)@ == old(output)@ + values
                    &&& limit == 0 ==> received == 0 && final(ch).all_given_back(old(ch))
                    &&& limit > 0 ==> received > 0 && exists|mid: Channel<T>|
                        mid.wf() && mid.polled(old(ch), Ok(values[0])) && #[trigger] batched(
                            mid,
                            *final(ch),
                            values.skip(1),
                            limit - 1,
                        )
                },
                Poll::Ready(Err(_)) => limit > 0 && *final(output) == *old(output) && final(
                    ch).polled(old(ch), Err(TryRecvError::Disconnected)),
                Poll::Pending => limit > 0 && *final(output) == *old(output) && final(ch).polled(
                    old(ch),
                    Err(TryRecvError::Empty),
                ),
            },
    {
        let ghost base = output@.len() as int;
        if limit == 0 {
            self.release_consumed(ch);
            assert(output@.skip(base) =~= Seq::<T>::empty());
            assert(output@ =~= old(output)@ + output@.skip(base));
            return Poll::Ready(Ok(0));
        }
        match self.poll_recv(ch) {
            Poll::Pending => Poll::Pending,
            Poll::Ready(Err(error)) => Poll::Ready(Err(error)),
            Poll::Ready(Ok(value)) => {
                let ghost mid = *ch;
                output.push(value);
                let ghost first = output@;
                let rest: usize = self.fill_batch(ch, output, limit - 1);
                proof {
                    let values = output@.skip(base);
                    assert(output@ =~= old(output)@ + values);
                    assert(values.skip(1) =~= output@.skip(first.len() as int));
                    assert(values[0] == value);
                    let answer: Result<T, TryRecvError> = Ok(values[0]);
                    assert(mid.polled(old(ch), answer));
                    assert(batched(mid, *ch, values.skip(1), limit - 1));
                }
                Poll::Ready(Ok(rest + 1))
            },
        }
    }
}

} // verus!
