//! Registration of waiters and the generations that notify them.
//!
//! A cell packs two facts into one number: the low bit says that a waiter has
//! registered, the higher bits count notifications. A waiter takes a snapshot
//! when it registers and sleeps only while the number still equals it, so a
//! notification between registration and sleep is never missed.
use vstd::prelude::*;

verus! {

/// Set while a waiter is registered.
pub const WAITING: usize = 1;

/// Added by every notification.
pub const NOTIFY_INCREMENT: usize = 2;

/// Whether the waiter bit is set.
pub open spec fn is_waiting(state: usize) -> bool {
    state % 2 == 1
}

/// The number after one more notification.
pub open spec fn notified(state: usize) -> usize {
    if state + NOTIFY_INCREMENT <= usize::MAX {
        (state + NOTIFY_INCREMENT) as usize
    } else {
        (state + NOTIFY_INCREMENT - usize::MAX - 1) as usize
    }
}

/// The number with the waiter bit set.
pub open spec fn with_waiter(state: usize) -> usize {
    if is_waiting(state) {
        state
    } else {
        (state + 1) as usize
    }
}

/// The number with the waiter bit cleared.
pub open spec fn without_waiter(state: usize) -> usize {
    if is_waiting(state) {
        (state - 1) as usize
    } else {
        state
    }
}

/// The number after `n` more notifications.
pub open spec fn notified_times(state: usize, n: nat) -> usize
    decreases n,
{
    if n == 0 {
        state
    } else {
        notified(notified_times(state, (n - 1) as nat))
    }
}

fn set_waiter(state: usize) -> (r: usize)
    ensures
        r == with_waiter(state),
{
    proof {
        assert(state | 1usize == if state % 2 == 1 {
            state as int
        } else {
            state + 1
        }) by (bit_vector);
    }
    state | WAITING
}

fn clear_waiter(state: usize) -> (r: usize)
    ensures
        r == without_waiter(state),
{
    proof {
        assert(state & !1usize == if state % 2 == 1 {
            state - 1
        } else {
            state as int
        }) by (bit_vector);
    }
    state & !WAITING
}

fn has_waiter(state: usize) -> (r: bool)
    ensures
        r == is_waiting(state),
{
    proof {
        assert(state & 1usize == state % 2) by (bit_vector);
    }
    state & WAITING != 0
}

fn count_notification(state: usize) -> (r: usize)
    ensures
        r == notified(state),
        is_waiting(r) == is_waiting(state),
{
    proof {
        lemma_notified_keeps_waiter(state);
    }
    state.wrapping_add(NOTIFY_INCREMENT)
}

/// A notification keeps the waiter bit.
pub proof fn lemma_notified_keeps_waiter(state: usize)
    ensures
        is_waiting(notified(state)) == is_waiting(state),
{
    assert(usize::MAX % 2 == 1) by {
        assert(usize::MAX == 0xffff_ffff || usize::MAX == 0xffff_ffff_ffff_ffff);
    }
}

/// What a notifier has to do for the waiters of a cell.
#[derive(Debug, Clone, Copy, PartialEq, Eq, Structural)]
pub struct Notice {
    /// Signal the condition variable of the sleeping waiter.
    pub signal: bool,
    /// Call the waker that an unfinished poll left behind.
    pub wake: bool,
}

/// Single-waiter condition cell.
#[derive(Debug, PartialEq, Eq, Structural)]
pub struct WaitCell {
    /// Waiter bit and notification count.
    pub state: usize,
    /// Whether an unfinished poll left a waker behind.
    pub waker: bool,
}

/// A registered waiter: what the cell held when it registered.
#[derive(Debug, Clone, Copy, PartialEq, Eq, Structural)]
pub struct WaitRegistration {
    /// The number to compare with before sleeping.
    pub snapshot: usize,
}

impl WaitCell {
    /// The cell after one notification.
    pub open spec fn after_notify(self) -> WaitCell {
        WaitCell { state: notified(self.state), waker: false }
    }

    /// What a notification asks for.
    pub open spec fn notice(self) -> Notice {
        Notice { signal: is_waiting(self.state), wake: self.waker }
    }

    /// A cell without waiters.
    pub fn new() -> (cell: WaitCell)
        ensures
            cell.state == 0,
            !cell.waker,
    {
        WaitCell { state: 0, waker: false }
    }

    /// Register the waiter.
    pub fn prepare(&mut self) -> (registration: WaitRegistration)
        requires
            !is_waiting(old(self).state),
        ensures
            final(self).state == with_waiter(old(self).state),
            final(self).waker == old(self).waker,
            registration.snapshot == final(self).state,
            is_waiting(final(self).state),
    {
        self.state = set_waiter(self.state);
        WaitRegistration { snapshot: self.state }
    }

    /// Notify the waiter, if one has registered.
    pub fn notify(&mut self) -> (notice: Notice)
        ensures
            *final(self) == old(self).after_notify(),
            notice == old(self).notice(),
    {
        let signal: bool = has_waiter(self.state);
        let wake: bool = self.waker;
        self.state = count_notification(self.state);
        self.waker = false;
        Notice { signal, wake }
    }

    /// Leave a waker behind. A later registration replaces an earlier one.
    pub fn register_async(&mut self)
        ensures
            final(self).state == old(self).state,
            final(self).waker,
    {
        self.waker = true;
    }

    /// Remove the waker that an unfinished poll left behind.
    pub fn cancel_async(&mut self)
        ensures
            final(self).state == old(self).state,
            !final(self).waker,
    {
        self.waker = false;
    }
}

impl WaitRegistration {
    /// Decide whether to sleep. Otherwise the registration ends at once.
    pub fn wait(&self, cell: &mut WaitCell) -> (sleep: bool)
        ensures
            sleep == (old(cell).state == self.snapshot),
            sleep ==> *final(cell) == *old(cell),
            !sleep ==> final(cell).state == without_waiter(old(cell).state) && final(cell).waker
                == old(cell).waker,
    {
        if cell.state != self.snapshot {
            self.clear(cell);
            return false;
        }
        true
    }

    /// End the registration after a sleep.
    pub fn wake_up(&self, cell: &mut WaitCell)
        ensures
            final(cell).state == without_waiter(old(cell).state),
            final(cell).waker == old(cell).waker,
    {
        self.clear(cell);
    }

    /// End the registration without sleeping.
    pub fn cancel(&self, cell: &mut WaitCell)
        ensures
            final(cell).state == without_waiter(old(cell).state),
            final(cell).waker == old(cell).waker,
    {
        self.clear(cell);
    }

    /// Take the waiter bit back. The count of notifications stays.
    pub fn clear(&self, cell: &mut WaitCell)
        ensures
            final(cell).state == without_waiter(old(cell).state),
            final(cell).waker == old(cell).waker,
    {
        cell.state = clear_waiter(cell.state);
    }
}

/// Multi-waiter condition cell.
///
/// The low bit of the state says whether any waiter exists; the exact count
/// stands beside it.
#[derive(Debug, PartialEq, Eq, Structural)]
pub struct MultiWaitCell {
    /// Waiter bit and notification count.
    pub state: usize,
    /// Registered waiters.
    pub waiters: usize,
    /// Registered waiters that are to be signalled and have not been yet.
    pub signals: usize,
}

/// One registered waiter among many.
#[derive(Debug, Clone, Copy, PartialEq, Eq, Structural)]
pub struct MultiWaitRegistration {
    /// The number to compare with before sleeping.
    pub snapshot: usize,
}

impl MultiWaitCell {
    /// The waiter bit agrees with the count, and only waiters are signalled.
    pub open spec fn wf(self) -> bool {
        &&& is_waiting(self.state) <==> self.waiters > 0
        &&& self.signals <= self.waiters
    }

    /// The cell after a notification of one waiter: one more of them is to be
    /// signalled, if there is one left.
    pub open spec fn after_notify_one(self) -> MultiWaitCell {
        MultiWaitCell {
            state: notified(self.state),
            waiters: self.waiters,
            signals: if self.signals < self.waiters {
                (self.signals + 1) as usize
            } else {
                self.waiters
            },
        }
    }

    /// The cell after a notification of all waiters: every one of them is to be
    /// signalled.
    pub open spec fn after_notify_all(self) -> MultiWaitCell {
        MultiWaitCell {
            state: notified(self.state),
            waiters: self.waiters,
            signals: self.waiters,
        }
    }

    /// A cell without waiters.
    pub fn new() -> (cell: MultiWaitCell)
        ensures
            cell.wf(),
            cell.state == 0,
            cell.waiters == 0,
            cell.signals == 0,
    {
        MultiWaitCell { state: 0, waiters: 0, signals: 0 }
    }

    /// Register one more waiter.
    pub fn prepare(&mut self) -> (registration: MultiWaitRegistration)
        requires
            old(self).wf(),
            old(self).waiters < usize::MAX,
        ensures
            final(self).wf(),
            final(self).waiters == old(self).waiters + 1,
            final(self).state == with_waiter(old(self).state),
            final(self).signals == old(self).signals,
            registration.snapshot == final(self).state,
    {
        self.waiters = self.waiters + 1;
        self.state = set_waiter(self.state);
        MultiWaitRegistration { snapshot: self.state }
    }

    /// Count a notification and mark one more waiter for a signal; tell whether
    /// there is a waiter at all.
    pub fn notify_one(&mut self) -> (signal: bool)
        requires
            old(self).wf(),
        ensures
            final(self).wf(),
            *final(self) == old(self).after_notify_one(),
            signal == (old(self).waiters > 0),
    {
        let waiting: bool = has_waiter(self.state);
        self.state = count_notification(self.state);
        if !waiting {
            return false;
        }
        if self.signals < self.waiters {
            self.signals = self.signals + 1;
        }
        self.waiters != 0
    }

    /// Count a notification and mark every waiter for a signal; tell whether
    /// there is a waiter at all.
    pub fn notify_all(&mut self) -> (signal: bool)
        requires
            old(self).wf(),
        ensures
            final(self).wf(),
            *final(self) == old(self).after_notify_all(),
            signal == (old(self).waiters > 0),
    {
        let waiting: bool = has_waiter(self.state);
        self.state = count_notification(self.state);
        if !waiting {
            return false;
        }
        self.signals = self.waiters;
        self.waiters != 0
    }

    /// How many waiters are to be signalled now. They count as signalled from
    /// here on.
    pub fn take_signals(&mut self) -> (n: usize)
        requires
            old(self).wf(),
        ensures
            final(self).wf(),
            n == old(self).signals,
            *final(self) == (MultiWaitCell { signals: 0, ..*old(self) }),
    {
        let n: usize = self.signals;
        self.signals = 0;
        n
    }
}

/// The cell after one waiter has left.
pub open spec fn without_one(cell: MultiWaitCell) -> MultiWaitCell {
    MultiWaitCell {
        state: if cell.waiters == 1 {
            without_waiter(cell.state)
        } else {
            cell.state
        },
        waiters: (cell.waiters - 1) as usize,
        signals: if cell.signals < cell.waiters {
            cell.signals
        } else {
            (cell.waiters - 1) as usize
        },
    }
}

impl MultiWaitRegistration {
    /// Decide whether to sleep. Otherwise the registration ends at once.
    pub fn wait(&self, cell: &mut MultiWaitCell) -> (sleep: bool)
        requires
            old(cell).wf(),
            old(cell).waiters > 0,
        ensures
            final(cell).wf(),
            sleep == (old(cell).state == self.snapshot),
            *final(cell) == (if sleep {
                *old(cell)
            } else {
                without_one(*old(cell))
            }),
    {
        if cell.state != self.snapshot {
            self.clear(cell);
            return false;
        }
        true
    }

    /// End the registration after a sleep.
    pub fn wake_up(&self, cell: &mut MultiWaitCell)
        requires
            old(cell).wf(),
            old(cell).waiters > 0,
        ensures
            final(cell).wf(),
            *final(cell) == without_one(*old(cell)),
    {
        self.clear(cell);
    }

    /// End the registration without sleeping.
    pub fn cancel(&self, cell: &mut MultiWaitCell)
        requires
            old(cell).wf(),
            old(cell).waiters > 0,
        ensures
            final(cell).wf(),
            *final(cell) == without_one(*old(cell)),
    {
        self.clear(cell);
    }

    /// Count one waiter less. The last to leave takes the waiter bit along; the
    /// count of notifications stays.
    pub fn clear(&self, cell: &mut MultiWaitCell)
        requires
            old(cell).wf(),
            old(cell).waiters > 0,
        ensures
            final(cell).wf(),
            *final(cell) == without_one(*old(cell)),
            final(cell).waiters == old(cell).waiters - 1,
            is_waiting(final(cell).state) <==> old(cell).waiters > 1,
            final(cell).state / 2 == old(cell).state / 2,
    {
        cell.waiters = cell.waiters - 1;
        if cell.signals > cell.waiters {
            cell.signals = cell.waiters;
        }
        if cell.waiters == 0 {
            cell.state = clear_waiter(cell.state);
        }
    }
}

/// A closed form for many notifications.
proof fn lemma_notified_times(state: usize, n: nat)
    requires
        2 * n <= usize::MAX,
    ensures
        notified_times(state, n) == if state + 2 * n <= usize::MAX {
            state + 2 * n
        } else {
            state + 2 * n - usize::MAX - 1
        },
    decreases n,
{
    if n > 0 {
        lemma_notified_times(state, (n - 1) as nat);
    }
}

/// Notifications after a registration never restore its snapshot, so the
/// waiter does not go to sleep on them.
pub proof fn law_notifications_change_snapshot(snapshot: usize, n: nat)
    requires
        0 < n,
        2 * n <= usize::MAX,
    ensures
        notified_times(snapshot, n) != snapshot,
{
    lemma_notified_times(snapshot, n);
}

/// Notifications keep the waiter bit, so every one of them signals a waiter
/// that registered before.
pub proof fn law_notifications_keep_waiter(state: usize, n: nat)
    ensures
        is_waiting(notified_times(state, n)) == is_waiting(state),
    decreases n,
{
    if n > 0 {
        law_notifications_keep_waiter(state, (n - 1) as nat);
        lemma_notified_keeps_waiter(notified_times(state, (n - 1) as nat));
    }
}

/// Registering and leaving again keeps the notifications counted so far.
pub proof fn law_leaving_undoes_registration(state: usize)
    requires
        !is_waiting(state),
    ensures
        without_waiter(with_waiter(state)) == state,
{
}

/// The cell after `n` waiters have left.
pub open spec fn without(cell: MultiWaitCell, n: nat) -> MultiWaitCell
    decreases n,
{
    if n == 0 {
        cell
    } else {
        without_one(without(cell, (n - 1) as nat))
    }
}

/// Waiters may leave in any number: those that remain stay counted, the waiter
/// bit goes with the last one and no earlier, and no notification is forgotten.
pub proof fn law_leaving_keeps_the_others(cell: MultiWaitCell, n: nat)
    requires
        cell.wf(),
        n <= cell.waiters,
    ensures
        without(cell, n).wf(),
        without(cell, n).waiters == cell.waiters - n,
        is_waiting(without(cell, n).state) <==> n < cell.waiters,
        without(cell, n).state / 2 == cell.state / 2,
    decreases n,
{
    if n > 0 {
        law_leaving_keeps_the_others(cell, (n - 1) as nat);
    }
}

} // verus!
