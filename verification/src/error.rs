//! Errors reported by both channel variants.
use vstd::prelude::*;

use crate::text::{append_decimal, decimal};

verus! {

/// Invalid channel configuration shared by both channel variants.
#[derive(Debug, Clone, Copy, PartialEq, Eq)]
pub enum ChannelError {
    /// `capacity_per_sender` was zero.
    ZeroCapacity,
    /// `capacity_per_sender` exceeded the reported maximum.
    CapacityTooLarge {
        /// Requested capacity.
        requested: usize,
        /// Maximum supported capacity.
        max: usize,
    },
}

impl ChannelError {
    /// The message shown to a user.
    pub open spec fn message(self) -> Seq<char> {
        match self {
            ChannelError::ZeroCapacity => "capacity_per_sender must be > 0"@,
            ChannelError::CapacityTooLarge { requested, max } => "capacity_per_sender must be <= "@
                + decimal(max as nat),
        }
    }

    /// Render the message.
    pub fn to_string(&self) -> (text: String)
        ensures
            text@ == self.message(),
    {
        match *self {
            ChannelError::ZeroCapacity => String::from_str("capacity_per_sender must be > 0"),
            ChannelError::CapacityTooLarge { max, .. } => {
                let mut text = String::from_str("capacity_per_sender must be <= ");
                append_decimal(&mut text, max as u64);
                text
            },
        }
    }
}

/// Sender registration failed.
#[derive(Debug, Clone, Copy, PartialEq, Eq)]
pub enum TryRegisterError {
    /// All receivers have been dropped.
    Disconnected,
}

impl TryRegisterError {
    /// The message shown to a user.
    pub open spec fn message(self) -> Seq<char> {
        "all receivers have been dropped"@
    }

    /// Render the message.
    pub fn to_string(&self) -> (text: String)
        ensures
            text@ == self.message(),
    {
        String::from_str("all receivers have been dropped")
    }
}

/// Bounded sender registration failed.
#[derive(Debug, Clone, Copy, PartialEq, Eq)]
pub enum TryRegisterBoundedError {
    /// The channel already holds the requested number of lanes.
    AtCapacity,
    /// All receivers have been dropped.
    Disconnected,
}

/// Blocking send failed because the receiving side disconnected.
#[derive(Debug, Clone, Copy, PartialEq, Eq)]
pub struct SendError<T>(pub T);

impl<T> SendError<T> {
    /// Return the unsent value.
    pub fn into_inner(self) -> (value: T)
        ensures
            value == self.0,
    {
        self.0
    }

    /// The message shown to a user.
    pub open spec fn message(self) -> Seq<char> {
        "all receivers have been dropped"@
    }

    /// Render the message.
    pub fn to_string(&self) -> (text: String)
        ensures
            text@ == self.message(),
    {
        String::from_str("all receivers have been dropped")
    }
}

/// Non-blocking send failed.
#[derive(Debug, Clone, Copy, PartialEq, Eq)]
pub enum TrySendError<T> {
    /// This sender's ring is full.
    Full(T),
    /// All receivers have been dropped.
    Disconnected(T),
}

impl<T> TrySendError<T> {
    /// The unsent value.
    pub open spec fn inner(self) -> T {
        match self {
            TrySendError::Full(value) => value,
            TrySendError::Disconnected(value) => value,
        }
    }

    /// Return the unsent value.
    pub fn into_inner(self) -> (value: T)
        ensures
            value == self.inner(),
    {
        match self {
            TrySendError::Full(value) => value,
            TrySendError::Disconnected(value) => value,
        }
    }

    /// The message shown to a user.
    pub open spec fn message(self) -> Seq<char> {
        match self {
            TrySendError::Full(_) => "sender ring is full"@,
            TrySendError::Disconnected(_) => "all receivers have been dropped"@,
        }
    }

    /// Render the message.
    pub fn to_string(&self) -> (text: String)
        ensures
            text@ == self.message(),
    {
        match self {
            TrySendError::Full(_) => String::from_str("sender ring is full"),
            TrySendError::Disconnected(_) => String::from_str("all receivers have been dropped"),
        }
    }
}

/// Timed send failed.
#[derive(Debug, Clone, Copy, PartialEq, Eq)]
pub enum SendTimeoutError<T> {
    /// The timeout elapsed while this sender's ring remained full.
    Timeout(T),
    /// All receivers were dropped.
    Disconnected(T),
}

impl<T> SendTimeoutError<T> {
    /// The unsent value.
    pub open spec fn inner(self) -> T {
        match self {
            SendTimeoutError::Timeout(value) => value,
            SendTimeoutError::Disconnected(value) => value,
        }
    }

    /// Return the unsent value.
    pub fn into_inner(self) -> (value: T)
        ensures
            value == self.inner(),
    {
        match self {
            SendTimeoutError::Timeout(value) => value,
            SendTimeoutError::Disconnected(value) => value,
        }
    }

    /// The message shown to a user.
    pub open spec fn message(self) -> Seq<char> {
        match self {
            SendTimeoutError::Timeout(_) => "timed out waiting for sender capacity"@,
            SendTimeoutError::Disconnected(_) => "all receivers have been dropped"@,
        }
    }

    /// Render the message.
    pub fn to_string(&self) -> (text: String)
        ensures
            text@ == self.message(),
    {
        match self {
            SendTimeoutError::Timeout(_) => String::from_str(
                "timed out waiting for sender capacity",
            ),
            SendTimeoutError::Disconnected(_) => String::from_str(
                "all receivers have been dropped",
            ),
        }
    }
}

/// Blocking receive failed because the sending side disconnected.
#[derive(Debug, Clone, Copy, PartialEq, Eq)]
pub struct RecvError;

impl RecvError {
    /// The message shown to a user.
    pub open spec fn message(self) -> Seq<char> {
        "all senders have been dropped"@
    }

    /// Render the message.
    pub fn to_string(&self) -> (text: String)
        ensures
            text@ == self.message(),
    {
        String::from_str("all senders have been dropped")
    }
}

/// Non-blocking receive failed.
#[derive(Debug, Clone, Copy, PartialEq, Eq)]
pub enum TryRecvError {
    /// No sender ring has visible data right now.
    Empty,
    /// All senders are gone and every registered ring is drained.
    Disconnected,
}

impl TryRecvError {
    /// The message shown to a user.
    pub open spec fn message(self) -> Seq<char> {
        match self {
            TryRecvError::Empty => "channel is empty"@,
            TryRecvError::Disconnected => "all senders have been dropped"@,
        }
    }

    /// Render the message.
    pub fn to_string(&self) -> (text: String)
        ensures
            text@ == self.message(),
    {
        match self {
            TryRecvError::Empty => String::from_str("channel is empty"),
            TryRecvError::Disconnected => String::from_str("all senders have been dropped"),
        }
    }
}

/// Timed receive failed.
#[derive(Debug, Clone, Copy, PartialEq, Eq)]
pub enum RecvTimeoutError {
    /// The timeout elapsed while the channel remained empty.
    Timeout,
    /// All senders are gone and every registered ring is drained.
    Disconnected,
}

impl RecvTimeoutError {
    /// The message shown to a user.
    pub open spec fn message(self) -> Seq<char> {
        match self {
            RecvTimeoutError::Timeout => "timed out waiting for a message"@,
            RecvTimeoutError::Disconnected => "all senders have been dropped"@,
        }
    }

    /// Render the message.
    pub fn to_string(&self) -> (text: String)
        ensures
            text@ == self.message(),
    {
        match self {
            RecvTimeoutError::Timeout => String::from_str("timed out waiting for a message"),
            RecvTimeoutError::Disconnected => String::from_str("all senders have been dropped"),
        }
    }
}

} // verus!
