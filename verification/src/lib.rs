//! Typed in-process channels built from one bounded ring per sender.
pub mod bags;
pub mod bits;
pub mod chart;
pub mod config;
pub mod count;
pub mod error;
pub mod key;
pub mod mpmc;
pub mod mpsc;
pub mod parts;
pub mod publication;
pub mod ready;
pub mod ring;
pub mod teardown;
pub mod text;
pub mod wait;
