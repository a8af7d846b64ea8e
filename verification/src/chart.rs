//! What benchmark charts show: which rows are drawn, in which order, where, and
//! under which titles.
//!
//! Measured rates are floating-point numbers and stay with the renderer. The
//! functions here work on the other columns and name rows by their position.
pub mod arguments;
pub mod calls;
pub mod combination;
pub mod hardware;
pub mod latency;
pub mod latency_calls;
pub mod laws;
pub mod layout;
pub mod layout_calls;
pub mod lines;
pub mod names;
pub mod page;
pub mod page_calls;
pub mod results;
pub mod rows;
pub mod selection;
pub mod series;
pub mod shape;
pub mod summary;
pub mod svg;
pub mod text_calls;
pub mod words;
