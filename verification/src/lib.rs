//! A transparent pager front end: size up the beginning of an input stream
//! against the terminal, then either show everything directly or hand the
//! stream to a real pager.
//!
//! The crate holds the sizing logic: estimating the on-screen width of
//! text that may contain SGR escape sequences, computing how many terminal
//! rows a buffer needs, and the incremental prefix-reading state machine
//! that decides between showing and paging without losing a byte.

pub mod estimator;
pub mod fit;
pub mod engine;
pub mod pager;
