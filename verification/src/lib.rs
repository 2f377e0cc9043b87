//! A single-pass ownership and borrow checker for logs of binding events,
//! together with a few small helpers on integers and strings.
//!
//! Names and scopes are plain integers. A log is a sequence of [`model::Op`];
//! [`check::check`] walks it once and reports the first operation that breaks
//! the ownership discipline. [`tracker::Tracker`] is the table behind it, for
//! callers that feed operations one at a time; [`laws`] holds what is proved
//! of every log.

pub mod basics;
pub mod model;
pub mod tracker;
pub mod check;
pub mod laws;
