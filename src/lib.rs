//! Keyboard activity session model: folds key press and release events into
//! a held-key set, auto-repeat counters, a bounded pattern buffer and a
//! bounded, newest-first event log, and computes the text and order in which
//! a view shows them.
pub mod display;
pub mod laws;
pub mod session;
