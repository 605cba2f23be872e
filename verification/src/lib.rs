//! Diagnostic output that is written atomically, without a lock, and that
//! leaves the error status of the thread as it found it.
//!
//! The heart is [`writer::Writer`]: it gathers a message in a buffer of
//! fixed size and says what is to be written to the destination, in as few
//! writes as the size allows. It performs no write itself: the caller makes
//! each write and hands its result back. [`model`] describes the writer as a
//! state machine over plain values, [`run`] what a sequence of texts and
//! results does to it, and [`laws`] what holds of every such sequence.

pub mod ambient;
pub mod dbg;
pub mod decimal;
pub mod laws;
pub mod log;
pub mod model;
pub mod print;
pub mod run;
pub mod scalar;
pub mod text;
pub mod utf16;
pub mod writer;
