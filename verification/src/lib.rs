//! Shuffling the lines of a text too large for memory.
//!
//! The work is done in two stages. The first cuts the input into chunks of
//! bounded size and permutes each one; the second interleaves the chunks by
//! repeated random draws among those that still hold lines. Every stage is a
//! state machine over plain values: the caller performs the reads and the
//! writes, and hands the results in.

pub mod buffer;
pub mod chunker;
pub mod error;
pub mod merger;
pub mod pipeline;
pub mod random;
pub mod shuffle;
pub mod text;
