//! A self-describing, symbol-substitution text compressor.
//!
//! A text is rewritten into a shorter stream that carries its own dictionary:
//! long runs of one character are collapsed into counted escapes, repeated
//! substrings are replaced by reserved symbols that the text does not use, and
//! the symbols' meanings are written in front of the payload.
//!
//! The stages, in the order in which compression goes through them:
//! - [`alphabet`] and [`mapping`] reserve the symbols that a text leaves unused;
//! - [`runlength`] collapses runs of one character;
//! - [`grammar`] replaces repeated substrings by keys, step by step;
//! - [`mapping`] writes the stream, and [`stream`] reads it;
//! - [`codec`] puts the stages together, in both directions.
//!
//! [`text`] and [`decimal`] hold what the stages share, [`corpus`] makes
//! random texts to try the codec on, and [`laws`] states what holds of the
//! codec as a whole. [`unwinding`], [`repeats`], [`buffer`] and [`steps`]
//! hold the proofs that the laws rest on.

use vstd::prelude::*;

pub mod alphabet;
pub mod buffer;
pub mod codec;
pub mod corpus;
pub mod decimal;
pub mod grammar;
pub mod laws;
pub mod mapping;
pub mod repeats;
pub mod runlength;
pub mod steps;
pub mod stream;
pub mod text;
pub mod unwinding;

pub use crate::codec::{compress, decompress};

verus! {

/// Why a text could not be compressed, or a stream not decompressed.
#[derive(Clone, Copy, Debug, PartialEq, Eq, Structural)]
pub enum CodecError {
    /// The reserved alphabet has no unused symbol left for what compression needs.
    AlphabetExhausted,
    /// The stream does not follow the stream format.
    MalformedStream,
}

} // verus!
