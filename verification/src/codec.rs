//! The two ends of the codec: a text in, a stream out, and back.

use vstd::prelude::*;
use crate::CodecError;
use crate::alphabet::free_symbols;
use crate::grammar::{create_groups, grammar_step, replace_mapping, replayed, Step};
use crate::mapping::{fresh_mapping, serialized, Mapping, MappingView};
use crate::runlength::{collapse_repeats, collapsed, expand_repeat_chars, expanded};
use crate::stream::{expand_gen_map, parsed};
use crate::text::{chars_of, slice_of, string_of};

verus! {

/// What the grammar stage leaves behind: its steps, one after the other,
/// until one makes no substitution or fails.
pub open spec fn grammar_run(mapping: MappingView, buffer: Seq<char>) -> Step
    decreases mapping.key_pool.len(),
{
    let step = grammar_step(mapping, buffer);
    if step.outcome == Ok::<bool, CodecError>(true) {
        grammar_run(step.mapping, step.buffer)
    } else {
        step
    }
}

/// The stream for `source`.
///
/// The symbols that `source` leaves unused are reserved; its character runs
/// are collapsed; the grammar stage runs to its end; the stream is the header
/// and the dictionary followed by what is left of the text. Exhausted where
/// `source` leaves fewer than two symbols unused, or where the grammar stage
/// needs a key and has none.
pub open spec fn compressed(source: Seq<char>) -> Result<Seq<char>, CodecError> {
    let free = free_symbols(source);
    if free.len() < 2 {
        Err(CodecError::AlphabetExhausted)
    } else {
        let mapping = fresh_mapping(free);
        let end = grammar_run(mapping, collapsed(source, mapping.repeat_char));
        match end.outcome {
            Err(e) => Err(e),
            Ok(_) => Ok(serialized(end.mapping, end.buffer)),
        }
    }
}

/// The text that `stream` stands for.
///
/// The stream is read, which writes out its substring repeats; the character
/// runs of the payload are written out; the dictionary is replayed from its
/// last entry to its first. Malformed where one of the three fails.
pub open spec fn decompressed(stream: Seq<char>) -> Result<Seq<char>, CodecError> {
    match parsed(stream) {
        None => Err(CodecError::MalformedStream),
        Some((mapping, payload)) => match expanded(payload, mapping.repeat_char) {
            None => Err(CodecError::MalformedStream),
            Some(text) => match replayed(mapping.pairs, text) {
                None => Err(CodecError::MalformedStream),
                Some(source) => Ok(source),
            },
        },
    }
}

/// Compresses `source` with the symbols of `mapping`: collapses its
/// character runs and runs the grammar stage to its end. Answers with the
/// payload, and leaves in `mapping` the dictionary that belongs to it.
pub fn compress_with(mapping: &mut Mapping, source: &Vec<char>) -> (payload: Result<
    Vec<char>,
    CodecError,
>)
    ensures
        ({
            let end = grammar_run(
                old(mapping)@,
                collapsed(source@, old(mapping)@.repeat_char),
            );
            &&& final(mapping)@ == end.mapping
            &&& match end.outcome {
                Ok(_) => payload is Ok && payload->Ok_0@ == end.buffer,
                Err(e) => payload is Err && payload->Err_0 == e,
            }
        }),
{
    let mut buffer = slice_of(source, 0, source.len());
    assert(buffer@ =~= source@);
    collapse_repeats(mapping, &mut buffer);
    let ghost first = mapping@;
    let ghost runs_collapsed = buffer@;
    loop
        invariant_except_break
            grammar_run(mapping@, buffer@) == grammar_run(first, runs_collapsed),
        invariant
            first == old(mapping)@,
            runs_collapsed == collapsed(source@, first.repeat_char),
        ensures
            grammar_run(first, runs_collapsed) == (Step {
                mapping: mapping@,
                buffer: buffer@,
                outcome: Ok(false),
            }),
        decreases mapping@.key_pool.len(),
    {
        match create_groups(mapping, &mut buffer) {
            Err(e) => {
                return Err(e);
            },
            Ok(used) => {
                if !used {
                    break ;
                }
            },
        }
    }
    Ok(buffer)
}

/// Compresses the characters of `source` into a stream.
pub fn compress_chars(source: &Vec<char>) -> (stream: Result<Vec<char>, CodecError>)
    ensures
        match compressed(source@) {
            Ok(s) => stream is Ok && stream->Ok_0@ == s,
            Err(e) => stream is Err && stream->Err_0 == e,
        },
{
    let mut mapping = match Mapping::new(source) {
        Err(e) => {
            return Err(e);
        },
        Ok(mapping) => mapping,
    };
    match compress_with(&mut mapping, source) {
        Err(e) => Err(e),
        Ok(payload) => Ok(mapping.stringify(payload)),
    }
}

/// Decompresses the characters of `stream` into the text they stand for.
pub fn decompress_chars(stream: &Vec<char>) -> (source: Result<Vec<char>, CodecError>)
    ensures
        match decompressed(stream@) {
            Ok(s) => source is Ok && source->Ok_0@ == s,
            Err(e) => source is Err && source->Err_0 == e,
        },
{
    let mut buffer = slice_of(stream, 0, stream.len());
    assert(buffer@ =~= stream@);
    let mapping = match expand_gen_map(&mut buffer) {
        Err(e) => {
            return Err(e);
        },
        Ok(mapping) => mapping,
    };
    match expand_repeat_chars(&mapping, &mut buffer) {
        Err(e) => {
            return Err(e);
        },
        Ok(()) => {},
    }
    match replace_mapping(&mapping, &mut buffer) {
        Err(e) => {
            return Err(e);
        },
        Ok(()) => {},
    }
    Ok(buffer)
}

/// Compresses `source` into a stream that carries its own dictionary.
pub fn compress(source: &str) -> (stream: Result<String, CodecError>)
    ensures
        match compressed(source@) {
            Ok(s) => stream is Ok && stream->Ok_0@ == s,
            Err(e) => stream is Err && stream->Err_0 == e,
        },
{
    let text = chars_of(source);
    match compress_chars(&text) {
        Err(e) => Err(e),
        Ok(stream) => Ok(string_of(&stream)),
    }
}

/// Decompresses `stream` into the text that it stands for.
pub fn decompress(stream: &str) -> (source: Result<String, CodecError>)
    ensures
        match decompressed(stream@) {
            Ok(s) => source is Ok && source->Ok_0@ == s,
            Err(e) => source is Err && source->Err_0 == e,
        },
{
    let text = chars_of(stream);
    match decompress_chars(&text) {
        Err(e) => Err(e),
        Ok(source) => Ok(string_of(&source)),
    }
}

} // verus!
