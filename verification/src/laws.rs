//! What holds of the codec as a whole: which texts come back from their
//! streams, what compression leaves alone, and which streams are refused.

use vstd::prelude::*;
use crate::CodecError;
use crate::alphabet::{free_symbols, is_scalar, lemma_free_symbols};
use crate::buffer::lemma_stands_plain;
use crate::codec::{compressed, decompressed, grammar_run};
use crate::decimal::is_digit;
use crate::grammar::{
    admitted, best_group, first_run, grammar_step, groups_collapsed, key_replayed,
    lemma_scanned_first, lemma_scanned_group, lemma_scanned_heaviest, lemma_scanned_nothing,
    replaced_until_gone, scored, window_weight, Step,
};
use crate::mapping::{
    fresh_mapping, lemma_records_len, predicted_len, record, records, serialized, MappingView,
    PairView,
};
use crate::repeats::{lemma_parse_reads_repeats, lemma_repeats_plain};
use crate::runlength::{
    collapsed, expanded, lemma_collapsed_chars, lemma_collapsed_expands, lemma_collapsed_plain,
    run_length,
};
use crate::steps::{lemma_plain_steps_unwind, plain_steps};
use crate::stream::{
    carried, lemma_inside_record, lemma_parse_concat, lemma_parse_records, lemma_records_concat,
    parse_run, parse_start, parsed, DecompressState,
};
use crate::text::{contains_seq, count_occurrences, lemma_window_chars, occurs_at};
use crate::unwinding::{
    lemma_one_pass, lemma_pass_unwinds, lemma_replace_key, lemma_written_out_plain,
};

verus! {

/// The mapping that compression starts from for `source`.
pub open spec fn reserved(source: Seq<char>) -> MappingView {
    fresh_mapping(free_symbols(source))
}

/// The symbols reserved for a text stand nowhere in it.
///
/// The two control symbols and every key of the pool are candidates that
/// the text does not use; no two of them are the same symbol; and none is
/// the equals sign, which separates a key from its value.
pub proof fn law_reserved_symbols_are_unused(source: Seq<char>)
    requires
        free_symbols(source).len() >= 2,
    ensures
        ({
            let mapping = reserved(source);
            &&& mapping.ctrl_char != mapping.repeat_char
            &&& !source.contains(mapping.ctrl_char)
            &&& !source.contains(mapping.repeat_char)
            &&& mapping.ctrl_char != '='
            &&& mapping.repeat_char != '='
            &&& mapping.key_pool.no_duplicates()
            &&& forall|i: int|
                0 <= i < mapping.key_pool.len() ==> {
                    let key = #[trigger] mapping.key_pool[i];
                    &&& !source.contains(key)
                    &&& key != mapping.ctrl_char
                    &&& key != mapping.repeat_char
                    &&& key != '='
                }
        }),
{
    lemma_free_symbols(source);
    let free = free_symbols(source);
    let mapping = reserved(source);
    assert(!source.contains(free[free.len() - 1]));
    assert(!source.contains(free[free.len() - 2]));
    assert forall|i: int| 0 <= i < mapping.key_pool.len() implies {
        let key = #[trigger] mapping.key_pool[i];
        &&& !source.contains(key)
        &&& key != mapping.ctrl_char
        &&& key != mapping.repeat_char
        &&& key != '='
    } by {
        assert(mapping.key_pool[i] == free[i]);
    }
    assert forall|i: int, j: int|
        0 <= i < mapping.key_pool.len() && 0 <= j < mapping.key_pool.len() && i
            != j implies mapping.key_pool[i] != mapping.key_pool[j] by {
        assert(mapping.key_pool[i] == free[i]);
        assert(mapping.key_pool[j] == free[j]);
    }
}

/// A plain text gains only the header.
///
/// Where a text leaves two candidate symbols unused, has no run of more than
/// two equal characters and no substring of one character or more that
/// stands at two places, its stream is the two control symbols followed by
/// the text as it is.
pub proof fn law_plain_text_gains_header(source: Seq<char>)
    requires
        free_symbols(source).len() >= 2,
        forall|i: int| 0 <= i < source.len() ==> run_length(source, i) <= 2,
        forall|t: Seq<char>, i: int, j: int|
            t.len() >= 1 && occurs_at(source, t, i) && occurs_at(source, t, j) ==> i == j,
    ensures
        compressed(source) == Ok::<Seq<char>, CodecError>(
            seq![reserved(source).repeat_char, reserved(source).ctrl_char] + source,
        ),
{
    let mapping = reserved(source);
    lemma_collapsed_plain(source, mapping.repeat_char, 0);
    assert(source.subrange(0, source.len() as int) =~= source);
    lemma_scanned_nothing(source, source.len() as int / 4, 0);
    let step = grammar_step(mapping, source);
    assert(step == Step { mapping, buffer: source, outcome: Ok(false) });
    assert(grammar_run(mapping, source) == step);
    assert(records(mapping.pairs, mapping.ctrl_char) =~= Seq::<char>::empty());
    assert(serialized(mapping, source) =~= seq![mapping.repeat_char, mapping.ctrl_char]
        + source);
}

/// A substring that does not pay for its entry is not substituted.
///
/// Where the admission test fails for the substring that a step picks, the
/// step makes no substitution: the dictionary and the key pool stay as they
/// were, and the buffer is what the collapsing of adjacent copies left, in
/// which no key replaces the substring.
pub proof fn law_unprofitable_substring_is_kept(mapping: MappingView, buffer: Seq<char>)
    requires
        best_group(buffer) matches Some(group) && !admitted(
            group.data.len(),
            group.occurrences - first_run(buffer, group.data) + 1,
        ),
    ensures
        grammar_step(mapping, buffer) == (Step {
            mapping,
            buffer: groups_collapsed(buffer, best_group(buffer)->0.data, mapping.ctrl_char),
            outcome: Ok(false),
        }),
{
}

/// When the admission test can pass: for a substring that is not empty never
/// with fewer than two copies, with two copies only from seven characters
/// on, and with three only from four.
pub proof fn law_admission_bounds(len: nat, occurrences: int)
    ensures
        len >= 1 && admitted(len, occurrences) ==> occurrences >= 2,
        admitted(len, 2) <==> len >= 7,
        admitted(len, 3) <==> len >= 4,
{
    if len >= 1 && occurrences < 2 {
        assert(len * (occurrences - 1) <= occurrences - 1) by (nonlinear_arith)
            requires
                occurrences - 1 <= 0,
                len >= 1,
        ;
    }
}

/// A stream that ends inside a definition is malformed.
///
/// Where reading the first `cut` characters of a stream ends behind an
/// opening delimiter that nothing has closed yet, those characters alone
/// are refused as a stream.
pub proof fn law_cut_definition_is_malformed(stream: Seq<char>, cut: int)
    requires
        2 <= cut <= stream.len(),
        parse_run(parse_start(), stream[1], stream.subrange(2, cut)).state
            != DecompressState::Idle,
    ensures
        decompressed(stream.take(cut)) == Err::<Seq<char>, CodecError>(
            CodecError::MalformedStream,
        ),
{
    assert(stream.take(cut).skip(2) =~= stream.subrange(2, cut));
    assert(stream.take(cut)[1] == stream[1]);
}

/// A stream cut inside a dictionary entry is malformed.
///
/// Where a stream is written for a dictionary whose entries a stream can
/// carry, and is cut behind `offset` characters of the entry of index
/// `index`, at least one and not all of them, what is left is refused.
pub proof fn law_cut_entry_is_malformed(
    mapping: MappingView,
    payload: Seq<char>,
    index: int,
    offset: int,
)
    requires
        mapping.ctrl_char != '=',
        forall|i: int|
            0 <= i < mapping.pairs.len() ==> carried(
                #[trigger] mapping.pairs[i],
                mapping.ctrl_char,
            ),
        0 <= index < mapping.pairs.len(),
        1 <= offset < record(mapping.pairs[index], mapping.ctrl_char).len(),
    ensures
        decompressed(
            serialized(mapping, payload).take(
                2 + records(mapping.pairs.take(index), mapping.ctrl_char).len() + offset,
            ),
        ) == Err::<Seq<char>, CodecError>(CodecError::MalformedStream),
{
    let ctrl_char = mapping.ctrl_char;
    let pairs = mapping.pairs;
    let before = pairs.take(index);
    let entry = record(pairs[index], ctrl_char);
    let after = pairs.skip(index + 1);
    let stream = serialized(mapping, payload);
    let cut = 2 + records(before, ctrl_char).len() + offset;
    assert(pairs =~= before + seq![pairs[index]] + after);
    lemma_records_concat(before + seq![pairs[index]], after, ctrl_char);
    lemma_records_concat(before, seq![pairs[index]], ctrl_char);
    assert(records(seq![pairs[index]], ctrl_char) =~= entry) by {
        assert(seq![pairs[index]].drop_last() =~= Seq::<crate::mapping::PairView>::empty());
        assert(records(Seq::<crate::mapping::PairView>::empty(), ctrl_char) =~= Seq::<
            char,
        >::empty());
    }
    assert(stream.take(cut).skip(2) =~= records(before, ctrl_char) + entry.take(offset));
    assert(stream.take(cut)[1] == ctrl_char);
    assert forall|i: int| 0 <= i < before.len() implies carried(
        #[trigger] before[i],
        ctrl_char,
    ) by {
        assert(before[i] == pairs[i]);
    }
    lemma_parse_records(parse_start(), ctrl_char, before);
    let middle = parse_run(parse_start(), ctrl_char, records(before, ctrl_char));
    lemma_inside_record(middle, ctrl_char, pairs[index], offset);
    lemma_parse_concat(parse_start(), ctrl_char, records(before, ctrl_char), entry.take(offset));
}

/// A text that leaves fewer than two candidate symbols unused cannot be
/// compressed: the alphabet is exhausted before the first step.
pub proof fn law_too_few_symbols_exhaust(source: Seq<char>)
    requires
        free_symbols(source).len() < 2,
    ensures
        compressed(source) == Err::<Seq<char>, CodecError>(CodecError::AlphabetExhausted),
{
}

/// A step that is to substitute and finds the key pool empty fails, and
/// with it the compression that it belongs to.
pub proof fn law_step_without_key_exhausts(mapping: MappingView, buffer: Seq<char>)
    requires
        mapping.key_pool.len() == 0,
        best_group(buffer) matches Some(group) && admitted(
            group.data.len(),
            group.occurrences - first_run(buffer, group.data) + 1,
        ),
    ensures
        grammar_step(mapping, buffer).outcome == Err::<bool, CodecError>(
            CodecError::AlphabetExhausted,
        ),
        grammar_run(mapping, buffer).outcome == Err::<bool, CodecError>(
            CodecError::AlphabetExhausted,
        ),
{
}

/// The predicted length is the length of the stream for an empty
/// dictionary, and one more for a dictionary with entries.
pub proof fn law_predicted_len(mapping: MappingView, payload: Seq<char>)
    ensures
        predicted_len(mapping.pairs, payload.len()) == serialized(mapping, payload).len() + (
        if mapping.pairs.len() > 0 {
            1nat
        } else {
            0nat
        }),
{
    lemma_records_len(mapping.pairs, mapping.ctrl_char);
}

/// The group picked is the heaviest: no window of two characters up to a
/// quarter of the text that a scan finds more than once weighs more, and
/// where there is such a window a group is picked.
pub proof fn law_best_group_is_heaviest(text: Seq<char>, at: int, size: int)
    requires
        2 <= size <= text.len() as int / 4,
        0 <= at,
        at + size <= text.len(),
        count_occurrences(text, text.subrange(at, at + size)) > 1,
    ensures
        best_group(text) matches Some(group) && size * count_occurrences(
            text,
            text.subrange(at, at + size),
        ) <= group.weight,
{
    lemma_scanned_heaviest(text, text.len() as int / 4, 0, None, at, size);
}

/// Of the heaviest windows the first is picked.
///
/// Where a window of two characters up to a quarter of the text is found
/// more than once, no such window weighs more, and every such window that
/// the scan looks at before it, a longer one or one of its length to the
/// left of it, weighs less, the group picked is that window with the number
/// of its copies.
pub proof fn law_first_of_the_heaviest_is_picked(text: Seq<char>, at: int, size: int)
    requires
        2 <= size <= text.len() as int / 4,
        0 <= at,
        at + size <= text.len(),
        window_weight(text, at, size) > 0,
        forall|a: int, s: int|
            2 <= s <= text.len() as int / 4 && 0 <= a && a + s <= text.len()
                ==> #[trigger] window_weight(text, a, s) <= window_weight(text, at, size),
        forall|a: int, s: int|
            2 <= s <= text.len() as int / 4 && 0 <= a && a + s <= text.len() && (s > size || (s
                == size && a < at)) ==> #[trigger] window_weight(text, a, s) < window_weight(
                text,
                at,
                size,
            ),
    ensures
        best_group(text) == Some(
            scored(
                text.subrange(at, at + size),
                count_occurrences(text, text.subrange(at, at + size)),
            ),
        ),
{
    lemma_scanned_first(text, text.len() as int / 4, 0, None, at, size);
}

/// The run-length stage alone: a text comes back from its collapsed form.
///
/// Where a text does not hold the run delimiter, the delimiter is no digit,
/// and the text is no longer than a `usize` can count, writing out the run
/// escapes of the collapsed text gives the text.
pub proof fn law_runs_come_back(text: Seq<char>, repeat_char: char)
    requires
        text.len() <= usize::MAX,
        !text.contains(repeat_char),
        !is_digit(repeat_char),
    ensures
        expanded(collapsed(text, repeat_char), repeat_char) == Some(text),
{
    lemma_collapsed_expands(text, repeat_char, 0);
    assert(text.subrange(0, text.len() as int) =~= text);
}

/// The substitution alone: a text comes back when the entry is replayed.
///
/// Where a key stands nowhere in a text, replacing a substring of more than
/// one character by the key until it is gone, and then replaying the entry
/// of the key and the substring, gives the text.
pub proof fn law_substitution_comes_back(text: Seq<char>, target: Seq<char>, key: char)
    requires
        !text.contains(key),
        target.len() > 1,
    ensures
        key_replayed(
            replaced_until_gone(text, target, seq![key]),
            PairView { key, value: target },
        ) == Some(text),
{
    let substituted = replaced_until_gone(text, target, seq![key]);
    if contains_seq(text, target) {
        assert(!target.contains(key)) by {
            if target.contains(key) {
                lemma_window_chars(text, target, key);
            }
        }
        lemma_one_pass(text, target, key);
        lemma_pass_unwinds(text, target, key, 0);
        assert(text.subrange(0, text.len() as int) =~= text);
        lemma_written_out_plain(text, key, target);
        if substituted.contains(key) {
            lemma_replace_key(substituted, key, target, 0);
            assert(substituted.subrange(0, substituted.len() as int) =~= substituted);
        } else {
            lemma_written_out_plain(substituted, key, target);
        }
    }
}

/// The stream format alone: dictionary and payload come back from a stream.
///
/// Where every entry of a dictionary can be carried by a stream, the
/// delimiter of definitions is not the equals sign, and the payload does not
/// hold it, reading the stream written for them gives the dictionary and
/// the payload, with an empty key pool.
pub proof fn law_stream_reads_back(mapping: MappingView, payload: Seq<char>)
    requires
        mapping.ctrl_char != '=',
        !payload.contains(mapping.ctrl_char),
        forall|i: int|
            0 <= i < mapping.pairs.len() ==> carried(
                #[trigger] mapping.pairs[i],
                mapping.ctrl_char,
            ),
    ensures
        parsed(serialized(mapping, payload)) == Some(
            (MappingView { key_pool: Seq::empty(), ..mapping }, payload),
        ),
{
    let ctrl_char = mapping.ctrl_char;
    let stream = serialized(mapping, payload);
    let written = records(mapping.pairs, ctrl_char);
    assert(stream.skip(2) =~= written + payload);
    assert(stream[0] == mapping.repeat_char && stream[1] == ctrl_char);
    lemma_parse_records(parse_start(), ctrl_char, mapping.pairs);
    let middle = parse_run(parse_start(), ctrl_char, written);
    assert(middle.pairs =~= mapping.pairs);
    lemma_parse_concat(parse_start(), ctrl_char, written, payload);
    lemma_repeats_plain(payload, ctrl_char, Seq::empty());
    lemma_parse_reads_repeats(middle, ctrl_char, payload, 0);
    assert(payload.subrange(0, payload.len() as int) =~= payload);
    assert(Seq::<char>::empty() + payload =~= payload);
}

/// Round trip through plain steps.
///
/// A text is decompressed from its stream as it was where
/// - it is no longer than a `usize` can count,
/// - it leaves at least two candidate symbols unused, and the two that are
///   reserved as control symbols are no digits,
/// - the grammar stage does not run out of keys, and
/// - the steps of the grammar stage are plain, as `plain_steps` says: every
///   step that collapses or substitutes picks a substring without an equals
///   sign that stands clear of the substring repeats in its buffer, and
///   every step that substitutes picks one that stands clear of the run
///   escapes too.
///
/// A substring stands clear of the escapes of a buffer where it reaches
/// into none: it holds no delimiter, is no part of a count, and does not
/// begin with the character of a run escape.
pub proof fn law_round_trip(source: Seq<char>)
    requires
        source.len() <= usize::MAX,
        free_symbols(source).len() >= 2,
        !is_digit(reserved(source).ctrl_char),
        !is_digit(reserved(source).repeat_char),
        compressed(source) is Ok,
        plain_steps(reserved(source), collapsed(source, reserved(source).repeat_char)),
    ensures
        decompressed(compressed(source)->Ok_0) == Ok::<Seq<char>, CodecError>(source),
{
    let mapping = reserved(source);
    let free = free_symbols(source);
    let buffer = collapsed(source, mapping.repeat_char);
    law_reserved_symbols_are_unused(source);
    lemma_free_symbols(source);
    lemma_collapsed_expands(source, mapping.repeat_char, 0);
    assert(source.subrange(0, source.len() as int) =~= source);
    assert(!buffer.contains(mapping.ctrl_char)) by {
        if buffer.contains(mapping.ctrl_char) {
            lemma_collapsed_chars(source, mapping.repeat_char, 0, mapping.ctrl_char);
        }
    }
    lemma_repeats_plain(buffer, mapping.ctrl_char, Seq::empty());
    lemma_stands_plain(buffer, mapping.ctrl_char, mapping.repeat_char, 0);
    assert forall|i: int| 0 <= i < mapping.key_pool.len() implies is_scalar(
        #[trigger] mapping.key_pool[i],
    ) by {
        assert(mapping.key_pool[i] == free[i]);
    }
    lemma_plain_steps_unwind(mapping, buffer, source);
}

/// Round trip where the dictionary stays empty.
///
/// A text is decompressed from its stream as it was where
/// - the text and the text with its runs collapsed are no longer than a
///   `usize` can count,
/// - it leaves at least two candidate symbols unused, and the two that are
///   reserved as control symbols are no digits,
/// - the first step of the grammar stage substitutes nothing, and
/// - the substring that this step picks, if it picks one, holds no equals sign.
pub proof fn law_round_trip_without_dictionary(source: Seq<char>)
    requires
        source.len() <= usize::MAX,
        free_symbols(source).len() >= 2,
        collapsed(source, reserved(source).repeat_char).len() <= usize::MAX,
        !is_digit(reserved(source).ctrl_char),
        !is_digit(reserved(source).repeat_char),
        grammar_step(
            reserved(source),
            collapsed(source, reserved(source).repeat_char),
        ).outcome == Ok::<bool, CodecError>(false),
        best_group(collapsed(source, reserved(source).repeat_char)) matches Some(group)
            ==> !group.data.contains('='),
    ensures
        compressed(source) is Ok,
        decompressed(compressed(source)->Ok_0) == Ok::<Seq<char>, CodecError>(source),
{
    let mapping = reserved(source);
    let buffer = collapsed(source, mapping.repeat_char);
    law_reserved_symbols_are_unused(source);
    assert(!buffer.contains(mapping.ctrl_char)) by {
        if buffer.contains(mapping.ctrl_char) {
            lemma_collapsed_chars(source, mapping.repeat_char, 0, mapping.ctrl_char);
        }
    }
    if best_group(buffer) is Some {
        let group = best_group(buffer)->0;
        lemma_scanned_group(buffer, buffer.len() as int / 4, 0, None);
        assert(!group.data.contains(mapping.ctrl_char)) by {
            if group.data.contains(mapping.ctrl_char) {
                lemma_window_chars(buffer, group.data, mapping.ctrl_char);
            }
        }
    }
    law_round_trip(source);
}

} // verus!
