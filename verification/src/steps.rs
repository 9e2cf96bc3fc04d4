//! Plain steps of the grammar stage, and what they keep true of the mapping
//! and the buffer, so that the stream at the end is decompressed to the text
//! at the beginning.

use vstd::prelude::*;
use crate::CodecError;
use crate::alphabet::is_scalar;
use crate::buffer::{
    clear_of_runs, collapse_setting, lemma_collapse_stands, lemma_occurrence_stands,
    lemma_pass_stands, lemma_stands_as_read, never_behind, pass_kept, stands_for,
};
use crate::codec::{decompressed, grammar_run};
use crate::decimal::{decimal, has_other_char, is_digit, lemma_decimal_reads_back};
use crate::grammar::{
    best_group, first_run, grammar_step, group_escape, groups_collapsed, key_replayed,
    lemma_count_fits, lemma_first_run_counted, lemma_scanned_group, replaced_until_gone, replayed,
    window_group, GroupView,
};
use crate::mapping::{records, serialized, MappingView, PairView};
use crate::repeats::{
    bodies_short_from, clear_of_repeats, lemma_bodies_short_allows, lemma_collapse_keeps_payload,
    lemma_parse_reads_repeats, repeat_token, repeats_written,
};
use crate::stream::{carried, lemma_parse_concat, lemma_parse_records, parse_run, parse_start};
use crate::text::{
    contains_seq, lemma_repeat_chars, lemma_repeat_len, lemma_repeat_starts, lemma_window_chars,
    occurs_at, repeat_seq, replace_seq,
};
use crate::unwinding::{
    lemma_one_pass, lemma_pass_copies, lemma_pass_keeps_behind, lemma_replace_chars,
    lemma_replace_key, lemma_written_out_keeps, lemma_written_out_plain, written_out,
};

verus! {

/// What makes the pick of a step plain: the buffer is no longer than a
/// `usize` can count, and the substring picked holds no equals sign and
/// stands clear of the substring repeats in the buffer.
pub open spec fn plain_pick(mapping: MappingView, buffer: Seq<char>, target: Seq<char>) -> bool {
    &&& buffer.len() <= usize::MAX
    &&& !target.contains('=')
    &&& clear_of_repeats(buffer, target, mapping.ctrl_char)
}

/// What more makes a step plain that substitutes: where it collapses
/// adjacent copies first, its substring has a character that is neither
/// digit nor plus sign; and its substring stands clear of the run escapes in
/// the buffer.
pub open spec fn plain_substitution(
    mapping: MappingView,
    buffer: Seq<char>,
    target: Seq<char>,
) -> bool {
    &&& first_run(buffer, target) > 1 ==> has_other_char(target)
    &&& clear_of_runs(buffer, target, mapping.repeat_char)
}

/// The steps of the grammar stage from this mapping and buffer on are plain:
/// each that collapses or substitutes makes a plain pick, and each that
/// substitutes makes a plain substitution.
pub open spec fn plain_steps(mapping: MappingView, buffer: Seq<char>) -> bool
    decreases mapping.key_pool.len(),
{
    let step = grammar_step(mapping, buffer);
    match best_group(buffer) {
        None => true,
        Some(group) => {
            &&& step.buffer != buffer ==> plain_pick(mapping, buffer, group.data)
            &&& step.outcome == Ok::<bool, CodecError>(true) ==> {
                &&& plain_pick(mapping, buffer, group.data)
                &&& plain_substitution(mapping, buffer, group.data)
                &&& plain_steps(step.mapping, step.buffer)
            }
        },
    }
}

/// What the grammar stage keeps true of its symbols from step to step: the
/// control symbols are two symbols, neither a digit, and the delimiter of
/// definitions is not the equals sign; a free key stands nowhere in the text
/// that the buffer stands for; and every entry made can be carried by a
/// stream.
pub open spec fn symbols_kept(mapping: MappingView, buffer: Seq<char>) -> bool {
    &&& !is_digit(mapping.ctrl_char)
    &&& !is_digit(mapping.repeat_char)
    &&& mapping.ctrl_char != '='
    &&& mapping.ctrl_char != mapping.repeat_char
    &&& mapping.key_pool.no_duplicates()
    &&& forall|i: int|
        0 <= i < mapping.key_pool.len() ==> {
            let key = #[trigger] mapping.key_pool[i];
            &&& is_scalar(key)
            &&& stands_for(buffer, mapping.ctrl_char, mapping.repeat_char) matches Some(text)
                ==> !text.contains(key)
            &&& key != mapping.ctrl_char
            &&& key != mapping.repeat_char
            &&& key != '='
        }
    &&& forall|i: int|
        0 <= i < mapping.pairs.len() ==> carried(#[trigger] mapping.pairs[i], mapping.ctrl_char)
}

/// What the grammar stage keeps true of its buffer from step to step: every
/// substring repeat in it has a substring of at most one character, and the
/// text that it stands for, with the dictionary replayed, is `source`.
pub open spec fn payload_unwinds(mapping: MappingView, buffer: Seq<char>, source: Seq<char>) -> bool {
    &&& bodies_short_from(buffer, mapping.ctrl_char, 0, Seq::empty())
    &&& stands_for(buffer, mapping.ctrl_char, mapping.repeat_char) is Some
    &&& replayed(mapping.pairs, stands_for(buffer, mapping.ctrl_char, mapping.repeat_char)->0)
        == Some(source)
}

/// What the grammar stage keeps true from step to step while its steps are plain.
pub open spec fn unwinds_to(mapping: MappingView, buffer: Seq<char>, source: Seq<char>) -> bool {
    symbols_kept(mapping, buffer) && payload_unwinds(mapping, buffer, source)
}

/// The run of adjacent copies that a step collapses, and the repeat that it
/// writes for it.
///
/// The run is longer than one character, begins with the substring, and
/// holds only characters of the substring, of which it holds each; the
/// repeat is the one whose count is the number of copies in decimal and
/// whose substring is the substring.
pub proof fn lemma_first_run_token(buffer: Seq<char>, group: GroupView, ctrl_char: char)
    requires
        window_group(buffer, group),
        buffer.len() <= usize::MAX,
        first_run(buffer, group.data) > 1,
    ensures
        ({
            let count = first_run(buffer, group.data);
            let run = repeat_seq(group.data, count);
            let digits = decimal(count);
            &&& run.len() >= 2
            &&& run.take(group.data.len() as int) == group.data
            &&& forall|c: char| #[trigger] run.contains(c) ==> group.data.contains(c)
            &&& has_other_char(group.data) ==> has_other_char(run)
            &&& forall|i: int| 0 <= i < digits.len() ==> is_digit(#[trigger] digits[i])
            &&& crate::decimal::parsed_count(digits) == Some(count)
            &&& group_escape(count, group.data, ctrl_char) == repeat_token(
                digits,
                group.data,
                ctrl_char,
            )
        }),
{
    let target = group.data;
    let count = first_run(buffer, target);
    let run = repeat_seq(target, count);
    let digits = decimal(count);
    lemma_first_run_counted(buffer, target);
    lemma_count_fits(buffer, target, 0);
    assert(count <= group.occurrences * target.len()) by (nonlinear_arith)
        requires
            count <= group.occurrences,
            target.len() >= 1,
    ;
    lemma_repeat_len(target, count);
    assert(count * target.len() >= 2) by (nonlinear_arith)
        requires
            count >= 2,
            target.len() >= 1,
    ;
    lemma_repeat_starts(target, count);
    assert forall|c: char| #[trigger] run.contains(c) implies target.contains(c) by {
        lemma_repeat_chars(target, count, c);
    }
    if has_other_char(target) {
        let k = choose|k: int|
            0 <= k < target.len() && !is_digit(#[trigger] target[k]) && target[k] != '+';
        assert(run.take(target.len() as int)[k] == run[k]);
    }
    lemma_decimal_reads_back(count);
    assert(group_escape(count, target, ctrl_char) =~= repeat_token(digits, target, ctrl_char));
}

/// Collapsing the first run of a plain pick keeps the payload that the
/// buffer is read as.
pub proof fn lemma_collapse_reads_the_same(buffer: Seq<char>, group: GroupView, ctrl_char: char)
    requires
        window_group(buffer, group),
        buffer.len() <= usize::MAX,
        !is_digit(ctrl_char),
        ctrl_char != '=',
        !group.data.contains('='),
        clear_of_repeats(buffer, group.data, ctrl_char),
        repeats_written(buffer, ctrl_char) is Some,
        bodies_short_from(buffer, ctrl_char, 0, Seq::empty()),
    ensures
        repeats_written(groups_collapsed(buffer, group.data, ctrl_char), ctrl_char)
            == repeats_written(buffer, ctrl_char),
{
    let target = group.data;
    let count = first_run(buffer, target);
    if count > 1 {
        let run = repeat_seq(target, count);
        let digits = decimal(count);
        lemma_first_run_token(buffer, group, ctrl_char);
        assert(!run.contains(ctrl_char));
        assert(!digits.contains(ctrl_char) && !digits.contains('='));
        lemma_collapse_keeps_payload(buffer, run, digits, target, ctrl_char, 0);
    }
}

/// The stream of a buffer whose last step substituted nothing is
/// decompressed to what the buffer unwinds to.
pub proof fn lemma_last_step_reads_back(mapping: MappingView, buffer: Seq<char>, source: Seq<char>)
    requires
        unwinds_to(mapping, buffer, source),
        grammar_step(mapping, buffer).outcome == Ok::<bool, CodecError>(false),
        best_group(buffer) matches Some(group) ==> grammar_step(mapping, buffer).buffer == buffer
            || plain_pick(mapping, buffer, group.data),
    ensures
        decompressed(
            serialized(grammar_step(mapping, buffer).mapping, grammar_step(mapping, buffer).buffer),
        ) == Ok::<Seq<char>, CodecError>(source),
{
    let ctrl_char = mapping.ctrl_char;
    let repeat_char = mapping.repeat_char;
    let step = grammar_step(mapping, buffer);
    assert(step.mapping == mapping);
    let stream = serialized(mapping, step.buffer);
    let written = records(mapping.pairs, ctrl_char);
    assert(stream.skip(2) =~= written + step.buffer);
    assert(stream[0] == repeat_char && stream[1] == ctrl_char);
    lemma_parse_records(parse_start(), ctrl_char, mapping.pairs);
    let middle = parse_run(parse_start(), ctrl_char, written);
    assert(middle.pairs =~= mapping.pairs);
    lemma_parse_concat(parse_start(), ctrl_char, written, step.buffer);
    lemma_stands_as_read(buffer, ctrl_char, repeat_char, 0);
    if step.buffer != buffer {
        lemma_scanned_group(buffer, buffer.len() as int / 4, 0, None);
        lemma_collapse_reads_the_same(buffer, best_group(buffer)->0, ctrl_char);
    }
    assert(repeats_written(step.buffer, ctrl_char) == repeats_written(buffer, ctrl_char));
    lemma_parse_reads_repeats(middle, ctrl_char, step.buffer, 0);
    assert(step.buffer.subrange(0, step.buffer.len() as int) =~= step.buffer);
    let payload = repeats_written(buffer, ctrl_char)->0;
    assert(Seq::<char>::empty() + payload =~= payload);
}

/// Collapsing the first run of a plain substitution keeps what the buffer
/// stands for; afterwards a repeat has a substring of at most one character
/// or the substring that was collapsed, and the buffer holds nothing new
/// but the delimiter and digits.
pub proof fn lemma_collapse_unwinds(mapping: MappingView, buffer: Seq<char>, group: GroupView)
    requires
        symbols_kept(mapping, buffer),
        window_group(buffer, group),
        plain_pick(mapping, buffer, group.data),
        plain_substitution(mapping, buffer, group.data),
        stands_for(buffer, mapping.ctrl_char, mapping.repeat_char) is Some,
        bodies_short_from(buffer, mapping.ctrl_char, 0, Seq::empty()),
    ensures
        ({
            let collapsed = groups_collapsed(buffer, group.data, mapping.ctrl_char);
            &&& stands_for(collapsed, mapping.ctrl_char, mapping.repeat_char) == stands_for(
                buffer,
                mapping.ctrl_char,
                mapping.repeat_char,
            )
            &&& bodies_short_from(collapsed, mapping.ctrl_char, 0, group.data)
            &&& forall|c: char| #[trigger]
                collapsed.contains(c) ==> buffer.contains(c) || c == mapping.ctrl_char
                    || is_digit(c)
            &&& collapsed.contains(mapping.ctrl_char) ==> has_other_char(group.data)
            &&& clear_of_runs(collapsed, group.data, mapping.repeat_char)
        }),
{
    let ctrl_char = mapping.ctrl_char;
    let repeat_char = mapping.repeat_char;
    let target = group.data;
    let count = first_run(buffer, target);
    let collapsed = groups_collapsed(buffer, target, ctrl_char);
    if count > 1 {
        let run = repeat_seq(target, count);
        let digits = decimal(count);
        let escape = group_escape(count, target, ctrl_char);
        lemma_first_run_token(buffer, group, ctrl_char);
        assert(!digits.contains(ctrl_char) && !digits.contains(repeat_char) && !digits.contains(
            '=',
        ));
        assert(never_behind(buffer, run, repeat_char)) by {
            assert forall|at: int| 1 <= at && #[trigger] occurs_at(buffer, run, at) implies buffer[at
                - 1] != repeat_char by {
                assert(buffer.subrange(at, at + run.len()).take(target.len() as int)
                    =~= buffer.subrange(at, at + target.len()));
                assert(occurs_at(buffer, target, at));
            }
        }
        assert(collapse_setting(buffer, run, digits, target, ctrl_char, repeat_char));
        lemma_collapse_stands(buffer, run, digits, target, ctrl_char, repeat_char, 0);
        // the substring still stands nowhere behind the run delimiter
        assert(escape[0] == ctrl_char);
        assert(!escape.contains(repeat_char)) by {
            if escape.contains(repeat_char) {
                let k = choose|k: int| 0 <= k < escape.len() && escape[k] == repeat_char;
                if 1 <= k < 1 + digits.len() {
                    assert(escape[k] == digits[k - 1]);
                } else if 2 + digits.len() <= k < 2 + digits.len() + target.len() {
                    assert(escape[k] == target[k - 2 - digits.len()]);
                    assert(target.contains(repeat_char));
                }
            }
        }
        assert forall|at: int| 1 <= at && #[trigger] occurs_at(collapsed, target, at) implies collapsed[at
            - 1] != repeat_char by {
            lemma_pass_keeps_behind(buffer, run, escape, target, repeat_char, 0, at);
        }
        assert forall|c: char| #[trigger] collapsed.contains(c) implies buffer.contains(c) || c
            == ctrl_char || is_digit(c) by {
            lemma_replace_chars(buffer, run, escape, 0, c);
            if escape.contains(c) {
                let k = choose|k: int| 0 <= k < escape.len() && escape[k] == c;
                if 1 <= k < 1 + digits.len() {
                    assert(escape[k] == digits[k - 1]);
                } else if 2 + digits.len() <= k < 2 + digits.len() + target.len() {
                    assert(escape[k] == target[k - 2 - digits.len()]);
                    assert(target.contains(c));
                    lemma_window_chars(buffer, target, c);
                }
            }
        }
    } else {
        lemma_bodies_short_allows(buffer, ctrl_char, 0, target);
    }
}

/// The shape of a plain step that substitutes: the last key of the pool,
/// which stands neither in the substring nor in the text that the buffer
/// stands for, replaces the substring in one pass over the buffer as
/// collapsing left it, and becomes the key of a new last entry. Neither the
/// collapsing nor the pass changes what the buffer stands for, but that the
/// pass leaves the key for the substring.
pub proof fn lemma_step_shape(mapping: MappingView, buffer: Seq<char>)
    requires
        symbols_kept(mapping, buffer),
        stands_for(buffer, mapping.ctrl_char, mapping.repeat_char) is Some,
        bodies_short_from(buffer, mapping.ctrl_char, 0, Seq::empty()),
        grammar_step(mapping, buffer).outcome == Ok::<bool, CodecError>(true),
        best_group(buffer) matches Some(group) && plain_pick(mapping, buffer, group.data)
            && plain_substitution(mapping, buffer, group.data),
    ensures
        ({
            let step = grammar_step(mapping, buffer);
            let target = best_group(buffer)->0.data;
            let key = mapping.key_pool.last();
            let collapsed = groups_collapsed(buffer, target, mapping.ctrl_char);
            &&& mapping.key_pool.len() > 0
            &&& is_scalar(key)
            &&& step.mapping == (MappingView {
                key_pool: mapping.key_pool.drop_last(),
                pairs: mapping.pairs.push(PairView { key, value: target }),
                ..mapping
            })
            &&& step.buffer == replace_seq(collapsed, target, seq![key])
            &&& !target.contains(key)
            &&& !target.contains(mapping.ctrl_char)
            &&& stands_for(collapsed, mapping.ctrl_char, mapping.repeat_char) == stands_for(
                buffer,
                mapping.ctrl_char,
                mapping.repeat_char,
            )
            &&& pass_kept(collapsed, target, key, mapping.ctrl_char, mapping.repeat_char, 0)
        }),
{
    let ctrl_char = mapping.ctrl_char;
    let repeat_char = mapping.repeat_char;
    let step = grammar_step(mapping, buffer);
    let group = best_group(buffer)->0;
    let target = group.data;
    let key = mapping.key_pool.last();
    let pool = mapping.key_pool;
    let collapsed = groups_collapsed(buffer, target, ctrl_char);
    assert(pool[pool.len() - 1] == key);
    assert(step.buffer == replaced_until_gone(collapsed, target, seq![key]));
    lemma_scanned_group(buffer, buffer.len() as int / 4, 0, None);
    assert(!target.contains(key)) by {
        if target.contains(key) {
            let at = choose|at: int| occurs_at(buffer, target, at);
            lemma_occurrence_stands(buffer, target, ctrl_char, repeat_char, 0, at, key);
        }
    }
    lemma_collapse_unwinds(mapping, buffer, group);
    assert(collapsed.contains(repeat_char) ==> buffer.contains(repeat_char));
    lemma_one_pass(collapsed, target, key);
    assert(step.buffer == replace_seq(collapsed, target, seq![key])) by {
        if !contains_seq(collapsed, target) {
            lemma_pass_copies(collapsed, target, seq![key], 0, collapsed.len() as int);
            assert(collapsed.subrange(0, collapsed.len() as int) + Seq::<char>::empty()
                =~= collapsed);
        }
    }
    lemma_pass_stands(collapsed, target, key, ctrl_char, repeat_char, 0);
}

/// A plain step that substitutes keeps what the grammar stage keeps true of
/// its symbols.
pub proof fn lemma_step_keeps_symbols(mapping: MappingView, buffer: Seq<char>)
    requires
        symbols_kept(mapping, buffer),
        stands_for(buffer, mapping.ctrl_char, mapping.repeat_char) is Some,
        bodies_short_from(buffer, mapping.ctrl_char, 0, Seq::empty()),
        grammar_step(mapping, buffer).outcome == Ok::<bool, CodecError>(true),
        best_group(buffer) matches Some(group) && plain_pick(mapping, buffer, group.data)
            && plain_substitution(mapping, buffer, group.data),
    ensures
        symbols_kept(grammar_step(mapping, buffer).mapping, grammar_step(mapping, buffer).buffer),
{
    let ctrl_char = mapping.ctrl_char;
    let repeat_char = mapping.repeat_char;
    let step = grammar_step(mapping, buffer);
    let target = best_group(buffer)->0.data;
    let key = mapping.key_pool.last();
    let pool = mapping.key_pool;
    lemma_step_shape(mapping, buffer);
    assert(pool[pool.len() - 1] == key);
    let before = stands_for(buffer, ctrl_char, repeat_char)->0;
    let after = stands_for(step.buffer, ctrl_char, repeat_char)->0;
    assert forall|i: int| 0 <= i < step.mapping.key_pool.len() implies {
        let k = #[trigger] step.mapping.key_pool[i];
        &&& is_scalar(k)
        &&& !after.contains(k)
        &&& k != ctrl_char
        &&& k != repeat_char
        &&& k != '='
    } by {
        let k = step.mapping.key_pool[i];
        assert(k == pool[i]);
        if after.contains(k) {
            lemma_written_out_keeps(after, key, target, k);
        }
    }
    assert forall|i: int| 0 <= i < step.mapping.pairs.len() implies carried(
        #[trigger] step.mapping.pairs[i],
        ctrl_char,
    ) by {
        if i < mapping.pairs.len() {
            assert(step.mapping.pairs[i] == mapping.pairs[i]);
        }
    }
}

/// A plain step that substitutes keeps what the grammar stage keeps true of
/// its buffer.
pub proof fn lemma_step_keeps_payload(mapping: MappingView, buffer: Seq<char>, source: Seq<char>)
    requires
        unwinds_to(mapping, buffer, source),
        grammar_step(mapping, buffer).outcome == Ok::<bool, CodecError>(true),
        best_group(buffer) matches Some(group) && plain_pick(mapping, buffer, group.data)
            && plain_substitution(mapping, buffer, group.data),
    ensures
        payload_unwinds(
            grammar_step(mapping, buffer).mapping,
            grammar_step(mapping, buffer).buffer,
            source,
        ),
{
    let ctrl_char = mapping.ctrl_char;
    let repeat_char = mapping.repeat_char;
    let step = grammar_step(mapping, buffer);
    let target = best_group(buffer)->0.data;
    let key = mapping.key_pool.last();
    let collapsed = groups_collapsed(buffer, target, ctrl_char);
    lemma_step_shape(mapping, buffer);
    let pair = PairView { key, value: target };
    assert(step.mapping.pairs.last() == pair);
    assert(step.mapping.pairs.drop_last() =~= mapping.pairs);
    let before = stands_for(buffer, ctrl_char, repeat_char)->0;
    // replaying the new entry undoes the substitution
    let after = stands_for(step.buffer, ctrl_char, repeat_char)->0;
    assert(written_out(after, key, target) == before);
    if after.contains(key) {
        lemma_replace_key(after, key, target, 0);
        assert(after.subrange(0, after.len() as int) =~= after);
    } else {
        lemma_written_out_plain(after, key, target);
    }
    assert(key_replayed(after, pair) == Some(before));
}

/// From a mapping and a buffer that unwind to `source`, plain steps lead to
/// a stream that is decompressed to `source`.
pub proof fn lemma_plain_steps_unwind(mapping: MappingView, buffer: Seq<char>, source: Seq<char>)
    requires
        unwinds_to(mapping, buffer, source),
        plain_steps(mapping, buffer),
        grammar_run(mapping, buffer).outcome is Ok,
    ensures
        decompressed(
            serialized(grammar_run(mapping, buffer).mapping, grammar_run(mapping, buffer).buffer),
        ) == Ok::<Seq<char>, CodecError>(source),
    decreases mapping.key_pool.len(),
{
    let step = grammar_step(mapping, buffer);
    if step.outcome == Ok::<bool, CodecError>(true) {
        lemma_step_keeps_symbols(mapping, buffer);
        lemma_step_keeps_payload(mapping, buffer, source);
        lemma_plain_steps_unwind(step.mapping, step.buffer, source);
    } else {
        lemma_last_step_reads_back(mapping, buffer, source);
    }
}

} // verus!
