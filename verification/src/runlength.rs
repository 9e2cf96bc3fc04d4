//! The run-length stage: long runs of one character become counted escapes.

use vstd::prelude::*;
use crate::CodecError;
use crate::decimal::{
    decimal, is_digit, lemma_decimal_reads_back, parse_count, parsed_count, to_decimal,
};
use crate::mapping::Mapping;
use crate::text::{
    distance_to, find_char_from, lemma_distance_past, lemma_distance_shift, lemma_repeat_char,
    prefixed, push_all, repeat, repeat_seq, slice_of,
};

verus! {

/// The length of the run of equal characters that begins at `start`.
pub open spec fn run_length(text: Seq<char>, start: int) -> nat
    decreases text.len() - start,
{
    if start < 0 || start >= text.len() {
        0
    } else if start + 1 < text.len() && text[start + 1] == text[start] {
        1 + run_length(text, start + 1)
    } else {
        1
    }
}

/// The escape for a run of `count` times `c`: the delimiter, the count in
/// decimal, the delimiter, the character.
pub open spec fn run_escape(count: nat, c: char, repeat_char: char) -> Seq<char> {
    seq![repeat_char] + decimal(count) + seq![repeat_char, c]
}

/// `text` from index `from` on, with every run of more than two equal
/// characters replaced by its escape. The scan goes on behind each escape.
pub open spec fn collapsed_from(text: Seq<char>, repeat_char: char, from: int) -> Seq<char>
    decreases text.len() - from,
    via collapsed_from_decreases
{
    if from < 0 || from >= text.len() {
        Seq::empty()
    } else {
        let count = run_length(text, from);
        if count > 2 {
            run_escape(count, text[from], repeat_char) + collapsed_from(
                text,
                repeat_char,
                from + count,
            )
        } else {
            seq![text[from]] + collapsed_from(text, repeat_char, from + 1)
        }
    }
}

#[via_fn]
proof fn collapsed_from_decreases(text: Seq<char>, repeat_char: char, from: int) {
    lemma_run_length_bound(text, from);
}

/// A run ends no later than the text.
pub proof fn lemma_run_length_bound(text: Seq<char>, start: int)
    ensures
        0 <= start < text.len() ==> 1 <= run_length(text, start) <= text.len() - start,
    decreases text.len() - start,
{
    if 0 <= start && start + 1 < text.len() && text[start + 1] == text[start] {
        lemma_run_length_bound(text, start + 1);
    }
}

/// `text` with every maximal run of more than two equal characters replaced
/// by its escape; shorter runs stay as they are.
pub open spec fn collapsed(text: Seq<char>, repeat_char: char) -> Seq<char> {
    collapsed_from(text, repeat_char, 0)
}

/// `text` from index `from` on, with every escape replaced by the run it
/// stands for. An escape is the delimiter, a count, the delimiter and one
/// character, whatever that character is. `None` where a count is not closed,
/// is no count, or is followed by no character.
pub open spec fn expanded_from(text: Seq<char>, repeat_char: char, from: int) -> Option<Seq<char>>
    decreases text.len() - from,
{
    if from < 0 || from >= text.len() {
        Some(Seq::empty())
    } else if text[from] == repeat_char {
        let close = from + 1 + distance_to(text, repeat_char, from + 1);
        if close + 1 >= text.len() {
            None
        } else {
            match parsed_count(text.subrange(from + 1, close)) {
                None => None,
                Some(count) => prefixed(
                    repeat_seq(seq![text[close + 1]], count),
                    expanded_from(text, repeat_char, close + 2),
                ),
            }
        }
    } else {
        prefixed(seq![text[from]], expanded_from(text, repeat_char, from + 1))
    }
}

/// `text` with every escape replaced by the run it stands for, or `None`
/// where `text` holds a malformed escape.
pub open spec fn expanded(text: Seq<char>, repeat_char: char) -> Option<Seq<char>> {
    expanded_from(text, repeat_char, 0)
}

/// A stretch of equal characters that ends at the text's end or before a
/// different character is the whole run that begins at its start.
pub proof fn lemma_run_length_is(text: Seq<char>, start: int, end: int)
    requires
        0 <= start < end <= text.len(),
        forall|j: int| start <= j < end ==> text[j] == text[start],
        end < text.len() ==> text[end] != text[start],
    ensures
        run_length(text, start) == end - start,
    decreases end - start,
{
    if start + 1 < end {
        lemma_run_length_is(text, start + 1, end);
    }
}

/// Replaces every maximal run of more than two equal characters in `source`
/// by its escape, delimited by the mapping's repeat symbol.
pub fn collapse_repeats(mapping: &Mapping, source: &mut Vec<char>)
    ensures
        final(source)@ == collapsed(old(source)@, mapping@.repeat_char),
{
    let repeat_char = mapping.repeat_char();
    let mut result: Vec<char> = Vec::new();
    let mut i: usize = 0;
    while i < source.len()
        invariant
            i <= source.len(),
            source@ == old(source)@,
            repeat_char == mapping@.repeat_char,
            result@ + collapsed_from(source@, repeat_char, i as int) == collapsed(
                source@,
                repeat_char,
            ),
        decreases source.len() - i,
    {
        let c = source[i];
        let mut j: usize = i + 1;
        while j < source.len() && source[j] == c
            invariant
                i < j <= source.len(),
                c == source@[i as int],
                forall|k: int| i <= k < j ==> source@[k] == c,
            decreases source.len() - j,
        {
            j += 1;
        }
        proof {
            lemma_run_length_is(source@, i as int, j as int);
        }
        let count = j - i;
        let ghost before = result@;
        if count > 2 {
            result.push(repeat_char);
            let digits = to_decimal(count);
            push_all(&mut result, &digits);
            result.push(repeat_char);
            result.push(c);
            assert(result@ =~= before + run_escape(count as nat, c, repeat_char));
            assert(result@ + collapsed_from(source@, repeat_char, j as int) =~= before
                + collapsed_from(source@, repeat_char, i as int));
            i = j;
        } else {
            result.push(c);
            assert(result@ + collapsed_from(source@, repeat_char, i + 1) =~= before
                + collapsed_from(source@, repeat_char, i as int));
            i += 1;
        }
    }
    assert(result@ + Seq::<char>::empty() =~= result@);
    *source = result;
}

/// Replaces every escape in `source` by the run it stands for. A malformed
/// escape makes the stream malformed, and `source` then stays as it was.
pub fn expand_repeat_chars(mapping: &Mapping, source: &mut Vec<char>) -> (done: Result<
    (),
    CodecError,
>)
    ensures
        match expanded(old(source)@, mapping@.repeat_char) {
            Some(text) => done is Ok && final(source)@ == text,
            None => done == Err::<(), CodecError>(CodecError::MalformedStream) && final(source)@
                == old(source)@,
        },
{
    let repeat_char = mapping.repeat_char();
    let mut result: Vec<char> = Vec::new();
    let mut i: usize = 0;
    assert(prefixed(result@, expanded_from(source@, repeat_char, 0)) =~= expanded(
        source@,
        repeat_char,
    )) by {
        match expanded_from(source@, repeat_char, 0) {
            Some(rest) => {
                assert(result@ + rest =~= rest);
            },
            None => {},
        }
    }
    while i < source.len()
        invariant
            i <= source.len(),
            source@ == old(source)@,
            repeat_char == mapping@.repeat_char,
            prefixed(result@, expanded_from(source@, repeat_char, i as int)) == expanded(
                source@,
                repeat_char,
            ),
        decreases source.len() - i,
    {
        let ghost before = result@;
        if source[i] == repeat_char {
            let close = find_char_from(source, repeat_char, i + 1);
            if close >= source.len() || close + 1 >= source.len() {
                return Err(CodecError::MalformedStream);
            }
            let digits = slice_of(source, i + 1, close);
            match parse_count(&digits) {
                None => {
                    return Err(CodecError::MalformedStream);
                },
                Some(count) => {
                    let mut unit: Vec<char> = Vec::new();
                    unit.push(source[close + 1]);
                    assert(unit@ =~= seq![source@[close + 1]]);
                    let run = repeat(&unit, count);
                    push_all(&mut result, &run);
                    proof {
                        match expanded_from(source@, repeat_char, close + 2) {
                            Some(rest) => {
                                assert(result@ + rest =~= before + (run@ + rest));
                            },
                            None => {},
                        }
                    }
                    i = close + 2;
                },
            }
        } else {
            result.push(source[i]);
            proof {
                match expanded_from(source@, repeat_char, i + 1) {
                    Some(rest) => {
                        assert(result@ + rest =~= before + (seq![source@[i as int]] + rest));
                    },
                    None => {},
                }
            }
            i += 1;
        }
    }
    assert(result@ + Seq::<char>::empty() =~= result@);
    *source = result;
    Ok(())
}

/// What stands in front of an index does not change how the rest is expanded.
pub proof fn lemma_expanded_shift(front: Seq<char>, text: Seq<char>, repeat_char: char, from: int)
    requires
        0 <= from,
    ensures
        expanded_from(front + text, repeat_char, front.len() + from) == expanded_from(
            text,
            repeat_char,
            from,
        ),
    decreases text.len() - from,
{
    let whole = front + text;
    let at = front.len() + from;
    if from < text.len() {
        assert(whole[at] == text[from]);
        if text[from] == repeat_char {
            lemma_distance_shift(front, text, repeat_char, from + 1);
            let close = from + 1 + distance_to(text, repeat_char, from + 1);
            if close + 1 < text.len() {
                assert(whole.subrange(at + 1, front.len() + close) =~= text.subrange(
                    from + 1,
                    close,
                ));
                assert(whole[front.len() + close + 1] == text[close + 1]);
                lemma_expanded_shift(front, text, repeat_char, close + 2);
            }
        } else {
            lemma_expanded_shift(front, text, repeat_char, from + 1);
        }
    }
}

/// A character other than the delimiter in front of a text is expanded to itself.
pub proof fn lemma_expanded_literal(c: char, rest: Seq<char>, repeat_char: char)
    requires
        c != repeat_char,
    ensures
        expanded(seq![c] + rest, repeat_char) == prefixed(seq![c], expanded(rest, repeat_char)),
{
    lemma_expanded_shift(seq![c], rest, repeat_char, 0);
}

/// The escape of a run in front of a text is expanded to the run.
pub proof fn lemma_expanded_escape(count: nat, c: char, rest: Seq<char>, repeat_char: char)
    requires
        !is_digit(repeat_char),
        count <= usize::MAX,
    ensures
        expanded(run_escape(count, c, repeat_char) + rest, repeat_char) == prefixed(
            repeat_seq(seq![c], count),
            expanded(rest, repeat_char),
        ),
{
    let digits = decimal(count);
    let escape = run_escape(count, c, repeat_char);
    let whole = escape + rest;
    lemma_decimal_reads_back(count);
    assert(escape.len() == digits.len() + 3);
    assert forall|j: int| 1 <= j < 1 + digits.len() implies whole[j] != repeat_char by {
        assert(whole[j] == digits[j - 1]);
        assert(is_digit(digits[j - 1]));
    }
    lemma_distance_past(whole, repeat_char, 1, digits.len() as int);
    let close = 1 + digits.len() as int;
    assert(whole[close] == repeat_char);
    assert(distance_to(whole, repeat_char, close) == 0);
    assert(whole.subrange(1, close) =~= digits);
    assert(whole[close + 1] == c);
    lemma_expanded_shift(escape, rest, repeat_char, 0);
}

/// Every character of a run is the run's first character.
pub proof fn lemma_run_chars(text: Seq<char>, start: int, at: int)
    requires
        0 <= start <= at < start + run_length(text, start),
    ensures
        at < text.len(),
        text[at] == text[start],
    decreases at - start,
{
    lemma_run_length_bound(text, start);
    if at > start {
        lemma_run_chars(text, start + 1, at);
    }
}

/// A run is as many copies of its first character as it is long.
pub proof fn lemma_run_is_repeat(text: Seq<char>, start: int)
    requires
        0 <= start < text.len(),
    ensures
        start + run_length(text, start) <= text.len(),
        text.subrange(start, start + run_length(text, start)) == repeat_seq(
            seq![text[start]],
            run_length(text, start),
        ),
{
    let count = run_length(text, start);
    let run = text.subrange(start, start + count);
    let copies = repeat_seq(seq![text[start]], count);
    lemma_run_length_bound(text, start);
    lemma_repeat_char(text[start], count);
    assert forall|j: int| 0 <= j < count implies #[trigger] run[j] == copies[j] by {
        lemma_run_chars(text, start, start + j);
    }
    assert(run =~= copies);
}

/// What the collapsing of runs writes from an index on is expanded to the
/// text from that index on.
pub proof fn lemma_collapsed_expands(text: Seq<char>, repeat_char: char, from: int)
    requires
        0 <= from <= text.len(),
        text.len() <= usize::MAX,
        !text.contains(repeat_char),
        !is_digit(repeat_char),
    ensures
        expanded(collapsed_from(text, repeat_char, from), repeat_char) == Some(
            text.subrange(from, text.len() as int),
        ),
    decreases text.len() - from,
{
    let end = text.len() as int;
    if from >= text.len() {
        assert(text.subrange(from, end) =~= Seq::<char>::empty());
    } else {
        let count = run_length(text, from);
        lemma_run_length_bound(text, from);
        assert(text.contains(text[from]));
        if count > 2 {
            let rest = collapsed_from(text, repeat_char, from + count);
            lemma_collapsed_expands(text, repeat_char, from + count);
            lemma_expanded_escape(count, text[from], rest, repeat_char);
            lemma_run_is_repeat(text, from);
            assert(text.subrange(from, end) =~= text.subrange(from, from + count)
                + text.subrange(from + count, end));
        } else {
            let rest = collapsed_from(text, repeat_char, from + 1);
            lemma_collapsed_expands(text, repeat_char, from + 1);
            lemma_expanded_literal(text[from], rest, repeat_char);
            assert(text.subrange(from, end) =~= seq![text[from]] + text.subrange(from + 1, end));
        }
    }
}

/// A text without a run of more than two equal characters is collapsed to itself.
pub proof fn lemma_collapsed_plain(text: Seq<char>, repeat_char: char, from: int)
    requires
        0 <= from <= text.len(),
        forall|i: int| 0 <= i < text.len() ==> run_length(text, i) <= 2,
    ensures
        collapsed_from(text, repeat_char, from) == text.subrange(from, text.len() as int),
    decreases text.len() - from,
{
    let end = text.len() as int;
    if from >= text.len() {
        assert(text.subrange(from, end) =~= Seq::<char>::empty());
    } else {
        lemma_collapsed_plain(text, repeat_char, from + 1);
        assert(text.subrange(from, end) =~= seq![text[from]] + text.subrange(from + 1, end));
    }
}

/// Collapsing runs writes nothing but characters of the text, the delimiter
/// and decimal digits.
pub proof fn lemma_collapsed_chars(text: Seq<char>, repeat_char: char, from: int, c: char)
    requires
        0 <= from,
        collapsed_from(text, repeat_char, from).contains(c),
    ensures
        text.contains(c) || c == repeat_char || is_digit(c),
    decreases text.len() - from,
{
    if from < text.len() {
        let count = run_length(text, from);
        lemma_run_length_bound(text, from);
        let whole = collapsed_from(text, repeat_char, from);
        let k = choose|k: int| 0 <= k < whole.len() && whole[k] == c;
        assert(text.contains(text[from]));
        if count > 2 {
            let escape = run_escape(count, text[from], repeat_char);
            let rest = collapsed_from(text, repeat_char, from + count);
            lemma_decimal_reads_back(count);
            if k < escape.len() {
                if 1 <= k < 1 + decimal(count).len() {
                    assert(escape[k] == decimal(count)[k - 1]);
                }
            } else {
                assert(rest[k - escape.len()] == c);
                lemma_collapsed_chars(text, repeat_char, from + count, c);
            }
        } else {
            let rest = collapsed_from(text, repeat_char, from + 1);
            if k >= 1 {
                assert(rest[k - 1] == c);
                lemma_collapsed_chars(text, repeat_char, from + 1, c);
            }
        }
    }
}

/// A run escape in front of a text, whatever text writes its count, is
/// expanded to the run it stands for.
pub proof fn lemma_expanded_token(
    digits: Seq<char>,
    literal: char,
    rest: Seq<char>,
    repeat_char: char,
)
    requires
        !digits.contains(repeat_char),
    ensures
        expanded(seq![repeat_char] + digits + seq![repeat_char, literal] + rest, repeat_char) == (
        match parsed_count(digits) {
            None => None,
            Some(count) => prefixed(repeat_seq(seq![literal], count), expanded(rest, repeat_char)),
        }),
{
    let escape = seq![repeat_char] + digits + seq![repeat_char, literal];
    let whole = escape + rest;
    assert forall|j: int| 1 <= j < 1 + digits.len() implies whole[j] != repeat_char by {
        assert(whole[j] == digits[j - 1]);
        assert(digits.contains(digits[j - 1]));
    }
    lemma_distance_past(whole, repeat_char, 1, digits.len() as int);
    let close = 1 + digits.len() as int;
    assert(whole[close] == repeat_char);
    assert(distance_to(whole, repeat_char, close) == 0);
    assert(whole.subrange(1, close) =~= digits);
    assert(whole[close + 1] == literal);
    lemma_expanded_shift(escape, rest, repeat_char, 0);
}

/// A stretch without the delimiter is expanded to itself.
pub proof fn lemma_expanded_stretch(text: Seq<char>, repeat_char: char, from: int, len: int)
    requires
        0 <= from,
        0 <= len,
        from + len <= text.len(),
        forall|k: int| from <= k < from + len ==> text[k] != repeat_char,
    ensures
        expanded_from(text, repeat_char, from) == prefixed(
            text.subrange(from, from + len),
            expanded_from(text, repeat_char, from + len),
        ),
    decreases len,
{
    let rest = expanded_from(text, repeat_char, from + len);
    if len > 0 {
        lemma_expanded_stretch(text, repeat_char, from + 1, len - 1);
        if rest is Some {
            assert(seq![text[from]] + (text.subrange(from + 1, from + len) + rest->0)
                =~= text.subrange(from, from + len) + rest->0);
        }
    } else {
        if rest is Some {
            assert(text.subrange(from, from + len) + rest->0 =~= rest->0);
        }
    }
}

} // verus!
