//! Substring repeats in a buffer: what a buffer that carries them stands
//! for, and why collapsing adjacent copies and substituting a key keep it.

use vstd::prelude::*;
use crate::decimal::{has_other_char, is_digit, lemma_count_chars, parsed_count};
use crate::stream::{
    lemma_parse_concat, lemma_parse_inside, lemma_parse_one, parse_run, DecompressState, Parse,
};
use crate::text::{
    distance_to, lemma_distance_past, lemma_distance_reaches, lemma_distance_shift, occurs_at,
    prefixed, repeat_seq, replace_from,
};
use crate::unwinding::lemma_pass_copies;

verus! {

/// Where the count of the substring repeat that opens at `from` is closed.
pub open spec fn count_end(text: Seq<char>, ctrl_char: char, from: int) -> int {
    from + 1 + distance_to(text, ctrl_char, from + 1)
}

/// Where the substring repeat that opens at `from` is closed.
pub open spec fn repeat_end(text: Seq<char>, ctrl_char: char, from: int) -> int {
    count_end(text, ctrl_char, from) + 1 + distance_to(
        text,
        ctrl_char,
        count_end(text, ctrl_char, from) + 1,
    )
}

/// The payload that a buffer stands for from index `from` on, where every
/// delimiter in it opens a substring repeat: the delimiter, a count, the
/// delimiter, a substring, the delimiter. Each repeat is written as the
/// copies it stands for. `None` where a repeat is not closed, its count is
/// no count, or an equals sign stands inside it.
pub open spec fn repeats_written_from(text: Seq<char>, ctrl_char: char, from: int) -> Option<
    Seq<char>,
>
    decreases text.len() - from,
{
    if from < 0 || from >= text.len() {
        Some(Seq::empty())
    } else if text[from] != ctrl_char {
        prefixed(seq![text[from]], repeats_written_from(text, ctrl_char, from + 1))
    } else {
        let close = count_end(text, ctrl_char, from);
        let end = repeat_end(text, ctrl_char, from);
        let digits = text.subrange(from + 1, close);
        let body = text.subrange(close + 1, end);
        if end >= text.len() || digits.contains('=') || body.contains('=') {
            None
        } else {
            match parsed_count(digits) {
                None => None,
                Some(count) => prefixed(
                    repeat_seq(body, count),
                    repeats_written_from(text, ctrl_char, end + 1),
                ),
            }
        }
    }
}

/// The payload that a buffer with substring repeats stands for.
pub open spec fn repeats_written(text: Seq<char>, ctrl_char: char) -> Option<Seq<char>> {
    repeats_written_from(text, ctrl_char, 0)
}

/// From index `from` on, the substring of every repeat is at most one
/// character, or is `allowed`.
pub open spec fn bodies_short_from(
    text: Seq<char>,
    ctrl_char: char,
    from: int,
    allowed: Seq<char>,
) -> bool
    decreases text.len() - from,
{
    if from < 0 || from >= text.len() {
        true
    } else if text[from] != ctrl_char {
        bodies_short_from(text, ctrl_char, from + 1, allowed)
    } else {
        let close = count_end(text, ctrl_char, from);
        let end = repeat_end(text, ctrl_char, from);
        let body = text.subrange(close + 1, end);
        end < text.len() ==> (body.len() <= 1 || body == allowed) && bodies_short_from(
            text,
            ctrl_char,
            end + 1,
            allowed,
        )
    }
}

/// What stands in front of an index changes neither what the rest stands
/// for nor whether its substrings are short.
pub proof fn lemma_repeats_shift(
    front: Seq<char>,
    text: Seq<char>,
    ctrl_char: char,
    from: int,
    allowed: Seq<char>,
)
    requires
        0 <= from,
    ensures
        repeats_written_from(front + text, ctrl_char, front.len() + from) == repeats_written_from(
            text,
            ctrl_char,
            from,
        ),
        bodies_short_from(front + text, ctrl_char, front.len() + from, allowed)
            == bodies_short_from(text, ctrl_char, from, allowed),
    decreases text.len() - from,
{
    let whole = front + text;
    let at = front.len() + from;
    if from < text.len() {
        assert(whole[at] == text[from]);
        if text[from] == ctrl_char {
            lemma_distance_shift(front, text, ctrl_char, from + 1);
            let close = count_end(text, ctrl_char, from);
            lemma_distance_shift(front, text, ctrl_char, close + 1);
            let end = repeat_end(text, ctrl_char, from);
            assert(count_end(whole, ctrl_char, at) == front.len() + close);
            assert(repeat_end(whole, ctrl_char, at) == front.len() + end);
            lemma_distance_reaches(text, ctrl_char, from + 1);
            if end < text.len() {
                assert(whole.subrange(at + 1, front.len() + close) =~= text.subrange(
                    from + 1,
                    close,
                ));
                assert(whole.subrange(front.len() + close + 1, front.len() + end)
                    =~= text.subrange(close + 1, end));
                lemma_repeats_shift(front, text, ctrl_char, end + 1, allowed);
            }
        } else {
            lemma_repeats_shift(front, text, ctrl_char, from + 1, allowed);
        }
    }
}

/// A stretch without the delimiter stands for itself.
pub proof fn lemma_repeats_stretch(
    text: Seq<char>,
    ctrl_char: char,
    from: int,
    len: int,
    allowed: Seq<char>,
)
    requires
        0 <= from,
        0 <= len,
        from + len <= text.len(),
        forall|k: int| from <= k < from + len ==> text[k] != ctrl_char,
    ensures
        repeats_written_from(text, ctrl_char, from) == prefixed(
            text.subrange(from, from + len),
            repeats_written_from(text, ctrl_char, from + len),
        ),
        bodies_short_from(text, ctrl_char, from, allowed) == bodies_short_from(
            text,
            ctrl_char,
            from + len,
            allowed,
        ),
    decreases len,
{
    let rest = repeats_written_from(text, ctrl_char, from + len);
    if len > 0 {
        lemma_repeats_stretch(text, ctrl_char, from + 1, len - 1, allowed);
        if rest is Some {
            assert(seq![text[from]] + (text.subrange(from + 1, from + len) + rest->0)
                =~= text.subrange(from, from + len) + rest->0);
        }
    } else {
        if rest is Some {
            assert(text.subrange(from, from + len) + rest->0 =~= rest->0);
        }
    }
}

/// A substring repeat as a buffer writes it: the delimiter, the count, the
/// delimiter, the substring, the delimiter.
pub open spec fn repeat_token(digits: Seq<char>, body: Seq<char>, ctrl_char: char) -> Seq<char> {
    seq![ctrl_char] + digits + seq![ctrl_char] + body + seq![ctrl_char]
}

/// A substring repeat in front of a text stands for its copies.
pub proof fn lemma_repeats_token(
    digits: Seq<char>,
    body: Seq<char>,
    rest: Seq<char>,
    ctrl_char: char,
    allowed: Seq<char>,
)
    requires
        !digits.contains(ctrl_char),
        !body.contains(ctrl_char),
    ensures
        repeats_written(repeat_token(digits, body, ctrl_char) + rest, ctrl_char) == (if digits.contains(
            '=',
        ) || body.contains('=') {
            None
        } else {
            match parsed_count(digits) {
                None => None,
                Some(count) => prefixed(repeat_seq(body, count), repeats_written(rest, ctrl_char)),
            }
        }),
        bodies_short_from(repeat_token(digits, body, ctrl_char) + rest, ctrl_char, 0, allowed) == ((
        body.len() <= 1 || body == allowed) && bodies_short_from(rest, ctrl_char, 0, allowed)),
{
    let token = repeat_token(digits, body, ctrl_char);
    let whole = token + rest;
    let close = 1 + digits.len() as int;
    let end = close + 1 + body.len() as int;
    assert(token.len() == end + 1);
    assert forall|j: int| 1 <= j < close implies whole[j] != ctrl_char by {
        assert(whole[j] == digits[j - 1]);
        assert(digits.contains(digits[j - 1]));
    }
    lemma_distance_past(whole, ctrl_char, 1, digits.len() as int);
    assert(whole[close] == ctrl_char);
    assert(distance_to(whole, ctrl_char, close) == 0);
    assert forall|j: int| close + 1 <= j < end implies whole[j] != ctrl_char by {
        assert(whole[j] == body[j - close - 1]);
        assert(body.contains(body[j - close - 1]));
    }
    lemma_distance_past(whole, ctrl_char, close + 1, body.len() as int);
    assert(whole[end] == ctrl_char);
    assert(distance_to(whole, ctrl_char, end) == 0);
    assert(count_end(whole, ctrl_char, 0) == close);
    assert(repeat_end(whole, ctrl_char, 0) == end);
    assert(whole.subrange(1, close) =~= digits);
    assert(whole.subrange(close + 1, end) =~= body);
    lemma_repeats_shift(token, rest, ctrl_char, 0, allowed);
}

/// A text without the delimiter stands for itself.
pub proof fn lemma_repeats_plain(text: Seq<char>, ctrl_char: char, allowed: Seq<char>)
    requires
        !text.contains(ctrl_char),
    ensures
        repeats_written(text, ctrl_char) == Some(text),
        bodies_short_from(text, ctrl_char, 0, allowed),
{
    assert forall|k: int| 0 <= k < text.len() implies text[k] != ctrl_char by {
        assert(text.contains(text[k]));
    }
    lemma_repeats_stretch(text, ctrl_char, 0, text.len() as int, allowed);
    assert(text.subrange(0, text.len() as int) + Seq::<char>::empty() =~= text);
}

/// Outside a definition, a substring repeat is read as the copies it stands for.
pub proof fn lemma_parse_token(p: Parse, ctrl_char: char, digits: Seq<char>, body: Seq<char>)
    requires
        !p.malformed,
        p.state == DecompressState::Idle,
        ctrl_char != '=',
        !digits.contains(ctrl_char),
        !digits.contains('='),
        !body.contains(ctrl_char),
        !body.contains('='),
        parsed_count(digits) is Some,
    ensures
        parse_run(p, ctrl_char, repeat_token(digits, body, ctrl_char)) == (Parse {
            payload: p.payload + repeat_seq(body, parsed_count(digits)->0),
            count: parsed_count(digits)->0,
            buffer: Seq::empty(),
            ..p
        }),
{
    let delimiter = seq![ctrl_char];
    let s1 = parse_run(p, ctrl_char, delimiter);
    lemma_parse_one(p, ctrl_char, ctrl_char);
    let s2 = parse_run(s1, ctrl_char, digits);
    lemma_parse_inside(s1, ctrl_char, digits);
    assert(s2.buffer =~= digits);
    let s3 = parse_run(s2, ctrl_char, delimiter);
    lemma_parse_one(s2, ctrl_char, ctrl_char);
    let s4 = parse_run(s3, ctrl_char, body);
    lemma_parse_inside(s3, ctrl_char, body);
    assert(s4.buffer =~= body);
    let s5 = parse_run(s4, ctrl_char, delimiter);
    lemma_parse_one(s4, ctrl_char, ctrl_char);
    lemma_parse_concat(p, ctrl_char, delimiter, digits);
    lemma_parse_concat(p, ctrl_char, delimiter + digits, delimiter);
    lemma_parse_concat(p, ctrl_char, delimiter + digits + delimiter, body);
    lemma_parse_concat(p, ctrl_char, delimiter + digits + delimiter + body, delimiter);
}

/// Outside a definition, a buffer is read as the payload it stands for.
pub proof fn lemma_parse_reads_repeats(p: Parse, ctrl_char: char, text: Seq<char>, from: int)
    requires
        !p.malformed,
        p.state == DecompressState::Idle,
        ctrl_char != '=',
        0 <= from <= text.len(),
        repeats_written_from(text, ctrl_char, from) is Some,
    ensures
        ({
            let end = parse_run(p, ctrl_char, text.subrange(from, text.len() as int));
            &&& !end.malformed
            &&& end.state == DecompressState::Idle
            &&& end.pairs == p.pairs
            &&& end.payload == p.payload + repeats_written_from(text, ctrl_char, from)->0
        }),
    decreases text.len() - from,
{
    let len = text.len() as int;
    let written = repeats_written_from(text, ctrl_char, from)->0;
    if from >= len {
        assert(text.subrange(from, len) =~= Seq::<char>::empty());
        assert(p.payload + written =~= p.payload);
    } else if text[from] != ctrl_char {
        let rest = text.subrange(from + 1, len);
        lemma_parse_one(p, ctrl_char, text[from]);
        let middle = parse_run(p, ctrl_char, seq![text[from]]);
        lemma_parse_reads_repeats(middle, ctrl_char, text, from + 1);
        lemma_parse_concat(p, ctrl_char, seq![text[from]], rest);
        assert(seq![text[from]] + rest =~= text.subrange(from, len));
        let tail = repeats_written_from(text, ctrl_char, from + 1)->0;
        assert(p.payload.push(text[from]) + tail =~= p.payload + (seq![text[from]] + tail));
    } else {
        let close = count_end(text, ctrl_char, from);
        let end = repeat_end(text, ctrl_char, from);
        let digits = text.subrange(from + 1, close);
        let body = text.subrange(close + 1, end);
        let count = parsed_count(digits)->0;
        let rest = text.subrange(end + 1, len);
        lemma_distance_reaches(text, ctrl_char, from + 1);
        lemma_distance_reaches(text, ctrl_char, close + 1);
        assert(!digits.contains(ctrl_char));
        assert(!body.contains(ctrl_char));
        let token = repeat_token(digits, body, ctrl_char);
        lemma_parse_token(p, ctrl_char, digits, body);
        let middle = parse_run(p, ctrl_char, token);
        lemma_parse_reads_repeats(middle, ctrl_char, text, end + 1);
        lemma_parse_concat(p, ctrl_char, token, rest);
        assert(token + rest =~= text.subrange(from, len));
        let tail = repeats_written_from(text, ctrl_char, end + 1)->0;
        assert(p.payload + repeat_seq(body, count) + tail =~= p.payload + (repeat_seq(
            body,
            count,
        ) + tail));
    }
}

/// A substring that stands clear of the substring repeats of a buffer: it
/// holds no delimiter, and, where the buffer holds one, one of its
/// characters is neither digit nor plus sign.
pub open spec fn clear_of_repeats(text: Seq<char>, target: Seq<char>, ctrl_char: char) -> bool {
    &&& !target.contains(ctrl_char)
    &&& text.contains(ctrl_char) ==> has_other_char(target)
}

/// A pattern clear of the repeats stands nowhere from the opening of a
/// repeat to the end of its count.
pub proof fn lemma_count_blocks(text: Seq<char>, pattern: Seq<char>, ctrl_char: char, from: int)
    requires
        0 <= from < text.len(),
        text[from] == ctrl_char,
        count_end(text, ctrl_char, from) < text.len(),
        parsed_count(text.subrange(from + 1, count_end(text, ctrl_char, from))) is Some,
        clear_of_repeats(text, pattern, ctrl_char),
    ensures
        forall|at: int|
            from <= at <= count_end(text, ctrl_char, from) ==> !occurs_at(text, pattern, at),
{
    let close = count_end(text, ctrl_char, from);
    let digits = text.subrange(from + 1, close);
    assert(text.contains(text[from]));
    let witness = choose|k: int|
        0 <= k < pattern.len() && !is_digit(#[trigger] pattern[k]) && pattern[k] != '+';
    lemma_distance_reaches(text, ctrl_char, from + 1);
    assert forall|at: int| from <= at <= close implies !occurs_at(text, pattern, at) by {
        if occurs_at(text, pattern, at) {
            let window = text.subrange(at, at + pattern.len());
            assert(pattern.contains(pattern[0]));
            if at == from || at == close {
                assert(window[0] == text[at]);
            } else if at + pattern.len() <= close {
                assert(window[witness] == text[at + witness]);
                assert(digits[at + witness - from - 1] == text[at + witness]);
                lemma_count_chars(digits, at + witness - from - 1);
            } else {
                assert(window[close - at] == text[close]);
                assert(pattern.contains(pattern[close - at]));
            }
        }
    }
}

/// A pattern without the delimiter that is longer than the substring of a
/// repeat stands nowhere from the beginning of that substring to the
/// delimiter that closes it.
pub proof fn lemma_body_blocks(text: Seq<char>, pattern: Seq<char>, ctrl_char: char, from: int)
    requires
        0 <= from < text.len(),
        text[from] == ctrl_char,
        repeat_end(text, ctrl_char, from) < text.len(),
        !pattern.contains(ctrl_char),
        pattern.len() >= 1,
        pattern.len() > repeat_end(text, ctrl_char, from) - count_end(text, ctrl_char, from) - 1,
    ensures
        forall|at: int|
            count_end(text, ctrl_char, from) < at <= repeat_end(text, ctrl_char, from)
                ==> !occurs_at(text, pattern, at),
{
    let close = count_end(text, ctrl_char, from);
    let end = repeat_end(text, ctrl_char, from);
    lemma_distance_reaches(text, ctrl_char, close + 1);
    assert forall|at: int| close < at <= end implies !occurs_at(text, pattern, at) by {
        if occurs_at(text, pattern, at) {
            let window = text.subrange(at, at + pattern.len());
            assert(window[end - at] == text[end]);
            assert(pattern.contains(pattern[end - at]));
        }
    }
}

/// A character other than the delimiter in front of a text stands for itself.
pub proof fn lemma_repeats_literal(c: char, rest: Seq<char>, ctrl_char: char, allowed: Seq<char>)
    requires
        c != ctrl_char,
    ensures
        repeats_written(seq![c] + rest, ctrl_char) == prefixed(
            seq![c],
            repeats_written(rest, ctrl_char),
        ),
        bodies_short_from(seq![c] + rest, ctrl_char, 0, allowed) == bodies_short_from(
            rest,
            ctrl_char,
            0,
            allowed,
        ),
{
    lemma_repeats_shift(seq![c], rest, ctrl_char, 0, allowed);
}

/// Replacing a pattern by a substring repeat that stands for it keeps what
/// the buffer stands for.
///
/// The pattern holds no delimiter, is longer than one character, and one of
/// its characters is neither digit nor plus sign; the repeats of the buffer
/// have substrings of at most one character. The pass then replaces the
/// pattern only outside the repeats, and writes repeats whose substring is
/// `body`.
pub proof fn lemma_collapse_keeps_payload(
    text: Seq<char>,
    pattern: Seq<char>,
    digits: Seq<char>,
    body: Seq<char>,
    ctrl_char: char,
    from: int,
)
    requires
        0 <= from <= text.len(),
        repeats_written_from(text, ctrl_char, from) is Some,
        bodies_short_from(text, ctrl_char, from, Seq::empty()),
        clear_of_repeats(text, pattern, ctrl_char),
        pattern.len() >= 2,
        !digits.contains(ctrl_char),
        !digits.contains('='),
        !body.contains(ctrl_char),
        !body.contains('='),
        parsed_count(digits) is Some,
        repeat_seq(body, parsed_count(digits)->0) == pattern,
    ensures
        ({
            let pass = replace_from(text, pattern, repeat_token(digits, body, ctrl_char), from);
            &&& repeats_written(pass, ctrl_char) == repeats_written_from(text, ctrl_char, from)
            &&& bodies_short_from(pass, ctrl_char, 0, body)
        }),
    decreases text.len() - from,
{
    let len = text.len() as int;
    let with = repeat_token(digits, body, ctrl_char);
    let pass = replace_from(text, pattern, with, from);
    let none = Seq::<char>::empty();
    if from >= len {
    } else if text[from] == ctrl_char {
        let close = count_end(text, ctrl_char, from);
        let end = repeat_end(text, ctrl_char, from);
        let old_digits = text.subrange(from + 1, close);
        let old_body = text.subrange(close + 1, end);
        lemma_distance_reaches(text, ctrl_char, from + 1);
        lemma_distance_reaches(text, ctrl_char, close + 1);
        lemma_count_blocks(text, pattern, ctrl_char, from);
        lemma_body_blocks(text, pattern, ctrl_char, from);
        lemma_pass_copies(text, pattern, with, from, end + 1);
        let rest = replace_from(text, pattern, with, end + 1);
        lemma_collapse_keeps_payload(text, pattern, digits, body, ctrl_char, end + 1);
        assert(text.subrange(from, end + 1) =~= repeat_token(old_digits, old_body, ctrl_char));
        lemma_repeats_token(old_digits, old_body, rest, ctrl_char, body);
    } else if occurs_at(text, pattern, from) {
        let next = from + pattern.len();
        let rest = replace_from(text, pattern, with, next);
        assert forall|k: int| from <= k < next implies text[k] != ctrl_char by {
            assert(text.subrange(from, next)[k - from] == text[k]);
            assert(pattern.contains(pattern[k - from]));
        }
        lemma_repeats_stretch(text, ctrl_char, from, pattern.len() as int, none);
        lemma_collapse_keeps_payload(text, pattern, digits, body, ctrl_char, next);
        lemma_repeats_token(digits, body, rest, ctrl_char, body);
    } else {
        let rest = replace_from(text, pattern, with, from + 1);
        lemma_collapse_keeps_payload(text, pattern, digits, body, ctrl_char, from + 1);
        lemma_repeats_literal(text[from], rest, ctrl_char, body);
    }
}

/// A buffer whose repeats have substrings of at most one character has them
/// whatever longer substring is allowed besides.
pub proof fn lemma_bodies_short_allows(
    text: Seq<char>,
    ctrl_char: char,
    from: int,
    allowed: Seq<char>,
)
    requires
        0 <= from,
        bodies_short_from(text, ctrl_char, from, Seq::empty()),
    ensures
        bodies_short_from(text, ctrl_char, from, allowed),
    decreases text.len() - from,
{
    if from < text.len() {
        if text[from] != ctrl_char {
            lemma_bodies_short_allows(text, ctrl_char, from + 1, allowed);
        } else {
            let end = repeat_end(text, ctrl_char, from);
            if end < text.len() {
                lemma_bodies_short_allows(text, ctrl_char, end + 1, allowed);
            }
        }
    }
}

} // verus!
