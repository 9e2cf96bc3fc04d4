//! What a buffer of the grammar stage stands for: the text that comes of
//! writing out its substring repeats and its run escapes.
//!
//! Reading a stream writes the substring repeats out first and the run
//! escapes after. Here both are written out in one pass from left to right,
//! which is the same where neither kind of escape reaches into the other.

use vstd::prelude::*;
use crate::decimal::{has_other_char, parsed_count};
use crate::repeats::{
    bodies_short_from, clear_of_repeats, count_end, lemma_body_blocks, lemma_count_blocks,
    lemma_repeats_literal, lemma_repeats_stretch, lemma_repeats_token, repeat_end, repeat_token,
    repeats_written_from,
};
use crate::runlength::{
    expanded, expanded_from, lemma_expanded_literal, lemma_expanded_shift, lemma_expanded_stretch,
    lemma_expanded_token,
};
use crate::text::{
    distance_to, lemma_distance_past, lemma_distance_reaches, lemma_distance_shift,
    lemma_repeat_chars, occurs_at, prefixed, repeat_seq, replace_from,
};
use crate::unwinding::{
    lemma_pass_copies, lemma_written_out_concat, lemma_written_out_one, lemma_written_out_plain,
    lemma_written_out_repeat, written_out,
};

verus! {

/// A run escape as a buffer writes it: the delimiter, the count, the
/// delimiter, the character.
pub open spec fn run_token(digits: Seq<char>, literal: char, repeat_char: char) -> Seq<char> {
    seq![repeat_char] + digits + seq![repeat_char, literal]
}

/// The text that a buffer stands for from index `from` on.
///
/// A run delimiter opens a run escape, whose count holds no delimiter of
/// definitions and whose character is none. A delimiter of definitions
/// opens a substring repeat, in which no equals sign and no run delimiter
/// stands. Each is written as the copies it stands for, every other
/// character as itself. `None` where an escape is not of this form.
pub open spec fn stands_for_from(
    text: Seq<char>,
    ctrl_char: char,
    repeat_char: char,
    from: int,
) -> Option<Seq<char>>
    decreases text.len() - from,
{
    if from < 0 || from >= text.len() {
        Some(Seq::empty())
    } else if text[from] == repeat_char {
        let close = count_end(text, repeat_char, from);
        let digits = text.subrange(from + 1, close);
        if close + 1 >= text.len() || digits.contains(ctrl_char) || text[close + 1] == ctrl_char {
            None
        } else {
            match parsed_count(digits) {
                None => None,
                Some(count) => prefixed(
                    repeat_seq(seq![text[close + 1]], count),
                    stands_for_from(text, ctrl_char, repeat_char, close + 2),
                ),
            }
        }
    } else if text[from] == ctrl_char {
        let close = count_end(text, ctrl_char, from);
        let end = repeat_end(text, ctrl_char, from);
        let digits = text.subrange(from + 1, close);
        let body = text.subrange(close + 1, end);
        if end >= text.len() || digits.contains('=') || body.contains('=') || digits.contains(
            repeat_char,
        ) || body.contains(repeat_char) {
            None
        } else {
            match parsed_count(digits) {
                None => None,
                Some(count) => prefixed(
                    repeat_seq(body, count),
                    stands_for_from(text, ctrl_char, repeat_char, end + 1),
                ),
            }
        }
    } else {
        prefixed(seq![text[from]], stands_for_from(text, ctrl_char, repeat_char, from + 1))
    }
}

/// The text that a buffer stands for.
pub open spec fn stands_for(text: Seq<char>, ctrl_char: char, repeat_char: char) -> Option<
    Seq<char>,
> {
    stands_for_from(text, ctrl_char, repeat_char, 0)
}

/// What stands in front of an index does not change what the rest stands for.
pub proof fn lemma_stands_shift(
    front: Seq<char>,
    text: Seq<char>,
    ctrl_char: char,
    repeat_char: char,
    from: int,
)
    requires
        0 <= from,
    ensures
        stands_for_from(front + text, ctrl_char, repeat_char, front.len() + from)
            == stands_for_from(text, ctrl_char, repeat_char, from),
    decreases text.len() - from,
{
    let whole = front + text;
    let at = front.len() + from;
    if from < text.len() {
        assert(whole[at] == text[from]);
        if text[from] == repeat_char {
            lemma_distance_shift(front, text, repeat_char, from + 1);
            let close = count_end(text, repeat_char, from);
            if close + 1 < text.len() {
                assert(whole.subrange(at + 1, front.len() + close) =~= text.subrange(
                    from + 1,
                    close,
                ));
                assert(whole[front.len() + close + 1] == text[close + 1]);
                lemma_stands_shift(front, text, ctrl_char, repeat_char, close + 2);
            }
        } else if text[from] == ctrl_char {
            lemma_distance_shift(front, text, ctrl_char, from + 1);
            let close = count_end(text, ctrl_char, from);
            lemma_distance_shift(front, text, ctrl_char, close + 1);
            let end = repeat_end(text, ctrl_char, from);
            assert(count_end(whole, ctrl_char, at) == front.len() + close);
            assert(repeat_end(whole, ctrl_char, at) == front.len() + end);
            lemma_distance_reaches(text, ctrl_char, from + 1);
            if end < text.len() {
                assert(whole.subrange(at + 1, front.len() + close) =~= text.subrange(
                    from + 1,
                    close,
                ));
                assert(whole.subrange(front.len() + close + 1, front.len() + end)
                    =~= text.subrange(close + 1, end));
                lemma_stands_shift(front, text, ctrl_char, repeat_char, end + 1);
            }
        } else {
            lemma_stands_shift(front, text, ctrl_char, repeat_char, from + 1);
        }
    }
}

/// A stretch without delimiters stands for itself.
pub proof fn lemma_stands_stretch(
    text: Seq<char>,
    ctrl_char: char,
    repeat_char: char,
    from: int,
    len: int,
)
    requires
        0 <= from,
        0 <= len,
        from + len <= text.len(),
        forall|k: int| from <= k < from + len ==> text[k] != ctrl_char && text[k] != repeat_char,
    ensures
        stands_for_from(text, ctrl_char, repeat_char, from) == prefixed(
            text.subrange(from, from + len),
            stands_for_from(text, ctrl_char, repeat_char, from + len),
        ),
    decreases len,
{
    let rest = stands_for_from(text, ctrl_char, repeat_char, from + len);
    if len > 0 {
        lemma_stands_stretch(text, ctrl_char, repeat_char, from + 1, len - 1);
        if rest is Some {
            assert(seq![text[from]] + (text.subrange(from + 1, from + len) + rest->0)
                =~= text.subrange(from, from + len) + rest->0);
        }
    } else {
        if rest is Some {
            assert(text.subrange(from, from + len) + rest->0 =~= rest->0);
        }
    }
}

/// A character that is no delimiter, in front of a text, stands for itself.
pub proof fn lemma_stands_literal(c: char, rest: Seq<char>, ctrl_char: char, repeat_char: char)
    requires
        c != ctrl_char,
        c != repeat_char,
    ensures
        stands_for(seq![c] + rest, ctrl_char, repeat_char) == prefixed(
            seq![c],
            stands_for(rest, ctrl_char, repeat_char),
        ),
{
    lemma_stands_shift(seq![c], rest, ctrl_char, repeat_char, 0);
}

/// A substring repeat in front of a text stands for its copies.
pub proof fn lemma_stands_repeat(
    digits: Seq<char>,
    body: Seq<char>,
    rest: Seq<char>,
    ctrl_char: char,
    repeat_char: char,
)
    requires
        ctrl_char != repeat_char,
        !digits.contains(ctrl_char),
        !body.contains(ctrl_char),
    ensures
        stands_for(repeat_token(digits, body, ctrl_char) + rest, ctrl_char, repeat_char) == (
        if digits.contains('=') || body.contains('=') || digits.contains(repeat_char)
            || body.contains(repeat_char) {
            None
        } else {
            match parsed_count(digits) {
                None => None,
                Some(count) => prefixed(
                    repeat_seq(body, count),
                    stands_for(rest, ctrl_char, repeat_char),
                ),
            }
        }),
{
    let token = repeat_token(digits, body, ctrl_char);
    let whole = token + rest;
    let close = 1 + digits.len() as int;
    let end = close + 1 + body.len() as int;
    assert(token.len() == end + 1);
    assert forall|j: int| 1 <= j < close implies whole[j] != ctrl_char by {
        assert(whole[j] == digits[j - 1]);
        assert(digits.contains(digits[j - 1]));
    }
    lemma_distance_past(whole, ctrl_char, 1, digits.len() as int);
    assert(whole[close] == ctrl_char);
    assert(distance_to(whole, ctrl_char, close) == 0);
    assert forall|j: int| close + 1 <= j < end implies whole[j] != ctrl_char by {
        assert(whole[j] == body[j - close - 1]);
        assert(body.contains(body[j - close - 1]));
    }
    lemma_distance_past(whole, ctrl_char, close + 1, body.len() as int);
    assert(whole[end] == ctrl_char);
    assert(distance_to(whole, ctrl_char, end) == 0);
    assert(count_end(whole, ctrl_char, 0) == close);
    assert(repeat_end(whole, ctrl_char, 0) == end);
    assert(whole.subrange(1, close) =~= digits);
    assert(whole.subrange(close + 1, end) =~= body);
    lemma_stands_shift(token, rest, ctrl_char, repeat_char, 0);
}

/// A run escape in front of a text stands for its run.
pub proof fn lemma_stands_run(
    digits: Seq<char>,
    literal: char,
    rest: Seq<char>,
    ctrl_char: char,
    repeat_char: char,
)
    requires
        !digits.contains(repeat_char),
    ensures
        stands_for(run_token(digits, literal, repeat_char) + rest, ctrl_char, repeat_char) == (
        if digits.contains(ctrl_char) || literal == ctrl_char {
            None
        } else {
            match parsed_count(digits) {
                None => None,
                Some(count) => prefixed(
                    repeat_seq(seq![literal], count),
                    stands_for(rest, ctrl_char, repeat_char),
                ),
            }
        }),
{
    let token = run_token(digits, literal, repeat_char);
    let whole = token + rest;
    let close = 1 + digits.len() as int;
    assert forall|j: int| 1 <= j < close implies whole[j] != repeat_char by {
        assert(whole[j] == digits[j - 1]);
        assert(digits.contains(digits[j - 1]));
    }
    lemma_distance_past(whole, repeat_char, 1, digits.len() as int);
    assert(whole[close] == repeat_char);
    assert(distance_to(whole, repeat_char, close) == 0);
    assert(count_end(whole, repeat_char, 0) == close);
    assert(whole.subrange(1, close) =~= digits);
    assert(whole[close + 1] == literal);
    lemma_stands_shift(token, rest, ctrl_char, repeat_char, 0);
}

/// What a buffer stands for is what reading makes of it: the substring
/// repeats written out first, the run escapes after.
pub proof fn lemma_stands_as_read(text: Seq<char>, ctrl_char: char, repeat_char: char, from: int)
    requires
        0 <= from <= text.len(),
        ctrl_char != repeat_char,
        stands_for_from(text, ctrl_char, repeat_char, from) is Some,
    ensures
        repeats_written_from(text, ctrl_char, from) is Some,
        expanded(repeats_written_from(text, ctrl_char, from)->0, repeat_char) == stands_for_from(
            text,
            ctrl_char,
            repeat_char,
            from,
        ),
    decreases text.len() - from,
{
    let len = text.len() as int;
    let none = Seq::<char>::empty();
    if from >= len {
    } else if text[from] == repeat_char {
        let close = count_end(text, repeat_char, from);
        let digits = text.subrange(from + 1, close);
        let literal = text[close + 1];
        lemma_distance_reaches(text, repeat_char, from + 1);
        lemma_stands_as_read(text, ctrl_char, repeat_char, close + 2);
        let rest = repeats_written_from(text, ctrl_char, close + 2)->0;
        assert forall|k: int| from <= k < close + 2 implies text[k] != ctrl_char by {
            if from < k < close {
                assert(digits[k - from - 1] == text[k]);
                assert(digits.contains(text[k]));
            }
        }
        lemma_repeats_stretch(text, ctrl_char, from, close + 2 - from, none);
        assert(text.subrange(from, close + 2) =~= run_token(digits, literal, repeat_char));
        assert(!digits.contains(repeat_char));
        lemma_expanded_token(digits, literal, rest, repeat_char);
    } else if text[from] == ctrl_char {
        let close = count_end(text, ctrl_char, from);
        let end = repeat_end(text, ctrl_char, from);
        let digits = text.subrange(from + 1, close);
        let body = text.subrange(close + 1, end);
        let count = parsed_count(digits)->0;
        lemma_stands_as_read(text, ctrl_char, repeat_char, end + 1);
        let rest = repeats_written_from(text, ctrl_char, end + 1)->0;
        let copies = repeat_seq(body, count);
        let whole = copies + rest;
        assert forall|k: int| 0 <= k < copies.len() implies whole[k] != repeat_char by {
            assert(copies.contains(copies[k]));
            lemma_repeat_chars(body, count, copies[k]);
        }
        lemma_expanded_stretch(whole, repeat_char, 0, copies.len() as int);
        assert(whole.subrange(0, copies.len() as int) =~= copies);
        lemma_expanded_shift(copies, rest, repeat_char, 0);
    } else {
        lemma_stands_as_read(text, ctrl_char, repeat_char, from + 1);
        let rest = repeats_written_from(text, ctrl_char, from + 1)->0;
        lemma_expanded_literal(text[from], rest, repeat_char);
    }
}

/// `target` stands nowhere in `text` directly behind the run delimiter, where
/// it would take the place of the character of a run escape.
pub open spec fn never_behind(text: Seq<char>, target: Seq<char>, repeat_char: char) -> bool {
    forall|at: int| 1 <= at && #[trigger] occurs_at(text, target, at) ==> text[at - 1] != repeat_char
}

/// A substring that stands clear of the run escapes of a buffer: it holds
/// no run delimiter; where the buffer holds one, one of its characters is
/// neither digit nor plus sign; and it stands nowhere directly behind one.
pub open spec fn clear_of_runs(text: Seq<char>, target: Seq<char>, repeat_char: char) -> bool {
    &&& !target.contains(repeat_char)
    &&& text.contains(repeat_char) ==> has_other_char(target)
    &&& never_behind(text, target, repeat_char)
}

/// A substring that stands clear of the escapes of a buffer, of its
/// substring repeats and of its run escapes.
pub open spec fn clear_of_escapes(
    text: Seq<char>,
    target: Seq<char>,
    ctrl_char: char,
    repeat_char: char,
) -> bool {
    clear_of_repeats(text, target, ctrl_char) && clear_of_runs(text, target, repeat_char)
}

/// A pattern clear of the escapes stands nowhere inside a run escape.
pub proof fn lemma_run_blocks(
    text: Seq<char>,
    pattern: Seq<char>,
    ctrl_char: char,
    repeat_char: char,
    from: int,
)
    requires
        0 <= from < text.len(),
        text[from] == repeat_char,
        count_end(text, repeat_char, from) + 1 < text.len(),
        parsed_count(text.subrange(from + 1, count_end(text, repeat_char, from))) is Some,
        clear_of_escapes(text, pattern, ctrl_char, repeat_char),
    ensures
        forall|at: int|
            from <= at < count_end(text, repeat_char, from) + 2 ==> !occurs_at(text, pattern, at),
{
    let close = count_end(text, repeat_char, from);
    assert(text.contains(text[from]));
    lemma_count_blocks(text, pattern, repeat_char, from);
    lemma_distance_reaches(text, repeat_char, from + 1);
    assert(!occurs_at(text, pattern, close + 1));
}

/// Behind a run escape the buffer still stands for a text, and its repeats
/// are as short as before.
pub proof fn lemma_behind_run(
    text: Seq<char>,
    ctrl_char: char,
    repeat_char: char,
    from: int,
    allowed: Seq<char>,
)
    requires
        0 <= from < text.len(),
        ctrl_char != repeat_char,
        text[from] == repeat_char,
        stands_for_from(text, ctrl_char, repeat_char, from) is Some,
    ensures
        count_end(text, repeat_char, from) + 2 <= text.len(),
        from < count_end(text, repeat_char, from),
        text[count_end(text, repeat_char, from)] == repeat_char,
        stands_for_from(text, ctrl_char, repeat_char, count_end(text, repeat_char, from) + 2)
            is Some,
        forall|k: int|
            from <= k < count_end(text, repeat_char, from) + 2 ==> text[k] != ctrl_char,
        bodies_short_from(text, ctrl_char, from, allowed) == bodies_short_from(
            text,
            ctrl_char,
            count_end(text, repeat_char, from) + 2,
            allowed,
        ),
        text.subrange(from, count_end(text, repeat_char, from) + 2) == run_token(
            text.subrange(from + 1, count_end(text, repeat_char, from)),
            text[count_end(text, repeat_char, from) + 1],
            repeat_char,
        ),
        !text.subrange(from + 1, count_end(text, repeat_char, from)).contains(repeat_char),
{
    let close = count_end(text, repeat_char, from);
    let digits = text.subrange(from + 1, close);
    lemma_distance_reaches(text, repeat_char, from + 1);
    assert forall|k: int| from <= k < close + 2 implies text[k] != ctrl_char by {
        if from < k < close {
            assert(digits[k - from - 1] == text[k]);
            assert(digits.contains(text[k]));
        }
    }
    lemma_repeats_stretch(text, ctrl_char, from, close + 2 - from, allowed);
    assert(text.subrange(from, close + 2) =~= run_token(digits, text[close + 1], repeat_char));
}

/// Behind a substring repeat the buffer still stands for a text, and its
/// repeats are as short as before.
pub proof fn lemma_behind_repeat(
    text: Seq<char>,
    ctrl_char: char,
    repeat_char: char,
    from: int,
    allowed: Seq<char>,
)
    requires
        0 <= from < text.len(),
        ctrl_char != repeat_char,
        text[from] == ctrl_char,
        stands_for_from(text, ctrl_char, repeat_char, from) is Some,
        bodies_short_from(text, ctrl_char, from, allowed),
    ensures
        from < count_end(text, ctrl_char, from) < repeat_end(text, ctrl_char, from) < text.len(),
        text[count_end(text, ctrl_char, from)] == ctrl_char,
        text[repeat_end(text, ctrl_char, from)] == ctrl_char,
        stands_for_from(text, ctrl_char, repeat_char, repeat_end(text, ctrl_char, from) + 1)
            is Some,
        bodies_short_from(text, ctrl_char, repeat_end(text, ctrl_char, from) + 1, allowed),
        ({
            let close = count_end(text, ctrl_char, from);
            let end = repeat_end(text, ctrl_char, from);
            let digits = text.subrange(from + 1, close);
            let body = text.subrange(close + 1, end);
            &&& text.subrange(from, end + 1) == repeat_token(digits, body, ctrl_char)
            &&& body.len() <= 1 || body == allowed
            &&& !digits.contains(ctrl_char)
            &&& !body.contains(ctrl_char)
            &&& parsed_count(digits) is Some
        }),
{
    let close = count_end(text, ctrl_char, from);
    let end = repeat_end(text, ctrl_char, from);
    let digits = text.subrange(from + 1, close);
    let body = text.subrange(close + 1, end);
    lemma_distance_reaches(text, ctrl_char, from + 1);
    lemma_distance_reaches(text, ctrl_char, close + 1);
    assert(text.subrange(from, end + 1) =~= repeat_token(digits, body, ctrl_char));
}

/// What a pass of collapsing is to keep from index `from` on: what the
/// buffer stands for, with repeats whose substring is short or `body`.
pub open spec fn collapse_kept(
    text: Seq<char>,
    pattern: Seq<char>,
    digits: Seq<char>,
    body: Seq<char>,
    ctrl_char: char,
    repeat_char: char,
    from: int,
) -> bool {
    let pass = replace_from(text, pattern, repeat_token(digits, body, ctrl_char), from);
    &&& stands_for(pass, ctrl_char, repeat_char) == stands_for_from(
        text,
        ctrl_char,
        repeat_char,
        from,
    )
    &&& bodies_short_from(pass, ctrl_char, 0, body)
}

/// What a pass of collapsing starts from: a pattern clear of the escapes
/// and longer than one character, and a substring repeat that stands for it.
pub open spec fn collapse_setting(
    text: Seq<char>,
    pattern: Seq<char>,
    digits: Seq<char>,
    body: Seq<char>,
    ctrl_char: char,
    repeat_char: char,
) -> bool {
    &&& ctrl_char != repeat_char
    &&& clear_of_escapes(text, pattern, ctrl_char, repeat_char)
    &&& pattern.len() >= 2
    &&& !digits.contains(ctrl_char)
    &&& !digits.contains(repeat_char)
    &&& !digits.contains('=')
    &&& !body.contains(ctrl_char)
    &&& !body.contains(repeat_char)
    &&& !body.contains('=')
    &&& parsed_count(digits) is Some
    &&& repeat_seq(body, parsed_count(digits)->0) == pattern
}

/// A pass of collapsing copies a run escape.
pub proof fn lemma_collapse_at_run(
    text: Seq<char>,
    pattern: Seq<char>,
    digits: Seq<char>,
    body: Seq<char>,
    ctrl_char: char,
    repeat_char: char,
    from: int,
)
    requires
        0 <= from < text.len(),
        text[from] == repeat_char,
        collapse_setting(text, pattern, digits, body, ctrl_char, repeat_char),
        stands_for_from(text, ctrl_char, repeat_char, from) is Some,
        collapse_kept(
            text,
            pattern,
            digits,
            body,
            ctrl_char,
            repeat_char,
            count_end(text, repeat_char, from) + 2,
        ),
    ensures
        collapse_kept(text, pattern, digits, body, ctrl_char, repeat_char, from),
{
    let with = repeat_token(digits, body, ctrl_char);
    let close = count_end(text, repeat_char, from);
    let old_digits = text.subrange(from + 1, close);
    let literal = text[close + 1];
    lemma_behind_run(text, ctrl_char, repeat_char, from, body);
    lemma_run_blocks(text, pattern, ctrl_char, repeat_char, from);
    lemma_pass_copies(text, pattern, with, from, close + 2);
    let rest = replace_from(text, pattern, with, close + 2);
    let token = run_token(old_digits, literal, repeat_char);
    lemma_stands_run(old_digits, literal, rest, ctrl_char, repeat_char);
    let whole = token + rest;
    assert forall|k: int| 0 <= k < token.len() implies whole[k] != ctrl_char by {
        assert(whole[k] == text[from + k]);
    }
    lemma_repeats_stretch(whole, ctrl_char, 0, token.len() as int, body);
    crate::repeats::lemma_repeats_shift(token, rest, ctrl_char, 0, body);
}

/// A pass of collapsing copies a substring repeat whose substring is short.
pub proof fn lemma_collapse_at_repeat(
    text: Seq<char>,
    pattern: Seq<char>,
    digits: Seq<char>,
    body: Seq<char>,
    ctrl_char: char,
    repeat_char: char,
    from: int,
)
    requires
        0 <= from < text.len(),
        text[from] == ctrl_char,
        collapse_setting(text, pattern, digits, body, ctrl_char, repeat_char),
        stands_for_from(text, ctrl_char, repeat_char, from) is Some,
        bodies_short_from(text, ctrl_char, from, Seq::empty()),
        collapse_kept(
            text,
            pattern,
            digits,
            body,
            ctrl_char,
            repeat_char,
            repeat_end(text, ctrl_char, from) + 1,
        ),
    ensures
        collapse_kept(text, pattern, digits, body, ctrl_char, repeat_char, from),
{
    let with = repeat_token(digits, body, ctrl_char);
    let close = count_end(text, ctrl_char, from);
    let end = repeat_end(text, ctrl_char, from);
    let old_digits = text.subrange(from + 1, close);
    let old_body = text.subrange(close + 1, end);
    assert(text.contains(text[from]));
    lemma_behind_repeat(text, ctrl_char, repeat_char, from, Seq::empty());
    lemma_count_blocks(text, pattern, ctrl_char, from);
    lemma_body_blocks(text, pattern, ctrl_char, from);
    lemma_pass_copies(text, pattern, with, from, end + 1);
    let rest = replace_from(text, pattern, with, end + 1);
    lemma_stands_repeat(old_digits, old_body, rest, ctrl_char, repeat_char);
    lemma_repeats_token(old_digits, old_body, rest, ctrl_char, body);
}

/// A pass of collapsing writes a substring repeat where the pattern stands
/// outside the escapes.
pub proof fn lemma_collapse_at_pattern(
    text: Seq<char>,
    pattern: Seq<char>,
    digits: Seq<char>,
    body: Seq<char>,
    ctrl_char: char,
    repeat_char: char,
    from: int,
)
    requires
        0 <= from < text.len(),
        occurs_at(text, pattern, from),
        collapse_setting(text, pattern, digits, body, ctrl_char, repeat_char),
        collapse_kept(text, pattern, digits, body, ctrl_char, repeat_char, from + pattern.len()),
    ensures
        collapse_kept(text, pattern, digits, body, ctrl_char, repeat_char, from),
        stands_for_from(text, ctrl_char, repeat_char, from) == prefixed(
            pattern,
            stands_for_from(text, ctrl_char, repeat_char, from + pattern.len()),
        ),
{
    let with = repeat_token(digits, body, ctrl_char);
    let next = from + pattern.len();
    let rest = replace_from(text, pattern, with, next);
    lemma_pattern_stretch(text, pattern, ctrl_char, repeat_char, from, body);
    lemma_stands_repeat(digits, body, rest, ctrl_char, repeat_char);
    lemma_repeats_token(digits, body, rest, ctrl_char, body);
}

/// Where a pattern without delimiters stands, the buffer stands for the
/// pattern and what follows it, and no repeat opens.
pub proof fn lemma_pattern_stretch(
    text: Seq<char>,
    pattern: Seq<char>,
    ctrl_char: char,
    repeat_char: char,
    from: int,
    allowed: Seq<char>,
)
    requires
        occurs_at(text, pattern, from),
        !pattern.contains(ctrl_char),
        !pattern.contains(repeat_char),
    ensures
        stands_for_from(text, ctrl_char, repeat_char, from) == prefixed(
            pattern,
            stands_for_from(text, ctrl_char, repeat_char, from + pattern.len()),
        ),
        bodies_short_from(text, ctrl_char, from, allowed) == bodies_short_from(
            text,
            ctrl_char,
            from + pattern.len(),
            allowed,
        ),
{
    let next = from + pattern.len();
    assert forall|k: int| from <= k < next implies text[k] != ctrl_char && text[k]
        != repeat_char by {
        assert(text.subrange(from, next)[k - from] == text[k]);
        assert(pattern.contains(pattern[k - from]));
    }
    lemma_stands_stretch(text, ctrl_char, repeat_char, from, pattern.len() as int);
    lemma_repeats_stretch(text, ctrl_char, from, pattern.len() as int, allowed);
}

/// Replacing a pattern by a substring repeat that stands for it keeps what
/// the buffer stands for.
///
/// The pattern stands clear of the escapes and is longer than one
/// character; the repeats of the buffer have substrings of at most one
/// character. The pass then replaces the pattern only outside the escapes,
/// and writes repeats whose substring is `body`.
pub proof fn lemma_collapse_stands(
    text: Seq<char>,
    pattern: Seq<char>,
    digits: Seq<char>,
    body: Seq<char>,
    ctrl_char: char,
    repeat_char: char,
    from: int,
)
    requires
        0 <= from <= text.len(),
        collapse_setting(text, pattern, digits, body, ctrl_char, repeat_char),
        stands_for_from(text, ctrl_char, repeat_char, from) is Some,
        bodies_short_from(text, ctrl_char, from, Seq::empty()),
    ensures
        collapse_kept(text, pattern, digits, body, ctrl_char, repeat_char, from),
    decreases text.len() - from,
{
    let none = Seq::<char>::empty();
    if from >= text.len() {
    } else if text[from] == repeat_char {
        let close = count_end(text, repeat_char, from);
        lemma_behind_run(text, ctrl_char, repeat_char, from, none);
        lemma_collapse_stands(text, pattern, digits, body, ctrl_char, repeat_char, close + 2);
        lemma_collapse_at_run(text, pattern, digits, body, ctrl_char, repeat_char, from);
    } else if text[from] == ctrl_char {
        let end = repeat_end(text, ctrl_char, from);
        lemma_behind_repeat(text, ctrl_char, repeat_char, from, none);
        lemma_collapse_stands(text, pattern, digits, body, ctrl_char, repeat_char, end + 1);
        lemma_collapse_at_repeat(text, pattern, digits, body, ctrl_char, repeat_char, from);
    } else if occurs_at(text, pattern, from) {
        lemma_pattern_stretch(text, pattern, ctrl_char, repeat_char, from, none);
        lemma_collapse_stands(
            text,
            pattern,
            digits,
            body,
            ctrl_char,
            repeat_char,
            from + pattern.len(),
        );
        lemma_collapse_at_pattern(text, pattern, digits, body, ctrl_char, repeat_char, from);
    } else {
        let with = repeat_token(digits, body, ctrl_char);
        let rest = replace_from(text, pattern, with, from + 1);
        lemma_collapse_stands(text, pattern, digits, body, ctrl_char, repeat_char, from + 1);
        lemma_stands_literal(text[from], rest, ctrl_char, repeat_char);
        lemma_repeats_literal(text[from], rest, ctrl_char, body);
    }
}

/// What a pass of substituting is to keep from index `from` on: what the
/// buffer stands for, once the key is written out again, with repeats whose
/// substring is short.
pub open spec fn pass_kept(
    text: Seq<char>,
    target: Seq<char>,
    key: char,
    ctrl_char: char,
    repeat_char: char,
    from: int,
) -> bool {
    let pass = replace_from(text, target, seq![key], from);
    &&& stands_for(pass, ctrl_char, repeat_char) is Some
    &&& stands_for_from(text, ctrl_char, repeat_char, from) is Some
    &&& written_out(stands_for(pass, ctrl_char, repeat_char)->0, key, target) == stands_for_from(
        text,
        ctrl_char,
        repeat_char,
        from,
    )->0
    &&& bodies_short_from(pass, ctrl_char, 0, Seq::empty())
}

/// What a pass of substituting starts from: a substring clear of the
/// escapes and longer than one character, and a key that stands for nothing
/// in a stream.
pub open spec fn pass_setting(
    text: Seq<char>,
    target: Seq<char>,
    key: char,
    ctrl_char: char,
    repeat_char: char,
) -> bool {
    &&& ctrl_char != repeat_char
    &&& clear_of_escapes(text, target, ctrl_char, repeat_char)
    &&& target.len() >= 2
    &&& key != ctrl_char
    &&& key != repeat_char
    &&& key != '='
}

/// From index `from` on the buffer stands for a text, in which `key` stands
/// nowhere.
pub open spec fn keyless_from(
    text: Seq<char>,
    ctrl_char: char,
    repeat_char: char,
    key: char,
    from: int,
) -> bool {
    &&& stands_for_from(text, ctrl_char, repeat_char, from) is Some
    &&& !stands_for_from(text, ctrl_char, repeat_char, from)->0.contains(key)
}

/// A character that stands nowhere in a text stands in neither of two parts
/// of it.
pub proof fn lemma_parts_without(head: Seq<char>, tail: Seq<char>, c: char)
    requires
        !(head + tail).contains(c),
    ensures
        !head.contains(c),
        !tail.contains(c),
{
    if head.contains(c) {
        let k = choose|k: int| 0 <= k < head.len() && head[k] == c;
        assert((head + tail)[k] == c);
    }
    if tail.contains(c) {
        let k = choose|k: int| 0 <= k < tail.len() && tail[k] == c;
        assert((head + tail)[head.len() + k] == c);
    }
}

/// A pass of substituting copies a run escape.
pub proof fn lemma_pass_at_run(
    text: Seq<char>,
    target: Seq<char>,
    key: char,
    ctrl_char: char,
    repeat_char: char,
    from: int,
)
    requires
        0 <= from < text.len(),
        text[from] == repeat_char,
        pass_setting(text, target, key, ctrl_char, repeat_char),
        keyless_from(text, ctrl_char, repeat_char, key, from),
        pass_kept(text, target, key, ctrl_char, repeat_char, count_end(text, repeat_char, from) + 2),
    ensures
        pass_kept(text, target, key, ctrl_char, repeat_char, from),
{
    let with = seq![key];
    let none = Seq::<char>::empty();
    let close = count_end(text, repeat_char, from);
    let digits = text.subrange(from + 1, close);
    let literal = text[close + 1];
    let count = parsed_count(digits)->0;
    lemma_behind_run(text, ctrl_char, repeat_char, from, none);
    lemma_run_blocks(text, target, ctrl_char, repeat_char, from);
    lemma_pass_copies(text, target, with, from, close + 2);
    let rest = replace_from(text, target, with, close + 2);
    let token = run_token(digits, literal, repeat_char);
    lemma_stands_run(digits, literal, rest, ctrl_char, repeat_char);
    let tail = stands_for(rest, ctrl_char, repeat_char)->0;
    let copies = repeat_seq(seq![literal], count);
    lemma_parts_without(
        copies,
        stands_for_from(text, ctrl_char, repeat_char, close + 2)->0,
        key,
    );
    lemma_written_out_concat(copies, tail, key, target);
    lemma_written_out_plain(copies, key, target);
    let whole = token + rest;
    assert forall|k: int| 0 <= k < token.len() implies whole[k] != ctrl_char by {
        assert(whole[k] == text[from + k]);
    }
    lemma_repeats_stretch(whole, ctrl_char, 0, token.len() as int, none);
    crate::repeats::lemma_repeats_shift(token, rest, ctrl_char, 0, none);
}

/// A pass of substituting copies a substring repeat whose substring is
/// short, and puts the key in place of a substring that is the target.
pub proof fn lemma_pass_at_repeat(
    text: Seq<char>,
    target: Seq<char>,
    key: char,
    ctrl_char: char,
    repeat_char: char,
    from: int,
)
    requires
        0 <= from < text.len(),
        text[from] == ctrl_char,
        pass_setting(text, target, key, ctrl_char, repeat_char),
        keyless_from(text, ctrl_char, repeat_char, key, from),
        bodies_short_from(text, ctrl_char, from, target),
        pass_kept(text, target, key, ctrl_char, repeat_char, repeat_end(text, ctrl_char, from) + 1),
    ensures
        pass_kept(text, target, key, ctrl_char, repeat_char, from),
{
    let with = seq![key];
    let none = Seq::<char>::empty();
    let pass = replace_from(text, target, with, from);
    let close = count_end(text, ctrl_char, from);
    let end = repeat_end(text, ctrl_char, from);
    let digits = text.subrange(from + 1, close);
    let body = text.subrange(close + 1, end);
    let count = parsed_count(digits)->0;
    assert(text.contains(text[from]));
    lemma_behind_repeat(text, ctrl_char, repeat_char, from, target);
    lemma_count_blocks(text, target, ctrl_char, from);
    let rest = replace_from(text, target, with, end + 1);
    let tail = stands_for(rest, ctrl_char, repeat_char)->0;
    if body == target {
        assert(occurs_at(text, target, close + 1));
        lemma_pass_copies(text, target, with, from, close + 1);
        assert(!occurs_at(text, target, end)) by {
            if occurs_at(text, target, end) {
                assert(text.subrange(end, end + target.len())[0] == text[end]);
                assert(target.contains(target[0]));
            }
        }
        assert(replace_from(text, target, with, end) == seq![ctrl_char] + rest);
        assert(pass =~= repeat_token(digits, with, ctrl_char) + rest);
        assert(!with.contains(ctrl_char) && !with.contains('=') && !with.contains(repeat_char));
        lemma_stands_repeat(digits, with, rest, ctrl_char, repeat_char);
        lemma_repeats_token(digits, with, rest, ctrl_char, none);
        let copies = repeat_seq(with, count);
        lemma_written_out_concat(copies, tail, key, target);
        lemma_written_out_repeat(with, count, key, target);
        lemma_written_out_one(key, key, target);
    } else {
        lemma_body_blocks(text, target, ctrl_char, from);
        lemma_pass_copies(text, target, with, from, end + 1);
        lemma_stands_repeat(digits, body, rest, ctrl_char, repeat_char);
        lemma_repeats_token(digits, body, rest, ctrl_char, none);
        let copies = repeat_seq(body, count);
        lemma_parts_without(
            copies,
            stands_for_from(text, ctrl_char, repeat_char, end + 1)->0,
            key,
        );
        lemma_written_out_concat(copies, tail, key, target);
        lemma_written_out_plain(copies, key, target);
    }
}

/// A pass of substituting writes the key where the target stands outside
/// the escapes.
pub proof fn lemma_pass_at_target(
    text: Seq<char>,
    target: Seq<char>,
    key: char,
    ctrl_char: char,
    repeat_char: char,
    from: int,
)
    requires
        0 <= from < text.len(),
        occurs_at(text, target, from),
        pass_setting(text, target, key, ctrl_char, repeat_char),
        pass_kept(text, target, key, ctrl_char, repeat_char, from + target.len()),
    ensures
        pass_kept(text, target, key, ctrl_char, repeat_char, from),
{
    let with = seq![key];
    let none = Seq::<char>::empty();
    let next = from + target.len();
    let rest = replace_from(text, target, with, next);
    lemma_pattern_stretch(text, target, ctrl_char, repeat_char, from, none);
    lemma_stands_literal(key, rest, ctrl_char, repeat_char);
    lemma_repeats_literal(key, rest, ctrl_char, none);
    let tail = stands_for(rest, ctrl_char, repeat_char)->0;
    lemma_written_out_concat(with, tail, key, target);
    lemma_written_out_one(key, key, target);
}

/// Replacing a substring by a fresh key keeps what the buffer stands for,
/// once the key is written out again.
///
/// The substring stands clear of the escapes and is longer than one
/// character; the repeats of the buffer have substrings of at most one
/// character or the substring itself; and the key stands nowhere in what
/// the buffer stands for. After the pass every repeat has a substring of at
/// most one character.
pub proof fn lemma_pass_stands(
    text: Seq<char>,
    target: Seq<char>,
    key: char,
    ctrl_char: char,
    repeat_char: char,
    from: int,
)
    requires
        0 <= from <= text.len(),
        pass_setting(text, target, key, ctrl_char, repeat_char),
        keyless_from(text, ctrl_char, repeat_char, key, from),
        bodies_short_from(text, ctrl_char, from, target),
    ensures
        pass_kept(text, target, key, ctrl_char, repeat_char, from),
    decreases text.len() - from,
{
    let with = seq![key];
    let none = Seq::<char>::empty();
    let stood = stands_for_from(text, ctrl_char, repeat_char, from)->0;
    if from >= text.len() {
    } else if text[from] == repeat_char {
        let close = count_end(text, repeat_char, from);
        lemma_behind_run(text, ctrl_char, repeat_char, from, target);
        let copies = repeat_seq(
            seq![text[close + 1]],
            parsed_count(text.subrange(from + 1, close))->0,
        );
        lemma_parts_without(
            copies,
            stands_for_from(text, ctrl_char, repeat_char, close + 2)->0,
            key,
        );
        lemma_pass_stands(text, target, key, ctrl_char, repeat_char, close + 2);
        lemma_pass_at_run(text, target, key, ctrl_char, repeat_char, from);
    } else if text[from] == ctrl_char {
        let close = count_end(text, ctrl_char, from);
        let end = repeat_end(text, ctrl_char, from);
        lemma_behind_repeat(text, ctrl_char, repeat_char, from, target);
        let copies = repeat_seq(
            text.subrange(close + 1, end),
            parsed_count(text.subrange(from + 1, close))->0,
        );
        lemma_parts_without(
            copies,
            stands_for_from(text, ctrl_char, repeat_char, end + 1)->0,
            key,
        );
        lemma_pass_stands(text, target, key, ctrl_char, repeat_char, end + 1);
        lemma_pass_at_repeat(text, target, key, ctrl_char, repeat_char, from);
    } else if occurs_at(text, target, from) {
        lemma_pattern_stretch(text, target, ctrl_char, repeat_char, from, target);
        lemma_parts_without(
            target,
            stands_for_from(text, ctrl_char, repeat_char, from + target.len())->0,
            key,
        );
        lemma_pass_stands(text, target, key, ctrl_char, repeat_char, from + target.len());
        lemma_pass_at_target(text, target, key, ctrl_char, repeat_char, from);
    } else {
        let rest = replace_from(text, target, with, from + 1);
        lemma_parts_without(
            seq![text[from]],
            stands_for_from(text, ctrl_char, repeat_char, from + 1)->0,
            key,
        );
        lemma_pass_stands(text, target, key, ctrl_char, repeat_char, from + 1);
        lemma_stands_literal(text[from], rest, ctrl_char, repeat_char);
        lemma_repeats_literal(text[from], rest, ctrl_char, none);
        let tail = stands_for(rest, ctrl_char, repeat_char)->0;
        assert(seq![text[from]][0] == text[from]);
        lemma_written_out_concat(seq![text[from]], tail, key, target);
        lemma_written_out_one(text[from], key, target);
    }
}

/// Where a substring clear of the escapes stands in a buffer, its
/// characters stand in the text that the buffer stands for.
pub proof fn lemma_occurrence_stands(
    text: Seq<char>,
    target: Seq<char>,
    ctrl_char: char,
    repeat_char: char,
    from: int,
    at: int,
    c: char,
)
    requires
        0 <= from <= at,
        ctrl_char != repeat_char,
        stands_for_from(text, ctrl_char, repeat_char, from) is Some,
        bodies_short_from(text, ctrl_char, from, Seq::empty()),
        clear_of_escapes(text, target, ctrl_char, repeat_char),
        target.len() >= 2,
        occurs_at(text, target, at),
        target.contains(c),
    ensures
        stands_for_from(text, ctrl_char, repeat_char, from)->0.contains(c),
    decreases text.len() - from,
{
    let none = Seq::<char>::empty();
    let stood = stands_for_from(text, ctrl_char, repeat_char, from)->0;
    if from == at {
        lemma_pattern_stretch(text, target, ctrl_char, repeat_char, from, none);
        let k = choose|k: int| 0 <= k < target.len() && target[k] == c;
        assert(stood[k] == c);
    } else if text[from] == repeat_char {
        let close = count_end(text, repeat_char, from);
        lemma_behind_run(text, ctrl_char, repeat_char, from, none);
        lemma_run_blocks(text, target, ctrl_char, repeat_char, from);
        lemma_occurrence_stands(text, target, ctrl_char, repeat_char, close + 2, at, c);
        let copies = repeat_seq(
            seq![text[close + 1]],
            parsed_count(text.subrange(from + 1, close))->0,
        );
        let tail = stands_for_from(text, ctrl_char, repeat_char, close + 2)->0;
        let k = choose|k: int| 0 <= k < tail.len() && tail[k] == c;
        assert(stood[copies.len() + k] == c);
    } else if text[from] == ctrl_char {
        let close = count_end(text, ctrl_char, from);
        let end = repeat_end(text, ctrl_char, from);
        assert(text.contains(text[from]));
        lemma_behind_repeat(text, ctrl_char, repeat_char, from, none);
        lemma_count_blocks(text, target, ctrl_char, from);
        lemma_body_blocks(text, target, ctrl_char, from);
        lemma_occurrence_stands(text, target, ctrl_char, repeat_char, end + 1, at, c);
        let copies = repeat_seq(
            text.subrange(close + 1, end),
            parsed_count(text.subrange(from + 1, close))->0,
        );
        let tail = stands_for_from(text, ctrl_char, repeat_char, end + 1)->0;
        let k = choose|k: int| 0 <= k < tail.len() && tail[k] == c;
        assert(stood[copies.len() + k] == c);
    } else {
        lemma_occurrence_stands(text, target, ctrl_char, repeat_char, from + 1, at, c);
        let tail = stands_for_from(text, ctrl_char, repeat_char, from + 1)->0;
        let k = choose|k: int| 0 <= k < tail.len() && tail[k] == c;
        assert(stood[1 + k] == c);
    }
}

/// A buffer without the delimiter of definitions stands for what comes of
/// writing out its run escapes.
pub proof fn lemma_stands_plain(text: Seq<char>, ctrl_char: char, repeat_char: char, from: int)
    requires
        0 <= from,
        ctrl_char != repeat_char,
        !text.contains(ctrl_char),
    ensures
        stands_for_from(text, ctrl_char, repeat_char, from) == expanded_from(
            text,
            repeat_char,
            from,
        ),
    decreases text.len() - from,
{
    if from < text.len() {
        assert(text.contains(text[from]));
        if text[from] == repeat_char {
            let close = count_end(text, repeat_char, from);
            let digits = text.subrange(from + 1, close);
            if close + 1 < text.len() {
                assert(text.contains(text[close + 1]));
                assert(!digits.contains(ctrl_char)) by {
                    if digits.contains(ctrl_char) {
                        let k = choose|k: int| 0 <= k < digits.len() && digits[k] == ctrl_char;
                        assert(text.contains(text[from + 1 + k]));
                    }
                }
                lemma_stands_plain(text, ctrl_char, repeat_char, close + 2);
            }
        } else {
            lemma_stands_plain(text, ctrl_char, repeat_char, from + 1);
        }
    }
}

} // verus!
