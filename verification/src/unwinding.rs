//! Why replaying a dictionary entry undoes the substitution that made it.

use vstd::prelude::*;
use crate::grammar::replaced_until_gone;
use crate::text::{contains_seq, occurs_at, repeat_seq, replace_from, replace_seq};

verus! {

/// `text` with every `key` written out as `value`.
pub open spec fn written_out(text: Seq<char>, key: char, value: Seq<char>) -> Seq<char>
    decreases text.len(),
{
    if text.len() == 0 {
        Seq::empty()
    } else {
        written_out(text.drop_last(), key, value) + (if text.last() == key {
            value
        } else {
            seq![text.last()]
        })
    }
}

/// Writing out the keys of two texts one after the other is writing out
/// those of the two as one.
pub proof fn lemma_written_out_concat(
    first: Seq<char>,
    second: Seq<char>,
    key: char,
    value: Seq<char>,
)
    ensures
        written_out(first + second, key, value) == written_out(first, key, value) + written_out(
            second,
            key,
            value,
        ),
    decreases second.len(),
{
    if second.len() == 0 {
        assert(first + second =~= first);
        assert(written_out(first, key, value) + Seq::<char>::empty() =~= written_out(
            first,
            key,
            value,
        ));
    } else {
        assert((first + second).drop_last() =~= first + second.drop_last());
        lemma_written_out_concat(first, second.drop_last(), key, value);
        let tail = if second.last() == key {
            value
        } else {
            seq![second.last()]
        };
        assert(written_out(first, key, value) + written_out(second.drop_last(), key, value)
            + tail =~= written_out(first, key, value) + (written_out(
            second.drop_last(),
            key,
            value,
        ) + tail));
    }
}

/// A text of one character is written out as the value where it is the key,
/// and as itself where it is not.
pub proof fn lemma_written_out_one(c: char, key: char, value: Seq<char>)
    ensures
        written_out(seq![c], key, value) == (if c == key {
            value
        } else {
            seq![c]
        }),
{
    assert(seq![c].drop_last() =~= Seq::<char>::empty());
    assert(written_out(Seq::<char>::empty(), key, value) =~= Seq::<char>::empty());
    let tail = if c == key {
        value
    } else {
        seq![c]
    };
    assert(Seq::<char>::empty() + tail =~= tail);
}

/// A text without the key is written out as itself.
pub proof fn lemma_written_out_plain(text: Seq<char>, key: char, value: Seq<char>)
    requires
        !text.contains(key),
    ensures
        written_out(text, key, value) == text,
    decreases text.len(),
{
    if text.len() > 0 {
        assert(text.contains(text.last()));
        assert forall|i: int| 0 <= i < text.drop_last().len() implies text.drop_last()[i]
            != key by {
            assert(text.contains(text[i]));
        }
        lemma_written_out_plain(text.drop_last(), key, value);
        assert(text.drop_last() + seq![text.last()] =~= text);
    }
}

/// Replacing a pattern of one character goes character by character: it
/// writes the key out.
pub proof fn lemma_replace_key(text: Seq<char>, key: char, value: Seq<char>, from: int)
    requires
        0 <= from <= text.len(),
    ensures
        replace_from(text, seq![key], value, from) == written_out(
            text.subrange(from, text.len() as int),
            key,
            value,
        ),
    decreases text.len() - from,
{
    let len = text.len() as int;
    if from < len {
        let rest = text.subrange(from + 1, len);
        lemma_replace_key(text, key, value, from + 1);
        assert(text.subrange(from, len) =~= seq![text[from]] + rest);
        lemma_written_out_concat(seq![text[from]], rest, key, value);
        lemma_written_out_one(text[from], key, value);
        if text[from] == key {
            assert(text.subrange(from, from + 1) =~= seq![key]);
        } else {
            assert(text.subrange(from, from + 1)[0] == text[from]);
        }
    } else {
        assert(text.subrange(from, len) =~= Seq::<char>::empty());
    }
}

/// What a pass of replacing writes is a character of the text or of the
/// replacement.
pub proof fn lemma_replace_chars(
    text: Seq<char>,
    pattern: Seq<char>,
    with: Seq<char>,
    from: int,
    c: char,
)
    requires
        0 <= from,
        replace_from(text, pattern, with, from).contains(c),
    ensures
        text.contains(c) || with.contains(c),
    decreases text.len() - from,
{
    if from < text.len() {
        let whole = replace_from(text, pattern, with, from);
        let k = choose|k: int| 0 <= k < whole.len() && whole[k] == c;
        if pattern.len() > 0 && occurs_at(text, pattern, from) {
            let rest = replace_from(text, pattern, with, from + pattern.len());
            if k < with.len() {
                assert(with[k] == c);
            } else {
                assert(rest[k - with.len()] == c);
                lemma_replace_chars(text, pattern, with, from + pattern.len(), c);
            }
        } else {
            let rest = replace_from(text, pattern, with, from + 1);
            if k == 0 {
                assert(text[from] == c);
            } else {
                assert(rest[k - 1] == c);
                lemma_replace_chars(text, pattern, with, from + 1, c);
            }
        }
    }
}

/// Where the pattern stands nowhere in a stretch, a pass of replacing copies
/// the stretch.
pub proof fn lemma_pass_copies(
    text: Seq<char>,
    pattern: Seq<char>,
    with: Seq<char>,
    from: int,
    to: int,
)
    requires
        0 <= from <= to <= text.len(),
        forall|at: int| from <= at < to ==> !occurs_at(text, pattern, at),
    ensures
        replace_from(text, pattern, with, from) == text.subrange(from, to) + replace_from(
            text,
            pattern,
            with,
            to,
        ),
    decreases to - from,
{
    let rest = replace_from(text, pattern, with, to);
    if from < to {
        lemma_pass_copies(text, pattern, with, from + 1, to);
        assert(seq![text[from]] + (text.subrange(from + 1, to) + rest) =~= text.subrange(from, to)
            + rest);
    } else {
        assert(text.subrange(from, to) + rest =~= rest);
    }
}

/// What a pass of replacing writes before the first character of its
/// replacement is a stretch of the text that it copied.
pub proof fn lemma_pass_prefix(
    text: Seq<char>,
    pattern: Seq<char>,
    with: Seq<char>,
    from: int,
    len: int,
)
    requires
        0 <= from <= text.len(),
        with.len() > 0,
        0 <= len <= replace_from(text, pattern, with, from).len(),
        forall|k: int| 0 <= k < len ==> replace_from(text, pattern, with, from)[k] != with[0],
    ensures
        from + len <= text.len(),
        replace_from(text, pattern, with, from).take(len) == text.subrange(from, from + len),
    decreases len,
{
    let pass = replace_from(text, pattern, with, from);
    if len > 0 {
        assert(pass[0] != with[0]);
        assert(!(pattern.len() > 0 && occurs_at(text, pattern, from)));
        let rest = replace_from(text, pattern, with, from + 1);
        assert forall|k: int| 0 <= k < len - 1 implies rest[k] != with[0] by {
            assert(pass[k + 1] == rest[k]);
        }
        lemma_pass_prefix(text, pattern, with, from + 1, len - 1);
        assert(pass.take(len) =~= seq![text[from]] + rest.take(len - 1));
        assert(text.subrange(from, from + len) =~= seq![text[from]] + text.subrange(
            from + 1,
            from + len,
        ));
    } else {
        assert(pass.take(len) =~= text.subrange(from, from + len));
    }
}

/// Where a substring stands behind a character after a pass of replacing,
/// it stood behind that character before, if the replacement holds neither
/// that character nor begins with one of the substring.
pub proof fn lemma_pass_keeps_behind(
    text: Seq<char>,
    pattern: Seq<char>,
    with: Seq<char>,
    target: Seq<char>,
    c: char,
    from: int,
    at: int,
)
    requires
        0 <= from <= text.len(),
        with.len() > 0,
        !with.contains(c),
        !target.contains(with[0]),
        target.len() > 0,
        forall|a: int| from < a && #[trigger] occurs_at(text, target, a) ==> text[a - 1] != c,
        1 <= at,
        occurs_at(replace_from(text, pattern, with, from), target, at),
    ensures
        replace_from(text, pattern, with, from)[at - 1] != c,
    decreases text.len() - from,
{
    let pass = replace_from(text, pattern, with, from);
    let len = target.len() as int;
    if from >= text.len() {
    } else if pattern.len() > 0 && occurs_at(text, pattern, from) {
        let rest = replace_from(text, pattern, with, from + pattern.len());
        if at - 1 < with.len() {
            assert(pass[at - 1] == with[at - 1]);
            assert(with.contains(with[at - 1]));
        } else {
            assert(rest.subrange(at - with.len(), at - with.len() + len) =~= pass.subrange(
                at,
                at + len,
            ));
            lemma_pass_keeps_behind(
                text,
                pattern,
                with,
                target,
                c,
                from + pattern.len(),
                at - with.len(),
            );
            assert(rest[at - with.len() - 1] == pass[at - 1]);
        }
    } else {
        let rest = replace_from(text, pattern, with, from + 1);
        assert(rest.subrange(at - 1, at - 1 + len) =~= pass.subrange(at, at + len));
        if at >= 2 {
            lemma_pass_keeps_behind(text, pattern, with, target, c, from + 1, at - 1);
            assert(rest[at - 2] == pass[at - 1]);
        } else if text[from] == c {
            assert forall|k: int| 0 <= k < len implies rest[k] != with[0] by {
                assert(rest.subrange(0, len)[k] == rest[k]);
                assert(target.contains(target[k]));
            }
            lemma_pass_prefix(text, pattern, with, from + 1, len);
            assert(rest.take(len) =~= rest.subrange(0, len));
            assert(occurs_at(text, target, from + 1));
        }
    }
}

/// After one pass of replacing a substring by a key that the substring does
/// not hold, the substring stands nowhere.
pub proof fn lemma_pass_clears(text: Seq<char>, target: Seq<char>, key: char, from: int, at: int)
    requires
        0 <= from <= text.len(),
        target.len() > 0,
        !target.contains(key),
    ensures
        !occurs_at(replace_from(text, target, seq![key], from), target, at),
    decreases text.len() - from,
{
    let pass = replace_from(text, target, seq![key], from);
    if occurs_at(pass, target, at) {
        assert(target.contains(target[0]));
        if from >= text.len() {
        } else if occurs_at(text, target, from) {
            let rest = replace_from(text, target, seq![key], from + target.len());
            if at == 0 {
                assert(pass.subrange(0, target.len() as int)[0] == pass[0]);
            } else {
                assert(rest.subrange(at - 1, at - 1 + target.len()) =~= pass.subrange(
                    at,
                    at + target.len(),
                ));
                lemma_pass_clears(text, target, key, from + target.len(), at - 1);
            }
        } else {
            let rest = replace_from(text, target, seq![key], from + 1);
            if at == 0 {
                assert forall|k: int| 0 <= k < target.len() implies pass[k] != key by {
                    assert(pass.subrange(0, target.len() as int)[k] == pass[k]);
                    assert(target.contains(target[k]));
                }
                lemma_pass_prefix(text, target, seq![key], from, target.len() as int);
                assert(pass.take(target.len() as int) =~= pass.subrange(0, target.len() as int));
            } else {
                assert(rest.subrange(at - 1, at - 1 + target.len()) =~= pass.subrange(
                    at,
                    at + target.len(),
                ));
                lemma_pass_clears(text, target, key, from + 1, at - 1);
            }
        }
    }
}

/// Replacing a substring by a key that the substring does not hold is done
/// after one pass.
pub proof fn lemma_one_pass(text: Seq<char>, target: Seq<char>, key: char)
    requires
        target.len() > 1,
        !target.contains(key),
    ensures
        replaced_until_gone(text, target, seq![key]) == (if contains_seq(text, target) {
            replace_seq(text, target, seq![key])
        } else {
            text
        }),
{
    if contains_seq(text, target) {
        let pass = replace_seq(text, target, seq![key]);
        assert forall|at: int| !occurs_at(pass, target, at) by {
            lemma_pass_clears(text, target, key, 0, at);
        }
        assert(!contains_seq(pass, target));
        assert(replaced_until_gone(pass, target, seq![key]) == pass);
    }
}

/// Writing the keys out in copies of a unit gives copies of the unit with
/// its keys written out.
pub proof fn lemma_written_out_repeat(unit: Seq<char>, count: nat, key: char, value: Seq<char>)
    ensures
        written_out(repeat_seq(unit, count), key, value) == repeat_seq(
            written_out(unit, key, value),
            count,
        ),
    decreases count,
{
    if count > 0 {
        lemma_written_out_repeat(unit, (count - 1) as nat, key, value);
        lemma_written_out_concat(repeat_seq(unit, (count - 1) as nat), unit, key, value);
    }
}

/// One pass of replacing a substring by a key that the substring does not
/// hold is undone by writing the key out as the substring.
pub proof fn lemma_pass_unwinds(text: Seq<char>, target: Seq<char>, key: char, from: int)
    requires
        0 <= from <= text.len(),
        !target.contains(key),
    ensures
        written_out(replace_from(text, target, seq![key], from), key, target) == written_out(
            text.subrange(from, text.len() as int),
            key,
            target,
        ),
    decreases text.len() - from,
{
    let len = text.len() as int;
    if from >= len {
        assert(text.subrange(from, len) =~= Seq::<char>::empty());
    } else if target.len() > 0 && occurs_at(text, target, from) {
        let next = from + target.len();
        let rest = replace_from(text, target, seq![key], next);
        lemma_pass_unwinds(text, target, key, next);
        lemma_written_out_concat(seq![key], rest, key, target);
        lemma_written_out_one(key, key, target);
        assert(text.subrange(from, len) =~= target + text.subrange(next, len));
        lemma_written_out_concat(target, text.subrange(next, len), key, target);
        lemma_written_out_plain(target, key, target);
    } else {
        let rest = replace_from(text, target, seq![key], from + 1);
        lemma_pass_unwinds(text, target, key, from + 1);
        lemma_written_out_concat(seq![text[from]], rest, key, target);
        assert(text.subrange(from, len) =~= seq![text[from]] + text.subrange(from + 1, len));
        lemma_written_out_concat(seq![text[from]], text.subrange(from + 1, len), key, target);
    }
}

/// A character other than the key stands in a text with the key written out
/// where it stands in the text.
pub proof fn lemma_written_out_keeps(text: Seq<char>, key: char, value: Seq<char>, c: char)
    requires
        text.contains(c),
        c != key,
    ensures
        written_out(text, key, value).contains(c),
    decreases text.len(),
{
    let front = written_out(text.drop_last(), key, value);
    let tail = if text.last() == key {
        value
    } else {
        seq![text.last()]
    };
    let k = choose|k: int| 0 <= k < text.len() && text[k] == c;
    if k == text.len() - 1 {
        assert((front + tail)[front.len() as int] == c);
    } else {
        assert(text.drop_last()[k] == c);
        lemma_written_out_keeps(text.drop_last(), key, value, c);
        let j = choose|j: int| 0 <= j < front.len() && front[j] == c;
        assert((front + tail)[j] == c);
    }
}

} // verus!
