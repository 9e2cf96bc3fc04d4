//! Sequences of characters: searching, counting, replacing, decimal numbers.
//!
//! Every text that the compressor handles is a `Vec<char>`, viewed as a
//! `Seq<char>`. The functions here are the vocabulary of the other modules.

use vstd::prelude::*;

verus! {

/// `pattern` stands in `text` at index `i`.
pub open spec fn occurs_at(text: Seq<char>, pattern: Seq<char>, i: int) -> bool {
    &&& 0 <= i
    &&& i + pattern.len() <= text.len()
    &&& text.subrange(i, i + pattern.len()) == pattern
}

/// `pattern` stands somewhere in `text`.
pub open spec fn contains_seq(text: Seq<char>, pattern: Seq<char>) -> bool {
    exists|i: int| occurs_at(text, pattern, i)
}

/// The least index at or after `from` where `pattern` stands in `text`, or
/// `text.len()` where there is none.
pub open spec fn first_occurrence(text: Seq<char>, pattern: Seq<char>, from: int) -> int
    decreases text.len() - from,
{
    if from < 0 || from >= text.len() || from + pattern.len() > text.len() {
        text.len() as int
    } else if occurs_at(text, pattern, from) {
        from
    } else {
        first_occurrence(text, pattern, from + 1)
    }
}

/// How many copies of `pattern` a scan from `from` finds, left to right,
/// where each copy found is stepped over whole.
pub open spec fn count_from(text: Seq<char>, pattern: Seq<char>, from: int) -> nat
    decreases text.len() - from,
{
    if from < 0 || pattern.len() == 0 || from + pattern.len() > text.len() {
        0
    } else if occurs_at(text, pattern, from) {
        1 + count_from(text, pattern, from + pattern.len())
    } else {
        count_from(text, pattern, from + 1)
    }
}

/// The number of non-overlapping copies of `pattern` in `text`, found left to right.
pub open spec fn count_occurrences(text: Seq<char>, pattern: Seq<char>) -> nat {
    count_from(text, pattern, 0)
}

/// `text` from index `from` on, with each copy of `pattern` that a scan from
/// the left finds replaced by `with`.
pub open spec fn replace_from(
    text: Seq<char>,
    pattern: Seq<char>,
    with: Seq<char>,
    from: int,
) -> Seq<char>
    decreases text.len() - from,
{
    if from < 0 || from >= text.len() {
        Seq::empty()
    } else if pattern.len() > 0 && occurs_at(text, pattern, from) {
        with + replace_from(text, pattern, with, from + pattern.len())
    } else {
        seq![text[from]] + replace_from(text, pattern, with, from + 1)
    }
}

/// `text` with every non-overlapping copy of `pattern`, found left to right,
/// replaced by `with`.
pub open spec fn replace_seq(text: Seq<char>, pattern: Seq<char>, with: Seq<char>) -> Seq<char> {
    replace_from(text, pattern, with, 0)
}

/// `count` copies of `unit`, one after the other.
pub open spec fn repeat_seq(unit: Seq<char>, count: nat) -> Seq<char>
    decreases count,
{
    if count == 0 {
        Seq::empty()
    } else {
        repeat_seq(unit, (count - 1) as nat) + unit
    }
}

/// How many characters other than `c` stand in `text` from index `from` up
/// to the next `c`, or up to the end where no `c` follows.
pub open spec fn distance_to(text: Seq<char>, c: char, from: int) -> nat
    decreases text.len() - from,
{
    if from < 0 || from >= text.len() || text[from] == c {
        0
    } else {
        1 + distance_to(text, c, from + 1)
    }
}

/// `rest` with `head` in front of it, where there is a `rest`.
pub open spec fn prefixed(head: Seq<char>, rest: Option<Seq<char>>) -> Option<Seq<char>> {
    match rest {
        Some(tail) => Some(head + tail),
        None => None,
    }
}

/// Whether `pattern` stands in `text` at index `i`.
pub fn matches_at(text: &Vec<char>, pattern: &Vec<char>, i: usize) -> (found: bool)
    ensures
        found == occurs_at(text@, pattern@, i as int),
{
    if pattern.len() > text.len() || i > text.len() - pattern.len() {
        return false;
    }
    let mut k: usize = 0;
    while k < pattern.len()
        invariant
            k <= pattern.len(),
            i + pattern.len() <= text.len(),
            forall|j: int| 0 <= j < k ==> text@[i + j] == pattern@[j],
        decreases pattern.len() - k,
    {
        if text[i + k] != pattern[k] {
            proof {
                let window = text@.subrange(i as int, i + pattern.len());
                assert(window[k as int] == text@[i + k]);
            }
            return false;
        }
        k += 1;
    }
    proof {
        assert(text@.subrange(i as int, i + pattern.len()) =~= pattern@);
    }
    true
}

/// The first index at or after `from` where `pattern` stands in `text`.
pub fn find_from(text: &Vec<char>, pattern: &Vec<char>, from: usize) -> (found: Option<usize>)
    ensures
        match found {
            Some(p) => p == first_occurrence(text@, pattern@, from as int) && p < text.len()
                && occurs_at(text@, pattern@, p as int),
            None => first_occurrence(text@, pattern@, from as int) == text.len(),
        },
        forall|j: int|
            from <= j < first_occurrence(text@, pattern@, from as int) ==> !occurs_at(
                text@,
                pattern@,
                j,
            ),
{
    let mut i: usize = from;
    while i < text.len()
        invariant
            from <= i,
            first_occurrence(text@, pattern@, from as int) == first_occurrence(
                text@,
                pattern@,
                i as int,
            ),
            forall|j: int| from <= j < i ==> !occurs_at(text@, pattern@, j),
        decreases text.len() - i,
    {
        if matches_at(text, pattern, i) {
            return Some(i);
        }
        i += 1;
    }
    None
}

/// `first_occurrence` answers with an index between `from` and the text's
/// length, the pattern stands at no index before its answer, and it stands at
/// the answer where that is an index of the text.
pub proof fn lemma_first_occurrence_bounds(text: Seq<char>, pattern: Seq<char>, from: int)
    requires
        0 <= from,
    ensures
        from <= first_occurrence(text, pattern, from) || first_occurrence(text, pattern, from)
            == text.len(),
        first_occurrence(text, pattern, from) <= text.len(),
        forall|j: int|
            from <= j < first_occurrence(text, pattern, from) ==> !occurs_at(text, pattern, j),
        first_occurrence(text, pattern, from) < text.len() ==> occurs_at(
            text,
            pattern,
            first_occurrence(text, pattern, from),
        ),
    decreases text.len() - from,
{
    if from >= text.len() || from + pattern.len() > text.len() {
    } else if occurs_at(text, pattern, from) {
    } else {
        lemma_first_occurrence_bounds(text, pattern, from + 1);
    }
}

/// Whether `pattern` stands somewhere in `text`.
pub fn contains(text: &Vec<char>, pattern: &Vec<char>) -> (found: bool)
    ensures
        found == contains_seq(text@, pattern@),
{
    if pattern.len() == 0 {
        assert(text@.subrange(0, 0) =~= pattern@);
        assert(occurs_at(text@, pattern@, 0));
        return true;
    }
    match find_from(text, pattern, 0) {
        Some(p) => {
            assert(occurs_at(text@, pattern@, p as int));
            true
        },
        None => {
            assert forall|i: int| !occurs_at(text@, pattern@, i) by {
                if occurs_at(text@, pattern@, i) {
                    assert(i < text.len());
                }
            }
            false
        },
    }
}

/// Appends a copy of `tail` to `buffer`.
pub fn push_all(buffer: &mut Vec<char>, tail: &Vec<char>)
    ensures
        final(buffer)@ == old(buffer)@ + tail@,
{
    let mut k: usize = 0;
    while k < tail.len()
        invariant
            k <= tail.len(),
            buffer@ == old(buffer)@ + tail@.take(k as int),
        decreases tail.len() - k,
    {
        buffer.push(tail[k]);
        k += 1;
        assert(buffer@ =~= old(buffer)@ + tail@.take(k as int));
    }
    assert(tail@.take(k as int) =~= tail@);
}

/// The characters of `text` from `start` up to, not including, `end`.
pub fn slice_of(text: &Vec<char>, start: usize, end: usize) -> (part: Vec<char>)
    requires
        start <= end <= text.len(),
    ensures
        part@ == text@.subrange(start as int, end as int),
{
    let mut part: Vec<char> = Vec::new();
    let mut k: usize = start;
    while k < end
        invariant
            start <= k <= end <= text.len(),
            part@ == text@.subrange(start as int, k as int),
        decreases end - k,
    {
        part.push(text[k]);
        k += 1;
        assert(part@ =~= text@.subrange(start as int, k as int));
    }
    part
}

/// The number of non-overlapping copies of `pattern` in `text`, found left
/// to right. An empty pattern is found nowhere.
pub fn count_matches(text: &Vec<char>, pattern: &Vec<char>) -> (count: usize)
    ensures
        count == count_occurrences(text@, pattern@),
{
    if pattern.len() == 0 {
        return 0;
    }
    let mut count: usize = 0;
    let mut i: usize = 0;
    while i < text.len()
        invariant
            pattern.len() > 0,
            count <= i,
            count + count_from(text@, pattern@, i as int) == count_from(text@, pattern@, 0),
        decreases text.len() - i,
    {
        if matches_at(text, pattern, i) {
            count += 1;
            i += pattern.len();
        } else {
            i += 1;
        }
    }
    count
}

/// A copy of `text` in which every non-overlapping copy of `pattern`, found
/// left to right, is replaced by `with`. An empty pattern is found nowhere.
pub fn replace_each(text: &Vec<char>, pattern: &Vec<char>, with: &Vec<char>) -> (replaced: Vec<char>)
    ensures
        replaced@ == replace_seq(text@, pattern@, with@),
{
    let mut replaced: Vec<char> = Vec::new();
    let mut i: usize = 0;
    while i < text.len()
        invariant
            replaced@ + replace_from(text@, pattern@, with@, i as int) == replace_from(
                text@,
                pattern@,
                with@,
                0,
            ),
        decreases text.len() - i,
    {
        let ghost before = replaced@;
        if pattern.len() > 0 && matches_at(text, pattern, i) {
            push_all(&mut replaced, with);
            assert(replaced@ + replace_from(text@, pattern@, with@, i + pattern.len()) =~= before
                + replace_from(text@, pattern@, with@, i as int));
            i += pattern.len();
        } else {
            replaced.push(text[i]);
            assert(replaced@ + replace_from(text@, pattern@, with@, i + 1) =~= before
                + replace_from(text@, pattern@, with@, i as int));
            i += 1;
        }
    }
    assert(replaced@ + Seq::<char>::empty() =~= replaced@);
    replaced
}

/// `count` copies of `unit`, one after the other.
pub fn repeat(unit: &Vec<char>, count: usize) -> (repeated: Vec<char>)
    ensures
        repeated@ == repeat_seq(unit@, count as nat),
{
    let mut repeated: Vec<char> = Vec::new();
    let mut k: usize = 0;
    while k < count
        invariant
            k <= count,
            repeated@ == repeat_seq(unit@, k as nat),
        decreases count - k,
    {
        push_all(&mut repeated, unit);
        k += 1;
    }
    repeated
}

/// The characters of a string slice.
pub fn chars_of(s: &str) -> (chars: Vec<char>)
    ensures
        chars@ == s@,
{
    broadcast use vstd::string::group_string_axioms;

    let mut chars: Vec<char> = Vec::new();
    for c in it: s.chars()
        invariant
            it.seq() == s@,
            chars@ == s@.take(it.index() as int),
    {
        chars.push(c);
        assert(chars@ =~= s@.take(it.index() + 1));
    }
    assert(s@.take(s@.len() as int) =~= s@);
    chars
}

/// `String::push` of the standard library: the string gains `c` as its last
/// character and keeps the others.
#[verifier::external_body]
fn string_push(s: &mut String, c: char)
    ensures
        final(s)@ == old(s)@.push(c),
{
    s.push(c);
}

/// The string made of `chars`.
pub fn string_of(chars: &Vec<char>) -> (s: String)
    ensures
        s@ == chars@,
{
    let mut s = String::new();
    let mut k: usize = 0;
    while k < chars.len()
        invariant
            k <= chars.len(),
            s@ == chars@.take(k as int),
        decreases chars.len() - k,
    {
        string_push(&mut s, chars[k]);
        k += 1;
        assert(s@ =~= chars@.take(k as int));
    }
    assert(chars@.take(k as int) =~= chars@);
    s
}

/// The first index at or after `from` where `c` stands in `text`, or the
/// length of `text` where `c` does not follow; `from` itself where it lies
/// behind the text.
pub fn find_char_from(text: &Vec<char>, c: char, from: usize) -> (at: usize)
    ensures
        at == from + distance_to(text@, c, from as int),
        from <= at,
        from <= text.len() ==> at <= text.len(),
        at < text.len() ==> text@[at as int] == c,
        forall|j: int| from <= j < at ==> text@[j] != c,
{
    let mut at: usize = from;
    while at < text.len() && text[at] != c
        invariant
            from <= at,
            from <= text.len() ==> at <= text.len(),
            from + distance_to(text@, c, from as int) == at + distance_to(text@, c, at as int),
            forall|j: int| from <= j < at ==> text@[j] != c,
        decreases text.len() - at,
    {
        at += 1;
    }
    at
}

/// Behind a stretch without `c`, the distance to the next `c` is shorter by
/// the length of the stretch.
pub proof fn lemma_distance_past(text: Seq<char>, c: char, from: int, len: int)
    requires
        0 <= from,
        0 <= len,
        from + len <= text.len(),
        forall|j: int| from <= j < from + len ==> text[j] != c,
    ensures
        distance_to(text, c, from) == len + distance_to(text, c, from + len),
    decreases len,
{
    if len > 0 {
        lemma_distance_past(text, c, from + 1, len - 1);
    }
}

/// What stands in front of an index does not change the distance from it to
/// the next `c`.
pub proof fn lemma_distance_shift(front: Seq<char>, text: Seq<char>, c: char, from: int)
    requires
        0 <= from,
    ensures
        distance_to(front + text, c, front.len() + from) == distance_to(text, c, from),
    decreases text.len() - from,
{
    if from < text.len() {
        assert((front + text)[front.len() + from] == text[from]);
        if text[from] != c {
            lemma_distance_shift(front, text, c, from + 1);
        }
    }
}

/// `count` copies of one character are `count` characters, each that character.
pub proof fn lemma_repeat_char(c: char, count: nat)
    ensures
        repeat_seq(seq![c], count).len() == count,
        forall|i: int| 0 <= i < count ==> #[trigger] repeat_seq(seq![c], count)[i] == c,
    decreases count,
{
    if count > 0 {
        lemma_repeat_char(c, (count - 1) as nat);
    }
}

/// From an index of the text, the distance to the next `c` leads to a `c` or
/// to the text's end, past characters other than `c`.
pub proof fn lemma_distance_reaches(text: Seq<char>, c: char, from: int)
    requires
        0 <= from <= text.len(),
    ensures
        from + distance_to(text, c, from) <= text.len(),
        from + distance_to(text, c, from) < text.len() ==> text[from + distance_to(text, c, from)]
            == c,
        forall|k: int| from <= k < from + distance_to(text, c, from) ==> text[k] != c,
    decreases text.len() - from,
{
    if from < text.len() && text[from] != c {
        lemma_distance_reaches(text, c, from + 1);
    }
}

/// Copies of a unit hold only characters of the unit.
pub proof fn lemma_repeat_chars(unit: Seq<char>, count: nat, c: char)
    requires
        repeat_seq(unit, count).contains(c),
    ensures
        unit.contains(c),
    decreases count,
{
    if count > 0 {
        let front = repeat_seq(unit, (count - 1) as nat);
        let k = choose|k: int| 0 <= k < (front + unit).len() && (front + unit)[k] == c;
        if k < front.len() {
            assert(front[k] == c);
            lemma_repeat_chars(unit, (count - 1) as nat, c);
        } else {
            assert(unit[k - front.len()] == c);
        }
    }
}

/// One copy or more of a unit begin with the unit.
pub proof fn lemma_repeat_starts(unit: Seq<char>, count: nat)
    requires
        count >= 1,
    ensures
        repeat_seq(unit, count).len() >= unit.len(),
        repeat_seq(unit, count).take(unit.len() as int) == unit,
    decreases count,
{
    let front = repeat_seq(unit, (count - 1) as nat);
    if count == 1 {
        assert(front =~= Seq::<char>::empty());
        assert((front + unit).take(unit.len() as int) =~= unit);
    } else {
        lemma_repeat_starts(unit, (count - 1) as nat);
        assert((front + unit).take(unit.len() as int) =~= front.take(unit.len() as int));
    }
}

/// `count` copies of a unit are `count` times as long as the unit.
pub proof fn lemma_repeat_len(unit: Seq<char>, count: nat)
    ensures
        repeat_seq(unit, count).len() == count * unit.len(),
    decreases count,
{
    if count > 0 {
        lemma_repeat_len(unit, (count - 1) as nat);
        assert(count * unit.len() == (count - 1) * unit.len() + unit.len())
            by (nonlinear_arith);
    } else {
        assert(count * unit.len() == 0) by (nonlinear_arith)
            requires
                count == 0,
        ;
    }
}

/// A window of a text holds only characters of the text.
pub proof fn lemma_window_chars(text: Seq<char>, window: Seq<char>, c: char)
    requires
        contains_seq(text, window),
        window.contains(c),
    ensures
        text.contains(c),
{
    let at = choose|at: int| occurs_at(text, window, at);
    let k = choose|k: int| 0 <= k < window.len() && window[k] == c;
    assert(text.subrange(at, at + window.len())[k] == text[at + k]);
}

} // verus!
