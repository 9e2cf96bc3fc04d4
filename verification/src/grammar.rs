//! The grammar stage: a repeated substring becomes one reserved symbol.
//!
//! One step picks the substring whose copies cover most of the buffer,
//! collapses a run of adjacent copies into a counted escape, and, where a
//! dictionary entry pays for itself, replaces every copy by a fresh key.
//! Reading a stream replays the dictionary from its last entry to its first.

use vstd::prelude::*;
use crate::CodecError;
use crate::alphabet::has_char;
use crate::decimal::{decimal, to_decimal};
use crate::mapping::{Mapping, MappingView, PairView};
use crate::text::{
    contains, contains_seq, count_from, count_matches, count_occurrences, find_from,
    first_occurrence, lemma_repeat_len, matches_at, occurs_at, push_all, repeat, repeat_seq,
    replace_each, replace_from, replace_seq, slice_of,
};

verus! {

/// A candidate substring with its score, as a mathematical value.
pub struct GroupView {
    pub data: Seq<char>,
    pub occurrences: nat,
    pub weight: nat,
}

/// A candidate substring: how often it occurs in the buffer and its weight,
/// the length of the substring times the number of its occurrences.
#[derive(Debug)]
pub struct Group {
    pub data: Vec<char>,
    pub occurrences: usize,
    pub weight: usize,
}

impl View for Group {
    type V = GroupView;

    open spec fn view(&self) -> GroupView {
        GroupView {
            data: self.data@,
            occurrences: self.occurrences as nat,
            weight: self.weight as nat,
        }
    }
}

/// The group of a substring and the number of its occurrences.
pub open spec fn scored(data: Seq<char>, occurrences: nat) -> GroupView {
    GroupView { data, occurrences, weight: data.len() * occurrences }
}

impl Group {
    /// The group of `data` occurring `occurrences` times.
    pub fn new(data: Vec<char>, occurrences: usize) -> (group: Group)
        requires
            data.len() * occurrences <= usize::MAX,
        ensures
            group@ == scored(data@, occurrences as nat),
    {
        let weight = Self::calculate_weight(&data, occurrences);
        Group { data, weight, occurrences }
    }

    /// The weight of `data` occurring `occurrences` times: its length times
    /// the number of its occurrences.
    pub fn calculate_weight(data: &Vec<char>, occurrences: usize) -> (weight: usize)
        requires
            data.len() * occurrences <= usize::MAX,
        ensures
            weight == data.len() * occurrences,
    {
        data.len() * occurrences
    }
}

/// The view of a group that may be missing.
pub open spec fn view_of(group: Option<Group>) -> Option<GroupView> {
    match group {
        Some(g) => Some(g@),
        None => None,
    }
}

/// The best group after the window of `len` characters at `start` has been
/// looked at: the window's group where the window occurs more than once and
/// weighs more than `best`, else `best`.
pub open spec fn visited(text: Seq<char>, len: int, start: int, best: Option<GroupView>) -> Option<
    GroupView,
> {
    let data = text.subrange(start, start + len);
    let occurrences = count_occurrences(text, data);
    let candidate = scored(data, occurrences);
    if occurrences > 1 && (best is None || candidate.weight > best->0.weight) {
        Some(candidate)
    } else {
        best
    }
}

/// The best group once the scan has gone on from the window of `len`
/// characters at `start`: to the right to the end of the text, then through
/// the shorter windows, each length from the left, down to two characters.
pub open spec fn scanned(text: Seq<char>, len: int, start: int, best: Option<GroupView>) -> Option<
    GroupView,
>
    decreases len, text.len() - start,
{
    if len < 2 {
        best
    } else if start < 0 || start + len > text.len() {
        scanned(text, len - 1, 0, best)
    } else {
        scanned(text, len, start + 1, visited(text, len, start, best))
    }
}

/// The substring to replace next: among the windows of a quarter of the
/// text's length down to two characters that occur more than once, the one of
/// greatest weight, and of those the first that the scan meets, which takes
/// longer windows before shorter ones and each length from left to right.
/// `None` where no such window occurs more than once.
pub open spec fn best_group(text: Seq<char>) -> Option<GroupView> {
    scanned(text, text.len() as int / 4, 0, None)
}

/// The copies of a pattern that a scan finds do not overlap, so together they
/// are no longer than what the scan covers.
pub proof fn lemma_count_fits(text: Seq<char>, pattern: Seq<char>, from: int)
    requires
        0 <= from <= text.len(),
    ensures
        count_from(text, pattern, from) * pattern.len() <= text.len() - from,
    decreases text.len() - from,
{
    let count = count_from(text, pattern, from);
    let len = pattern.len();
    if pattern.len() == 0 || from + pattern.len() > text.len() {
        assert(count * len == 0) by (nonlinear_arith)
            requires
                count == 0 || len == 0,
        ;
    } else if occurs_at(text, pattern, from) {
        lemma_count_fits(text, pattern, from + pattern.len());
        let rest = count_from(text, pattern, from + pattern.len());
        assert((1 + rest) * len == len + rest * len) by (nonlinear_arith);
    } else {
        lemma_count_fits(text, pattern, from + 1);
    }
}

/// The substring of `source` to replace next, if there is one.
pub fn select_best_group(source: &Vec<char>) -> (best: Option<Group>)
    ensures
        view_of(best) == best_group(source@),
{
    let n = source.len();
    let mut len: usize = n / 4;
    let mut start: usize = 0;
    let mut best: Option<Group> = None;
    while len >= 2
        invariant
            n == source.len(),
            len <= n / 4,
            start <= n,
            scanned(source@, len as int, start as int, view_of(best)) == best_group(source@),
        decreases len, n - start,
    {
        if len > n - start {
            len -= 1;
            start = 0;
        } else {
            let data = slice_of(source, start, start + len);
            let occurrences = count_matches(source, &data);
            proof {
                lemma_count_fits(source@, data@, 0);
                assert(data@.len() * occurrences == occurrences * data@.len())
                    by (nonlinear_arith);
            }
            if occurrences > 1 {
                let candidate = Group::new(data, occurrences);
                let heavier = match &best {
                    None => true,
                    Some(group) => candidate.weight > group.weight,
                };
                if heavier {
                    best = Some(candidate);
                }
            }
            start += 1;
        }
    }
    best
}

/// How many copies of `unit` stand one after the other in `text`, the first
/// of them at index `at`.
pub open spec fn adjacent_copies(text: Seq<char>, unit: Seq<char>, at: int) -> nat
    decreases text.len() - at,
{
    if unit.len() == 0 || !occurs_at(text, unit, at) {
        0
    } else {
        1 + adjacent_copies(text, unit, at + unit.len())
    }
}

/// The length, in copies, of the run of adjacent copies of `target` that
/// begins at the first place where `target` stands in `text`; zero where it
/// stands nowhere.
pub open spec fn first_run(text: Seq<char>, target: Seq<char>) -> nat {
    adjacent_copies(text, target, first_occurrence(text, target, 0))
}

/// The escape for `count` adjacent copies of `target`: the delimiter, the
/// count in decimal, the delimiter, the substring, the delimiter.
pub open spec fn group_escape(count: nat, target: Seq<char>, ctrl_char: char) -> Seq<char> {
    seq![ctrl_char] + decimal(count) + seq![ctrl_char] + target + seq![ctrl_char]
}

/// `text` after the run of adjacent copies of `target` has been collapsed:
/// where the first run has more than one copy, every place where that many
/// adjacent copies stand is replaced by the run's escape.
pub open spec fn groups_collapsed(text: Seq<char>, target: Seq<char>, ctrl_char: char) -> Seq<
    char,
> {
    let count = first_run(text, target);
    if count > 1 {
        replace_seq(text, repeat_seq(target, count), group_escape(count, target, ctrl_char))
    } else {
        text
    }
}

/// `text` after `target` has been replaced by the shorter `with`, pass after
/// pass from the left, until `target` stands nowhere in it.
pub open spec fn replaced_until_gone(text: Seq<char>, target: Seq<char>, with: Seq<char>) -> Seq<
    char,
>
    decreases text.len(),
    via replaced_until_gone_decreases
{
    if with.len() < target.len() && contains_seq(text, target) {
        replaced_until_gone(replace_seq(text, target, with), target, with)
    } else {
        text
    }
}

#[via_fn]
proof fn replaced_until_gone_decreases(text: Seq<char>, target: Seq<char>, with: Seq<char>) {
    if with.len() < target.len() && contains_seq(text, target) {
        let p = choose|p: int| occurs_at(text, target, p);
        lemma_replace_shrinks(text, target, with, 0, p);
    }
}

/// Replacing a pattern by something shorter makes a text shorter where the
/// pattern stands in it, and never longer.
pub proof fn lemma_replace_shrinks(
    text: Seq<char>,
    pattern: Seq<char>,
    with: Seq<char>,
    from: int,
    at: int,
)
    requires
        with.len() < pattern.len(),
        0 <= from <= text.len(),
    ensures
        replace_from(text, pattern, with, from).len() <= text.len() - from,
        from <= at && occurs_at(text, pattern, at) ==> replace_from(text, pattern, with, from).len()
            < text.len() - from,
    decreases text.len() - from,
{
    if from >= text.len() {
    } else if occurs_at(text, pattern, from) {
        lemma_replace_shrinks(text, pattern, with, from + pattern.len(), at);
    } else {
        lemma_replace_shrinks(text, pattern, with, from + 1, at);
    }
}

/// A scan that begins before the first copy of a pattern finds what a scan
/// from that copy finds.
pub proof fn lemma_count_from_first(text: Seq<char>, pattern: Seq<char>, from: int)
    requires
        0 <= from,
        pattern.len() > 0,
    ensures
        count_from(text, pattern, from) == count_from(
            text,
            pattern,
            first_occurrence(text, pattern, from),
        ),
    decreases text.len() - from,
{
    if from >= text.len() || from + pattern.len() > text.len() {
    } else if occurs_at(text, pattern, from) {
    } else {
        lemma_count_from_first(text, pattern, from + 1);
    }
}

/// The scan finds every copy of a run of adjacent copies.
pub proof fn lemma_adjacent_copies_counted(text: Seq<char>, pattern: Seq<char>, at: int)
    requires
        0 <= at,
    ensures
        adjacent_copies(text, pattern, at) <= count_from(text, pattern, at),
    decreases text.len() - at,
{
    if pattern.len() > 0 && occurs_at(text, pattern, at) {
        lemma_adjacent_copies_counted(text, pattern, at + pattern.len());
    }
}

/// The first run of a pattern has no more copies than the whole text.
pub proof fn lemma_first_run_counted(text: Seq<char>, pattern: Seq<char>)
    requires
        pattern.len() > 0,
    ensures
        first_run(text, pattern) <= count_occurrences(text, pattern),
        count_occurrences(text, pattern) > 0 ==> first_run(text, pattern) > 0,
{
    let first = first_occurrence(text, pattern, 0);
    crate::text::lemma_first_occurrence_bounds(text, pattern, 0);
    lemma_count_from_first(text, pattern, 0);
    lemma_adjacent_copies_counted(text, pattern, first);
}

/// Collapses the first run of adjacent copies of `target` in `source`: where
/// it has more than one copy, every place where that many adjacent copies
/// stand becomes the run's escape. Answers with the number of copies in the
/// first run, which is zero where `target` is empty or stands nowhere.
pub fn collapse_groups(mapping: &Mapping, source: &mut Vec<char>, target: &Vec<char>) -> (count:
    usize)
    ensures
        count == first_run(old(source)@, target@),
        final(source)@ == groups_collapsed(old(source)@, target@, mapping@.ctrl_char),
{
    if target.len() == 0 {
        return 0;
    }
    let first = match find_from(source, target, 0) {
        Some(p) => p,
        None => {
            return 0;
        },
    };
    let mut index: usize = first;
    let mut count: usize = 0;
    while matches_at(source, target, index)
        invariant
            target.len() > 0,
            first <= index <= source.len(),
            count <= index,
            count + adjacent_copies(source@, target@, index as int) == adjacent_copies(
                source@,
                target@,
                first as int,
            ),
        decreases source.len() - index,
    {
        count += 1;
        index += target.len();
    }
    if count > 1 {
        let ctrl_char = mapping.ctrl_char();
        let run = repeat(target, count);
        let mut escape: Vec<char> = Vec::new();
        escape.push(ctrl_char);
        let digits = to_decimal(count);
        push_all(&mut escape, &digits);
        escape.push(ctrl_char);
        push_all(&mut escape, target);
        escape.push(ctrl_char);
        assert(escape@ =~= group_escape(count as nat, target@, ctrl_char));
        proof {
            lemma_repeat_len(target@, count as nat);
        }
        let collapsed = replace_each(source, &run, &escape);
        *source = collapsed;
    }
    count
}

/// Replaces `target` in `source` by the shorter `new_value`, pass after pass,
/// until `target` stands nowhere in `source`.
pub fn replace_all(source: &mut Vec<char>, target: &Vec<char>, new_value: &Vec<char>)
    requires
        new_value.len() < target.len(),
    ensures
        final(source)@ == replaced_until_gone(old(source)@, target@, new_value@),
        !contains_seq(final(source)@, target@),
{
    while contains(source, target)
        invariant
            new_value.len() < target.len(),
            replaced_until_gone(source@, target@, new_value@) == replaced_until_gone(
                old(source)@,
                target@,
                new_value@,
            ),
        decreases source.len(),
    {
        proof {
            let p = choose|p: int| occurs_at(source@, target@, p);
            lemma_replace_shrinks(source@, target@, new_value@, 0, p);
        }
        let replaced = replace_each(source, target, new_value);
        *source = replaced;
    }
}

/// The admission test: whether a dictionary entry for a substring of `len`
/// characters with `occurrences` copies left in the buffer makes the stream
/// shorter. The entry costs three structural characters and the key once per
/// copy and once in the entry; it saves the substring at every copy but one.
pub open spec fn admitted(len: nat, occurrences: int) -> bool {
    3 + (occurrences + 1) < len * (occurrences - 1)
}

/// What one step of the grammar stage leaves behind.
pub struct Step {
    /// The mapping after the step.
    pub mapping: MappingView,
    /// The buffer after the step.
    pub buffer: Seq<char>,
    /// Whether a substitution was made, or why the step failed.
    pub outcome: Result<bool, CodecError>,
}

/// One step of the grammar stage.
///
/// Without a best group nothing changes. With one, its first run of adjacent
/// copies is collapsed, and the copies counted as left are those found before
/// less those of the run but one. Where the admission test fails the step
/// ends there. Where it passes, the last key of the pool leaves the pool, the
/// dictionary gains the entry of that key and the substring, and the key
/// replaces the substring throughout the buffer; with an empty pool the step
/// fails instead.
pub open spec fn grammar_step(mapping: MappingView, buffer: Seq<char>) -> Step {
    match best_group(buffer) {
        None => Step { mapping, buffer, outcome: Ok(false) },
        Some(group) => {
            let collapsed = groups_collapsed(buffer, group.data, mapping.ctrl_char);
            let left = group.occurrences - first_run(buffer, group.data) + 1;
            if !admitted(group.data.len(), left) {
                Step { mapping, buffer: collapsed, outcome: Ok(false) }
            } else if mapping.key_pool.len() == 0 {
                Step { mapping, buffer: collapsed, outcome: Err(CodecError::AlphabetExhausted) }
            } else {
                let key = mapping.key_pool.last();
                Step {
                    mapping: MappingView {
                        key_pool: mapping.key_pool.drop_last(),
                        pairs: mapping.pairs.push(PairView { key, value: group.data }),
                        ..mapping
                    },
                    buffer: replaced_until_gone(collapsed, group.data, seq![key]),
                    outcome: Ok(true),
                }
            }
        },
    }
}

/// A group that the scan may answer with: a window of at least two
/// characters of the text, with the number of copies that a scan finds, which
/// is more than one.
pub open spec fn window_group(text: Seq<char>, group: GroupView) -> bool {
    &&& group.data.len() >= 2
    &&& group.occurrences > 1
    &&& group.occurrences == count_occurrences(text, group.data)
    &&& contains_seq(text, group.data)
}

/// Every group that the scan answers with is a window of at least two
/// characters that the scan counted more than once.
pub proof fn lemma_scanned_group(text: Seq<char>, len: int, start: int, best: Option<GroupView>)
    requires
        best matches Some(g) ==> window_group(text, g),
        0 <= start,
    ensures
        scanned(text, len, start, best) matches Some(g) ==> window_group(text, g),
    decreases len, text.len() - start,
{
    if len < 2 {
    } else if start + len > text.len() {
        lemma_scanned_group(text, len - 1, 0, best);
    } else {
        assert(occurs_at(text, text.subrange(start, start + len), start));
        lemma_scanned_group(text, len, start + 1, visited(text, len, start, best));
    }
}

/// One step of the grammar stage on `source`: answers whether a substitution
/// was made, so that the caller goes on while it was. Fails where a
/// substitution is due and no key is left.
pub fn create_groups(mapping: &mut Mapping, source: &mut Vec<char>) -> (used: Result<
    bool,
    CodecError,
>)
    ensures
        final(mapping)@ == grammar_step(old(mapping)@, old(source)@).mapping,
        final(source)@ == grammar_step(old(mapping)@, old(source)@).buffer,
        used == grammar_step(old(mapping)@, old(source)@).outcome,
{
    let group = match select_best_group(source) {
        None => {
            return Ok(false);
        },
        Some(group) => group,
    };
    proof {
        lemma_scanned_group(source@, source@.len() as int / 4, 0, None);
        lemma_first_run_counted(source@, group.data@);
        lemma_count_fits(source@, group.data@, 0);
    }
    assert(group.occurrences * group.data@.len() <= source.len());
    let collapsed = collapse_groups(mapping, source, &group.data);
    let left = group.occurrences - collapsed + 1;
    let len = group.data.len();
    assert(len * (left - 1) <= group.occurrences * len) by (nonlinear_arith)
        requires
            0 <= left - 1 <= group.occurrences,
    ;
    assert(2 * group.occurrences <= group.occurrences * len) by (nonlinear_arith)
        requires
            len >= 2,
    ;
    if !(3 + (left + 1) < len * (left - 1)) {
        return Ok(false);
    }
    let key = match mapping.next_key() {
        Err(e) => {
            return Err(e);
        },
        Ok(key) => key,
    };
    mapping.key_used();
    let mut with: Vec<char> = Vec::new();
    with.push(key);
    assert(with@ =~= seq![key]);
    replace_all(source, &group.data, &with);
    mapping.insert(key, group.data);
    Ok(true)
}

/// `text` with the key of `pair` replaced by its value until no key is left,
/// which one pass does. `None` where the key stands in `text` and in its own
/// value, so that no number of passes would end.
pub open spec fn key_replayed(text: Seq<char>, pair: PairView) -> Option<Seq<char>> {
    if !text.contains(pair.key) {
        Some(text)
    } else if pair.value.contains(pair.key) {
        None
    } else {
        Some(replace_seq(text, seq![pair.key], pair.value))
    }
}

/// `text` after the dictionary has been replayed: each entry's key replaced
/// by its value until none is left, from the last entry to the first.
pub open spec fn replayed(pairs: Seq<PairView>, text: Seq<char>) -> Option<Seq<char>>
    decreases pairs.len(),
{
    if pairs.len() == 0 {
        Some(text)
    } else {
        match key_replayed(text, pairs.last()) {
            None => None,
            Some(next) => replayed(pairs.drop_last(), next),
        }
    }
}

/// Replays the dictionary on `source`, from its last entry to its first. A
/// key that stands in the text and in its own value makes the stream
/// malformed, and `source` then stays as it was.
pub fn replace_mapping(mapping: &Mapping, source: &mut Vec<char>) -> (done: Result<(), CodecError>)
    ensures
        match replayed(mapping@.pairs, old(source)@) {
            Some(text) => done is Ok && final(source)@ == text,
            None => done == Err::<(), CodecError>(CodecError::MalformedStream) && final(source)@
                == old(source)@,
        },
{
    let pairs = mapping.values();
    let mut text = slice_of(source, 0, source.len());
    assert(text@ =~= source@);
    let mut i: usize = pairs.len();
    assert(mapping@.pairs.take(i as int) =~= mapping@.pairs);
    while i > 0
        invariant
            i <= pairs.len(),
            pairs@.len() == mapping@.pairs.len(),
            forall|k: int| 0 <= k < pairs@.len() ==> (#[trigger] pairs@[k])@ == mapping@.pairs[k],
            source@ == old(source)@,
            replayed(mapping@.pairs.take(i as int), text@) == replayed(
                mapping@.pairs,
                old(source)@,
            ),
        decreases i,
    {
        let pair = &pairs[i - 1];
        proof {
            assert(mapping@.pairs.take(i as int).last() == pair@);
            assert(mapping@.pairs.take(i as int).drop_last() =~= mapping@.pairs.take(i - 1));
        }
        if has_char(&text, pair.key) {
            if has_char(&pair.value, pair.key) {
                return Err(CodecError::MalformedStream);
            }
            let mut key: Vec<char> = Vec::new();
            key.push(pair.key);
            assert(key@ =~= seq![pair.key]);
            text = replace_each(&text, &key, &pair.value);
        }
        i -= 1;
    }
    *source = text;
    Ok(())
}

/// A scan from an index behind which the pattern stands nowhere finds nothing.
pub proof fn lemma_count_none(text: Seq<char>, pattern: Seq<char>, from: int)
    requires
        0 <= from,
        forall|at: int| from <= at ==> !occurs_at(text, pattern, at),
    ensures
        count_from(text, pattern, from) == 0,
    decreases text.len() - from,
{
    if pattern.len() > 0 && from + pattern.len() <= text.len() {
        lemma_count_none(text, pattern, from + 1);
    }
}

/// A scan finds at most one copy of a pattern that stands at one place only.
pub proof fn lemma_count_single(text: Seq<char>, pattern: Seq<char>, from: int)
    requires
        0 <= from,
        forall|i: int, j: int|
            occurs_at(text, pattern, i) && occurs_at(text, pattern, j) ==> i == j,
    ensures
        count_from(text, pattern, from) <= 1,
    decreases text.len() - from,
{
    if pattern.len() > 0 && from + pattern.len() <= text.len() {
        if occurs_at(text, pattern, from) {
            lemma_count_none(text, pattern, from + pattern.len());
        } else {
            lemma_count_single(text, pattern, from + 1);
        }
    }
}

/// In a text where nothing stands at two places, the scan finds no group.
pub proof fn lemma_scanned_nothing(text: Seq<char>, len: int, start: int)
    requires
        0 <= start,
        forall|t: Seq<char>, i: int, j: int|
            t.len() >= 1 && occurs_at(text, t, i) && occurs_at(text, t, j) ==> i == j,
    ensures
        scanned(text, len, start, None) is None,
    decreases len, text.len() - start,
{
    if len < 2 {
    } else if start + len > text.len() {
        lemma_scanned_nothing(text, len - 1, 0);
    } else {
        let data = text.subrange(start, start + len);
        lemma_count_single(text, data, 0);
        lemma_scanned_nothing(text, len, start + 1);
    }
}

/// A window that the scan looks at from the window of `len` characters at
/// `start` on: one of that length at or behind `start`, or a shorter one of
/// at least two characters.
pub open spec fn scan_reaches(text: Seq<char>, len: int, start: int, at: int, size: int) -> bool {
    &&& 2 <= size
    &&& 0 <= at
    &&& at + size <= text.len()
    &&& size < len || (size == len && start <= at)
}

/// What the scan answers with weighs no less than what it began with, nor
/// than any window that it looks at and counts more than once; and it
/// answers with a group where it began with one or looks at such a window.
pub proof fn lemma_scanned_heaviest(
    text: Seq<char>,
    len: int,
    start: int,
    best: Option<GroupView>,
    at: int,
    size: int,
)
    requires
        0 <= start,
    ensures
        best matches Some(b) ==> (scanned(text, len, start, best) matches Some(g) && b.weight
            <= g.weight),
        scan_reaches(text, len, start, at, size) && count_occurrences(
            text,
            text.subrange(at, at + size),
        ) > 1 ==> (scanned(text, len, start, best) matches Some(g) && size * count_occurrences(
            text,
            text.subrange(at, at + size),
        ) <= g.weight),
    decreases len, text.len() - start,
{
    if len < 2 {
    } else if start + len > text.len() {
        lemma_scanned_heaviest(text, len - 1, 0, best, at, size);
    } else {
        let next = visited(text, len, start, best);
        lemma_scanned_heaviest(text, len, start + 1, next, at, size);
        if size == len && at == start {
            assert(text.subrange(at, at + size).len() == size);
        }
    }
}

/// The weight of the window of `size` characters at `at`, where a scan finds
/// it more than once, and zero where it does not.
pub open spec fn window_weight(text: Seq<char>, at: int, size: int) -> nat {
    let occurrences = count_occurrences(text, text.subrange(at, at + size));
    if occurrences > 1 {
        (size * occurrences) as nat
    } else {
        0
    }
}

/// A scan that looks at no window heavier than the group it began with
/// answers with that group.
pub proof fn lemma_scanned_keeps(text: Seq<char>, len: int, start: int, best: GroupView)
    requires
        0 <= start,
        forall|at: int, size: int|
            scan_reaches(text, len, start, at, size) ==> #[trigger] window_weight(text, at, size)
                <= best.weight,
    ensures
        scanned(text, len, start, Some(best)) == Some(best),
    decreases len, text.len() - start,
{
    if len < 2 {
    } else if start + len > text.len() {
        assert forall|at: int, size: int|
            scan_reaches(text, len - 1, 0, at, size) implies #[trigger] window_weight(
            text,
            at,
            size,
        ) <= best.weight by {
            assert(scan_reaches(text, len, start, at, size));
        }
        lemma_scanned_keeps(text, len - 1, 0, best);
    } else {
        assert(scan_reaches(text, len, start, start, len));
        assert(window_weight(text, start, len) <= best.weight);
        assert(text.subrange(start, start + len).len() == len);
        assert forall|at: int, size: int|
            scan_reaches(text, len, start + 1, at, size) implies #[trigger] window_weight(
            text,
            at,
            size,
        ) <= best.weight by {
            assert(scan_reaches(text, len, start, at, size));
        }
        lemma_scanned_keeps(text, len, start + 1, best);
    }
}

/// A scan answers with the first of the heaviest windows: with a window
/// that it finds more than once, than which it began with nothing as heavy
/// and looks at nothing as heavy before it and nothing heavier behind it.
pub proof fn lemma_scanned_first(
    text: Seq<char>,
    len: int,
    start: int,
    best: Option<GroupView>,
    at: int,
    size: int,
)
    requires
        0 <= start,
        scan_reaches(text, len, start, at, size),
        window_weight(text, at, size) > 0,
        best matches Some(b) ==> b.weight < window_weight(text, at, size),
        forall|a: int, s: int|
            scan_reaches(text, len, start, a, s) ==> #[trigger] window_weight(text, a, s)
                <= window_weight(text, at, size),
        forall|a: int, s: int|
            scan_reaches(text, len, start, a, s) && (s > size || (s == size && a < at))
                ==> #[trigger] window_weight(text, a, s) < window_weight(text, at, size),
    ensures
        scanned(text, len, start, best) == Some(
            scored(
                text.subrange(at, at + size),
                count_occurrences(text, text.subrange(at, at + size)),
            ),
        ),
    decreases len, text.len() - start,
{
    let weight = window_weight(text, at, size);
    if start + len > text.len() {
        assert forall|a: int, s: int|
            scan_reaches(text, len - 1, 0, a, s) implies #[trigger] window_weight(text, a, s)
            <= weight by {
            assert(scan_reaches(text, len, start, a, s));
        }
        assert forall|a: int, s: int|
            scan_reaches(text, len - 1, 0, a, s) && (s > size || (s == size && a
                < at)) implies #[trigger] window_weight(text, a, s) < weight by {
            assert(scan_reaches(text, len, start, a, s));
        }
        lemma_scanned_first(text, len - 1, 0, best, at, size);
    } else {
        let data = text.subrange(start, start + len);
        let next = visited(text, len, start, best);
        assert(data.len() == len);
        assert(scan_reaches(text, len, start, start, len));
        if len == size && start == at {
            let picked = scored(data, count_occurrences(text, data));
            assert(next == Some(picked));
            assert forall|a: int, s: int|
                scan_reaches(text, len, start + 1, a, s) implies #[trigger] window_weight(
                text,
                a,
                s,
            ) <= picked.weight by {
                assert(scan_reaches(text, len, start, a, s));
            }
            lemma_scanned_keeps(text, len, start + 1, picked);
        } else {
            assert(window_weight(text, start, len) < weight);
            assert forall|a: int, s: int|
                scan_reaches(text, len, start + 1, a, s) implies #[trigger] window_weight(
                text,
                a,
                s,
            ) <= weight by {
                assert(scan_reaches(text, len, start, a, s));
            }
            assert forall|a: int, s: int|
                scan_reaches(text, len, start + 1, a, s) && (s > size || (s == size && a
                    < at)) implies #[trigger] window_weight(text, a, s) < weight by {
                assert(scan_reaches(text, len, start, a, s));
            }
            lemma_scanned_first(text, len, start + 1, next, at, size);
        }
    }
}

} // verus!
