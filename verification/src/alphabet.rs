//! The reserved alphabet: the symbols a stream may use for its own structure.
//!
//! A symbol serves as structure only where the text to compress does not use
//! it, so that each of its appearances in a stream is structure, never data.

use vstd::prelude::*;
use crate::text::chars_of;

verus! {

/// The candidate symbols in their canonical order: lower case, upper case,
/// digits, punctuation. The equals sign is no candidate: it separates a key
/// from its value.
pub open spec fn candidate_alphabet() -> Seq<char> {
    "abcdefghijklmnopqrstuvwxyzABCDEFGHIJKLMNOPQRSTUVWXYZ1234567890~`!@#$%^&*()-_+[{}]|;:'\"\\,<.>/?"@
}

/// `c` is a scalar value, as every `char` is. The verifier does not see this
/// of a character that is taken out of a sequence, so proofs that put such a
/// character into a dictionary entry carry the fact along.
pub open spec fn is_scalar(c: char) -> bool {
    0 <= c as int <= 0xD7FF || 0xE000 <= c as int <= 0x10FFFF
}

/// The test that a symbol does not occur in `source`.
pub open spec fn unused_in(source: Seq<char>) -> spec_fn(char) -> bool {
    |c: char| !source.contains(c)
}

/// The candidates that `source` does not use, in canonical order.
pub open spec fn free_symbols(source: Seq<char>) -> Seq<char> {
    candidate_alphabet().filter(unused_in(source))
}

/// Whether `c` occurs in `text`.
pub fn has_char(text: &Vec<char>, c: char) -> (found: bool)
    ensures
        found == text@.contains(c),
{
    let mut i: usize = 0;
    while i < text.len()
        invariant
            i <= text.len(),
            forall|j: int| 0 <= j < i ==> text@[j] != c,
        decreases text.len() - i,
    {
        if text[i] == c {
            return true;
        }
        i += 1;
    }
    false
}

/// The candidate symbols, in canonical order.
pub fn candidates() -> (symbols: Vec<char>)
    ensures
        symbols@ == candidate_alphabet(),
{
    chars_of(
        "abcdefghijklmnopqrstuvwxyzABCDEFGHIJKLMNOPQRSTUVWXYZ1234567890~`!@#$%^&*()-_+[{}]|;:'\"\\,<.>/?",
    )
}

/// The candidate symbols that `source` does not use, in canonical order.
pub fn find_free_chars(source: &Vec<char>) -> (free: Vec<char>)
    ensures
        free@ == free_symbols(source@),
{
    let symbols = candidates();
    let mut free: Vec<char> = Vec::new();
    let mut i: usize = 0;
    proof {
        reveal(Seq::filter);
        assert(symbols@.take(0) =~= Seq::<char>::empty());
    }
    while i < symbols.len()
        invariant
            i <= symbols.len(),
            free@ == symbols@.take(i as int).filter(unused_in(source@)),
        decreases symbols.len() - i,
    {
        proof {
            reveal(Seq::filter);
            assert(symbols@.take(i + 1).drop_last() =~= symbols@.take(i as int));
        }
        if !has_char(source, symbols[i]) {
            free.push(symbols[i]);
        }
        i += 1;
    }
    assert(symbols@.take(i as int) =~= symbols@);
    free
}

/// No candidate symbol stands twice in the alphabet, and none is the equals sign.
pub proof fn lemma_candidates_distinct()
    ensures
        candidate_alphabet().no_duplicates(),
        candidate_alphabet().len() == 93,
        !candidate_alphabet().contains('='),
        forall|i: int|
            0 <= i < candidate_alphabet().len() ==> is_scalar(#[trigger] candidate_alphabet()[i]),
{
    reveal_strlit(
        "abcdefghijklmnopqrstuvwxyzABCDEFGHIJKLMNOPQRSTUVWXYZ1234567890~`!@#$%^&*()-_+[{}]|;:'\"\\,<.>/?",
    );
}

/// What a filter keeps of a sequence without duplicates has no duplicates,
/// stands in the sequence, and passes the filter.
pub proof fn lemma_filter_distinct(s: Seq<char>, pred: spec_fn(char) -> bool)
    requires
        s.no_duplicates(),
    ensures
        s.filter(pred).no_duplicates(),
        forall|i: int|
            0 <= i < s.filter(pred).len() ==> pred(#[trigger] s.filter(pred)[i]) && s.contains(
                s.filter(pred)[i],
            ),
    decreases s.len(),
{
    reveal(Seq::filter);
    if s.len() > 0 {
        let front = s.drop_last();
        lemma_filter_distinct(front, pred);
        let kept = front.filter(pred);
        assert forall|i: int| 0 <= i < kept.len() implies s.contains(#[trigger] kept[i])
            && kept[i] != s.last() by {
            assert(front.contains(kept[i]));
            let k = choose|k: int| 0 <= k < front.len() && front[k] == kept[i];
            assert(s[k] == kept[i]);
        }
        if pred(s.last()) {
            assert(s[s.len() - 1] == s.last());
        }
    }
}

/// The free symbols of a text are candidates that the text does not use,
/// each once, and none is the equals sign.
pub proof fn lemma_free_symbols(source: Seq<char>)
    ensures
        free_symbols(source).no_duplicates(),
        forall|i: int|
            0 <= i < free_symbols(source).len() ==> !source.contains(
                #[trigger] free_symbols(source)[i],
            ) && free_symbols(source)[i] != '=' && is_scalar(free_symbols(source)[i]),
{
    lemma_candidates_distinct();
    lemma_filter_distinct(candidate_alphabet(), unused_in(source));
    let free = free_symbols(source);
    assert forall|i: int| 0 <= i < free.len() implies is_scalar(#[trigger] free[i]) by {
        let k = choose|k: int|
            0 <= k < candidate_alphabet().len() && candidate_alphabet()[k] == free[i];
        assert(is_scalar(candidate_alphabet()[k]));
    }
}

} // verus!
