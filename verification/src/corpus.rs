//! Random texts to try the codec on: words drawn from a list, joined by spaces.

use vstd::prelude::*;
use crate::text::push_all;

verus! {

/// The generator of `rand::thread_rng`, of which nothing is seen here.
#[verifier::external_type_specification]
#[verifier::external_body]
pub struct ExThreadRng(rand::rngs::ThreadRng);

/// `rand::thread_rng`: the generator of the running thread. Nothing is
/// claimed of it.
#[verifier::external_body]
fn thread_generator() -> rand::rngs::ThreadRng {
    rand::thread_rng()
}

/// `rand::Rng::gen_range` for the range from zero up to, not including,
/// `bound`. The number drawn lies in that range; nothing else is claimed of
/// it, nor of the generator afterwards, and two calls may differ.
#[verifier::external_body]
fn random_below(generator: &mut rand::rngs::ThreadRng, bound: usize) -> (drawn: usize)
    requires
        bound > 0,
    ensures
        drawn < bound,
{
    rand::Rng::gen_range(generator, 0..bound)
}

/// Every pick is an index into a list of `words` words.
pub open spec fn picks_within(picks: Seq<usize>, words: nat) -> bool {
    forall|i: int| 0 <= i < picks.len() ==> #[trigger] picks[i] < words
}

/// The words that `picks` names, in that order, with one space between
/// neighbours.
pub open spec fn joined(words: Seq<Seq<char>>, picks: Seq<usize>) -> Seq<char>
    decreases picks.len(),
{
    if picks.len() == 0 {
        Seq::empty()
    } else if picks.len() == 1 {
        words[picks[0] as int]
    } else {
        joined(words, picks.drop_last()) + seq![' '] + words[picks.last() as int]
    }
}

/// The text made of the words that `picks` names, joined by spaces.
pub fn corpus_of(words: &Vec<Vec<char>>, picks: &Vec<usize>) -> (text: Vec<char>)
    requires
        picks_within(picks@, words@.len()),
    ensures
        text@ == joined(words.deep_view(), picks@),
{
    let mut text: Vec<char> = Vec::new();
    let mut i: usize = 0;
    assert(picks@.take(0) =~= Seq::<usize>::empty());
    while i < picks.len()
        invariant
            i <= picks.len(),
            picks_within(picks@, words@.len()),
            text@ == joined(words.deep_view(), picks@.take(i as int)),
        decreases picks.len() - i,
    {
        let ghost before = text@;
        if i > 0 {
            text.push(' ');
        }
        let pick = picks[i];
        push_all(&mut text, &words[pick]);
        proof {
            let taken = picks@.take(i + 1);
            assert(taken.drop_last() =~= picks@.take(i as int));
            assert(taken.last() == pick);
            assert(words.deep_view()[pick as int] == words@[pick as int]@);
            if i == 0 {
                assert(text@ =~= words@[pick as int]@);
            } else {
                assert(text@ =~= before + seq![' '] + words@[pick as int]@);
            }
        }
        i += 1;
    }
    assert(picks@.take(i as int) =~= picks@);
    text
}

/// A text of `count` words, each drawn at random from `words`, joined by spaces.
pub fn random_corpus(words: &Vec<Vec<char>>, count: usize) -> (text: Vec<char>)
    requires
        words.len() > 0,
    ensures
        exists|picks: Seq<usize>|
            picks.len() == count && picks_within(picks, words@.len()) && text@ == joined(
                words.deep_view(),
                picks,
            ),
{
    let mut generator = thread_generator();
    let mut picks: Vec<usize> = Vec::new();
    let mut i: usize = 0;
    while i < count
        invariant
            i <= count,
            words.len() > 0,
            picks@.len() == i,
            picks_within(picks@, words@.len()),
        decreases count - i,
    {
        let pick = random_below(&mut generator, words.len());
        picks.push(pick);
        i += 1;
    }
    corpus_of(words, &picks)
}

} // verus!
