//! The symbols reserved for one text, and the dictionary built with them.

use vstd::prelude::*;
use crate::CodecError;
use crate::alphabet::{find_free_chars, free_symbols};
use crate::text::push_all;

verus! {

/// One dictionary entry: `key` stands for `value`.
#[derive(Debug)]
pub struct Pair {
    pub key: char,
    pub value: Vec<char>,
}

/// A dictionary entry as a mathematical value.
pub struct PairView {
    pub key: char,
    pub value: Seq<char>,
}

impl View for Pair {
    type V = PairView;

    open spec fn view(&self) -> PairView {
        PairView { key: self.key, value: self.value@ }
    }
}

/// The reserved symbols of one text and its dictionary, as a mathematical value.
pub struct MappingView {
    /// The symbols still free to become keys; the last one is taken first.
    pub key_pool: Seq<char>,
    /// The dictionary, in the order in which its entries were made.
    pub pairs: Seq<PairView>,
    /// The symbol that delimits dictionary entries and substring repeats.
    pub ctrl_char: char,
    /// The symbol that delimits the count of a character run.
    pub repeat_char: char,
}

/// The reserved symbols of one text and the dictionary built with them.
#[derive(Debug)]
pub struct Mapping {
    free_chars: Vec<char>,
    values: Vec<Pair>,
    ctrl_char: char,
    repeat_char: char,
}

/// What `Mapping::new` makes of a text that leaves the symbols `free` unused:
/// the last free symbol delimits entries, the one before it delimits counts,
/// and the others are the key pool.
pub open spec fn fresh_mapping(free: Seq<char>) -> MappingView
    recommends
        free.len() >= 2,
{
    MappingView {
        key_pool: free.take(free.len() - 2),
        pairs: Seq::empty(),
        ctrl_char: free[free.len() - 1],
        repeat_char: free[free.len() - 2],
    }
}

/// One dictionary entry as a stream writes it: the delimiter, the key, an
/// equals sign, the value, the delimiter.
pub open spec fn record(pair: PairView, ctrl_char: char) -> Seq<char> {
    seq![ctrl_char, pair.key, '='] + pair.value + seq![ctrl_char]
}

/// The dictionary as a stream writes it: its entries in order.
pub open spec fn records(pairs: Seq<PairView>, ctrl_char: char) -> Seq<char>
    decreases pairs.len(),
{
    if pairs.len() == 0 {
        Seq::empty()
    } else {
        records(pairs.drop_last(), ctrl_char) + record(pairs.last(), ctrl_char)
    }
}

/// The stream for a dictionary and a payload: the two control symbols, the
/// dictionary, the payload.
pub open spec fn serialized(mapping: MappingView, payload: Seq<char>) -> Seq<char> {
    seq![mapping.repeat_char, mapping.ctrl_char] + records(mapping.pairs, mapping.ctrl_char)
        + payload
}

/// The estimate of what the dictionary entries add to a stream: for each
/// entry its key, its value and three more.
pub open spec fn records_estimate(pairs: Seq<PairView>) -> nat
    decreases pairs.len(),
{
    if pairs.len() == 0 {
        0
    } else {
        records_estimate(pairs.drop_last()) + 1 + pairs.last().value.len() + 3
    }
}

/// The estimated length of the stream for a dictionary and a payload of
/// `payload_len` characters: three for the header of a dictionary with
/// entries, two for that of an empty one.
pub open spec fn predicted_len(pairs: Seq<PairView>, payload_len: nat) -> nat {
    let header: nat = if pairs.len() > 0 {
        3
    } else {
        2
    };
    header + records_estimate(pairs) + payload_len
}

/// The estimate for the first entries of a dictionary is no more than that
/// for all of them.
pub proof fn lemma_records_estimate_prefix(pairs: Seq<PairView>, k: int)
    requires
        0 <= k <= pairs.len(),
    ensures
        records_estimate(pairs.take(k)) <= records_estimate(pairs),
    decreases pairs.len(),
{
    if k < pairs.len() {
        lemma_records_estimate_prefix(pairs.drop_last(), k);
        assert(pairs.drop_last().take(k) =~= pairs.take(k));
    } else {
        assert(pairs.take(k) =~= pairs);
    }
}

impl View for Mapping {
    type V = MappingView;

    closed spec fn view(&self) -> MappingView {
        MappingView {
            key_pool: self.free_chars@,
            pairs: self.values@.map_values(|pair: Pair| pair@),
            ctrl_char: self.ctrl_char,
            repeat_char: self.repeat_char,
        }
    }
}

impl Mapping {
    /// Reserves symbols for `source`: the last two candidates that it does not
    /// use become the control symbols, the others the key pool. Fails where
    /// fewer than two candidates are unused.
    pub fn new(source: &Vec<char>) -> (made: Result<Mapping, CodecError>)
        ensures
            free_symbols(source@).len() >= 2 ==> made is Ok && made->Ok_0@ == fresh_mapping(
                free_symbols(source@),
            ),
            free_symbols(source@).len() < 2 ==> made == Err::<Mapping, CodecError>(
                CodecError::AlphabetExhausted,
            ),
    {
        let mut free_chars = find_free_chars(source);
        if free_chars.len() < 2 {
            return Err(CodecError::AlphabetExhausted);
        }
        let ghost free = free_chars@;
        let ctrl_char = free_chars[free_chars.len() - 1];
        let repeat_char = free_chars[free_chars.len() - 2];
        free_chars.pop();
        free_chars.pop();
        let mapping = Mapping { free_chars, values: Vec::new(), ctrl_char, repeat_char };
        proof {
            assert(mapping@.key_pool =~= free.take(free.len() - 2));
            assert(mapping@.pairs =~= Seq::<PairView>::empty());
        }
        Ok(mapping)
    }

    /// The mapping that a stream's header announces: its two control symbols,
    /// an empty dictionary, and no key pool, since reading a stream allocates
    /// nothing.
    pub fn for_stream(repeat_char: char, ctrl_char: char) -> (made: Mapping)
        ensures
            made@ == (MappingView {
                key_pool: Seq::empty(),
                pairs: Seq::empty(),
                ctrl_char,
                repeat_char,
            }),
    {
        let mapping = Mapping {
            free_chars: Vec::new(),
            values: Vec::new(),
            ctrl_char,
            repeat_char,
        };
        proof {
            assert(mapping@.pairs =~= Seq::<PairView>::empty());
        }
        mapping
    }

    /// The symbol that delimits dictionary entries and substring repeats.
    pub fn ctrl_char(&self) -> (c: char)
        ensures
            c == self@.ctrl_char,
    {
        self.ctrl_char
    }

    /// The symbol that delimits the count of a character run.
    pub fn repeat_char(&self) -> (c: char)
        ensures
            c == self@.repeat_char,
    {
        self.repeat_char
    }

    /// The dictionary, in the order in which its entries were made.
    pub fn values(&self) -> (pairs: &Vec<Pair>)
        ensures
            pairs@.len() == self@.pairs.len(),
            forall|i: int| 0 <= i < pairs@.len() ==> (#[trigger] pairs@[i])@ == self@.pairs[i],
    {
        &self.values
    }

    /// How many symbols are still free to become keys.
    pub fn free_keys(&self) -> (count: usize)
        ensures
            count == self@.key_pool.len(),
    {
        self.free_chars.len()
    }

    /// Makes `ctrl_char` the delimiter of dictionary entries and substring repeats.
    pub fn set_ctrl_char(&mut self, ctrl_char: char)
        ensures
            final(self)@ == (MappingView { ctrl_char, ..old(self)@ }),
    {
        self.ctrl_char = ctrl_char;
    }

    /// Makes `repeat_char` the delimiter of the count of a character run.
    pub fn set_repeat_char(&mut self, repeat_char: char)
        ensures
            final(self)@ == (MappingView { repeat_char, ..old(self)@ }),
    {
        self.repeat_char = repeat_char;
    }

    /// The key that would be taken next, the last of the pool, which stays as
    /// it is. Fails where the pool is empty.
    pub fn next_key(&self) -> (key: Result<char, CodecError>)
        ensures
            self@.key_pool.len() > 0 ==> key == Ok::<char, CodecError>(self@.key_pool.last()),
            self@.key_pool.len() == 0 ==> key == Err::<char, CodecError>(
                CodecError::AlphabetExhausted,
            ),
    {
        if self.free_chars.len() == 0 {
            return Err(CodecError::AlphabetExhausted);
        }
        Ok(self.free_chars[self.free_chars.len() - 1])
    }

    /// Takes the key that `next_key` shows out of the pool. An empty pool stays empty.
    pub fn key_used(&mut self)
        ensures
            final(self)@ == (MappingView {
                key_pool: if old(self)@.key_pool.len() > 0 {
                    old(self)@.key_pool.drop_last()
                } else {
                    old(self)@.key_pool
                },
                ..old(self)@
            }),
    {
        let ghost before = self.free_chars@;
        self.free_chars.pop();
        proof {
            if before.len() > 0 {
                assert(self.free_chars@ =~= before.drop_last());
            } else {
                assert(self.free_chars@ =~= before);
            }
        }
    }

    /// Appends the entry of `key` and `value` to the dictionary.
    pub fn insert(&mut self, key: char, value: Vec<char>)
        ensures
            final(self)@ == (MappingView {
                pairs: old(self)@.pairs.push(PairView { key, value: value@ }),
                ..old(self)@
            }),
    {
        let ghost before = self@.pairs;
        self.values.push(Pair { key, value });
        proof {
            assert(self@.pairs =~= before.push(PairView { key, value: value@ }));
        }
    }

    /// The stream for this dictionary and the payload `compressed`.
    pub fn stringify(&self, compressed: Vec<char>) -> (stream: Vec<char>)
        ensures
            stream@ == serialized(self@, compressed@),
    {
        let mut stream: Vec<char> = Vec::new();
        stream.push(self.repeat_char);
        stream.push(self.ctrl_char);
        let ghost header = seq![self.repeat_char, self.ctrl_char];
        assert(stream@ =~= header);
        let mut i: usize = 0;
        proof {
            assert(self@.pairs.take(0) =~= Seq::<PairView>::empty());
            assert(stream@ =~= header + records(self@.pairs.take(0), self.ctrl_char));
        }
        while i < self.values.len()
            invariant
                i <= self.values.len(),
                self.values@.len() == self@.pairs.len(),
                stream@ == header + records(self@.pairs.take(i as int), self.ctrl_char),
            decreases self.values.len() - i,
        {
            let ghost before = stream@;
            let pair = &self.values[i];
            stream.push(self.ctrl_char);
            stream.push(pair.key);
            stream.push('=');
            push_all(&mut stream, &pair.value);
            stream.push(self.ctrl_char);
            proof {
                let entry = self@.pairs[i as int];
                assert(entry == pair@);
                assert(self@.pairs.take(i + 1).drop_last() =~= self@.pairs.take(i as int));
                assert(self@.pairs.take(i + 1).last() == entry);
                assert(stream@ =~= before + record(entry, self.ctrl_char));
                assert(stream@ =~= header + records(self@.pairs.take(i + 1), self.ctrl_char));
            }
            i += 1;
        }
        assert(self@.pairs.take(i as int) =~= self@.pairs);
        push_all(&mut stream, &compressed);
        stream
    }

    /// The estimated length of the stream for this dictionary and a payload
    /// of `source_len` characters.
    pub fn predict_len(&self, source_len: usize) -> (len: usize)
        requires
            predicted_len(self@.pairs, source_len as nat) <= usize::MAX,
        ensures
            len == predicted_len(self@.pairs, source_len as nat),
    {
        let header: usize = if self.values.len() > 0 {
            3
        } else {
            2
        };
        let mut key_len: usize = header;
        let mut i: usize = 0;
        assert(self@.pairs.take(0) =~= Seq::<PairView>::empty());
        while i < self.values.len()
            invariant
                i <= self.values.len(),
                self.values@.len() == self@.pairs.len(),
                header + records_estimate(self@.pairs) + source_len <= usize::MAX,
                key_len == header + records_estimate(self@.pairs.take(i as int)),
            decreases self.values.len() - i,
        {
            proof {
                lemma_records_estimate_prefix(self@.pairs, i + 1);
                assert(self@.pairs.take(i + 1).drop_last() =~= self@.pairs.take(i as int));
                assert(self@.pairs[i as int] == self.values@[i as int]@);
            }
            key_len += 1 + self.values[i].value.len() + 3;
            i += 1;
        }
        assert(self@.pairs.take(i as int) =~= self@.pairs);
        key_len += source_len;
        key_len
    }
}

/// The dictionary as a stream writes it is as long as its estimate.
pub proof fn lemma_records_len(pairs: Seq<PairView>, ctrl_char: char)
    ensures
        records(pairs, ctrl_char).len() == records_estimate(pairs),
    decreases pairs.len(),
{
    if pairs.len() > 0 {
        lemma_records_len(pairs.drop_last(), ctrl_char);
    }
}

} // verus!
