//! Reading a stream: the header, the dictionary, and the payload with its
//! substring repeats written out.
//!
//! After the two control symbols a stream is read one character at a time.
//! The delimiter opens a definition; what follows it up to an equals sign is
//! a key, up to a second delimiter without an equals sign a count. A key is
//! followed by its value, a count by the substring to repeat, each closed by
//! the delimiter. Everything outside a definition is payload.

use vstd::prelude::*;
use crate::CodecError;
use crate::decimal::{parse_count, parsed_count};
use crate::mapping::{record, records, Mapping, MappingView, PairView};
use crate::text::{push_all, repeat, repeat_seq};

verus! {

/// Where the reader of a stream stands.
#[derive(Clone, Copy, Debug, PartialEq, Eq, Structural)]
pub enum DecompressState {
    /// Outside a definition: characters are payload.
    Idle,
    /// Behind an opening delimiter: a key or a count is being read.
    Defining,
    /// Behind an equals sign: the value of a key is being read.
    Mapping,
    /// Behind a count: the substring to repeat is being read.
    Repeat,
}

/// The reader of a stream, as a mathematical value.
pub struct Parse {
    /// Where the reader stands.
    pub state: DecompressState,
    /// The characters read since the last delimiter or equals sign.
    pub buffer: Seq<char>,
    /// The key whose value is being read.
    pub key: Seq<char>,
    /// The count of the substring repeat being read.
    pub count: nat,
    /// The dictionary entries read so far, in the order of the stream.
    pub pairs: Seq<PairView>,
    /// The payload read so far, with substring repeats written out.
    pub payload: Seq<char>,
    /// Whether the stream has broken the format.
    pub malformed: bool,
}

/// The reader before the first character behind the header.
pub open spec fn parse_start() -> Parse {
    Parse {
        state: DecompressState::Idle,
        buffer: Seq::empty(),
        key: Seq::empty(),
        count: 1,
        pairs: Seq::empty(),
        payload: Seq::empty(),
        malformed: false,
    }
}

/// The reader after one more character `c`.
///
/// Outside a definition the delimiter opens one and every other character is
/// payload. Inside one, an equals sign makes what was read since the last
/// delimiter or equals sign the key; the delimiter closes a count where
/// neither a key nor a count has been read, and else closes the definition: a
/// key of one symbol with its value becomes a dictionary entry, a substring
/// is written to the payload as often as its count says. A count that is no
/// count and a key that is not one symbol break the format.
pub open spec fn parse_step(p: Parse, ctrl_char: char, c: char) -> Parse {
    if p.malformed {
        p
    } else {
        match p.state {
            DecompressState::Idle => if c == ctrl_char {
                Parse { state: DecompressState::Defining, buffer: Seq::empty(), ..p }
            } else {
                Parse { payload: p.payload.push(c), ..p }
            },
            _ => if c == '=' {
                Parse { state: DecompressState::Mapping, key: p.buffer, buffer: Seq::empty(), ..p }
            } else if c != ctrl_char {
                Parse { buffer: p.buffer.push(c), ..p }
            } else {
                match p.state {
                    DecompressState::Mapping => if p.key.len() == 1 {
                        Parse {
                            state: DecompressState::Idle,
                            pairs: p.pairs.push(PairView { key: p.key[0], value: p.buffer }),
                            key: Seq::empty(),
                            buffer: Seq::empty(),
                            ..p
                        }
                    } else {
                        Parse { malformed: true, ..p }
                    },
                    DecompressState::Repeat => Parse {
                        state: DecompressState::Idle,
                        payload: p.payload + repeat_seq(p.buffer, p.count),
                        buffer: Seq::empty(),
                        ..p
                    },
                    _ => match parsed_count(p.buffer) {
                        Some(count) => Parse {
                            state: DecompressState::Repeat,
                            count,
                            buffer: Seq::empty(),
                            ..p
                        },
                        None => Parse { malformed: true, ..p },
                    },
                }
            },
        }
    }
}

/// The reader after the characters of `text`, one after the other.
pub open spec fn parse_run(p: Parse, ctrl_char: char, text: Seq<char>) -> Parse
    decreases text.len(),
{
    if text.len() == 0 {
        p
    } else {
        parse_step(parse_run(p, ctrl_char, text.drop_last()), ctrl_char, text.last())
    }
}

/// What a stream holds: the mapping that its header and dictionary give, with
/// no key pool, and its payload with the substring repeats written out.
/// `None` where the stream is shorter than its header, breaks the format, or
/// ends inside a definition.
pub open spec fn parsed(stream: Seq<char>) -> Option<(MappingView, Seq<char>)> {
    if stream.len() < 2 {
        None
    } else {
        let end = parse_run(parse_start(), stream[1], stream.skip(2));
        if end.malformed || end.state != DecompressState::Idle {
            None
        } else {
            Some(
                (
                    MappingView {
                        key_pool: Seq::empty(),
                        pairs: end.pairs,
                        ctrl_char: stream[1],
                        repeat_char: stream[0],
                    },
                    end.payload,
                ),
            )
        }
    }
}

/// A stream that has broken the format stays broken, whatever follows.
pub proof fn lemma_malformed_stays(p: Parse, ctrl_char: char, text: Seq<char>, k: int)
    requires
        0 <= k <= text.len(),
        parse_run(p, ctrl_char, text.take(k)).malformed,
    ensures
        parse_run(p, ctrl_char, text).malformed,
    decreases text.len(),
{
    if k < text.len() {
        assert(text.drop_last().take(k) =~= text.take(k));
        lemma_malformed_stays(p, ctrl_char, text.drop_last(), k);
    } else {
        assert(text.take(k) =~= text);
    }
}

/// Reads the stream in `source`: answers with the mapping that its header and
/// dictionary give, and leaves in `source` the payload with the substring
/// repeats written out. Where the stream is malformed, `source` stays as it was.
pub fn expand_gen_map(source: &mut Vec<char>) -> (read: Result<Mapping, CodecError>)
    ensures
        match parsed(old(source)@) {
            Some((mapping, payload)) => read is Ok && read->Ok_0@ == mapping && final(source)@
                == payload,
            None => read is Err && read->Err_0 == CodecError::MalformedStream && final(source)@
                == old(source)@,
        },
{
    if source.len() < 2 {
        return Err(CodecError::MalformedStream);
    }
    let repeat_char = source[0];
    let ctrl_char = source[1];
    let mut mapping = Mapping::for_stream(repeat_char, ctrl_char);
    let mut state = DecompressState::Idle;
    let mut buffer: Vec<char> = Vec::new();
    let mut key: Vec<char> = Vec::new();
    let mut count: usize = 1;
    let mut payload: Vec<char> = Vec::new();
    let ghost body = source@.skip(2);
    let mut i: usize = 2;
    assert(body.take(0) =~= Seq::<char>::empty());
    while i < source.len()
        invariant
            2 <= i <= source.len(),
            source@ == old(source)@,
            body == source@.skip(2),
            ctrl_char == source@[1],
            repeat_char == source@[0],
            mapping@.key_pool == Seq::<char>::empty(),
            mapping@.ctrl_char == ctrl_char,
            mapping@.repeat_char == repeat_char,
            parse_run(parse_start(), ctrl_char, body.take(i - 2)) == (Parse {
                state,
                buffer: buffer@,
                key: key@,
                count: count as nat,
                pairs: mapping@.pairs,
                payload: payload@,
                malformed: false,
            }),
        decreases source.len() - i,
    {
        let c = source[i];
        let ghost before = parse_run(parse_start(), ctrl_char, body.take(i - 2));
        proof {
            assert(body.take(i - 1).drop_last() =~= body.take(i - 2));
            assert(body.take(i - 1).last() == c);
        }
        match state {
            DecompressState::Idle => {
                if c == ctrl_char {
                    state = DecompressState::Defining;
                    buffer = Vec::new();
                } else {
                    payload.push(c);
                }
            },
            _ => {
                if c == '=' {
                    state = DecompressState::Mapping;
                    key = buffer;
                    buffer = Vec::new();
                } else if c != ctrl_char {
                    buffer.push(c);
                } else {
                    match state {
                        DecompressState::Mapping => {
                            if key.len() != 1 {
                                proof {
                                    lemma_malformed_stays(parse_start(), ctrl_char, body, i - 1);
                                }
                                return Err(CodecError::MalformedStream);
                            }
                            mapping.insert(key[0], buffer);
                            state = DecompressState::Idle;
                            key = Vec::new();
                            buffer = Vec::new();
                        },
                        DecompressState::Repeat => {
                            let copies = repeat(&buffer, count);
                            push_all(&mut payload, &copies);
                            state = DecompressState::Idle;
                            buffer = Vec::new();
                        },
                        _ => {
                            match parse_count(&buffer) {
                                Some(n) => {
                                    count = n;
                                    state = DecompressState::Repeat;
                                    buffer = Vec::new();
                                },
                                None => {
                                    proof {
                                        lemma_malformed_stays(
                                            parse_start(),
                                            ctrl_char,
                                            body,
                                            i - 1,
                                        );
                                    }
                                    return Err(CodecError::MalformedStream);
                                },
                            }
                        },
                    }
                }
            },
        }
        i += 1;
    }
    assert(body.take(i - 2) =~= body);
    match state {
        DecompressState::Idle => {
            *source = payload;
            Ok(mapping)
        },
        _ => Err(CodecError::MalformedStream),
    }
}

/// Reading two texts one after the other is reading them as one.
pub proof fn lemma_parse_concat(p: Parse, ctrl_char: char, first: Seq<char>, second: Seq<char>)
    ensures
        parse_run(p, ctrl_char, first + second) == parse_run(
            parse_run(p, ctrl_char, first),
            ctrl_char,
            second,
        ),
    decreases second.len(),
{
    if second.len() == 0 {
        assert(first + second =~= first);
    } else {
        assert((first + second).drop_last() =~= first + second.drop_last());
        lemma_parse_concat(p, ctrl_char, first, second.drop_last());
    }
}

/// Reading a text of one character is one step.
pub proof fn lemma_parse_one(p: Parse, ctrl_char: char, c: char)
    ensures
        parse_run(p, ctrl_char, seq![c]) == parse_step(p, ctrl_char, c),
{
    assert(seq![c].drop_last() =~= Seq::<char>::empty());
    assert(parse_run(p, ctrl_char, Seq::<char>::empty()) == p);
}

/// Inside a definition, a text without delimiter and equals sign is added to
/// what has been read of the definition.
pub proof fn lemma_parse_inside(p: Parse, ctrl_char: char, text: Seq<char>)
    requires
        !p.malformed,
        p.state != DecompressState::Idle,
        !text.contains(ctrl_char),
        !text.contains('='),
    ensures
        parse_run(p, ctrl_char, text) == (Parse { buffer: p.buffer + text, ..p }),
    decreases text.len(),
{
    if text.len() == 0 {
        assert(p.buffer + text =~= p.buffer);
    } else {
        let front = text.drop_last();
        assert forall|i: int| 0 <= i < front.len() implies front[i] != ctrl_char && front[i]
            != '=' by {
            assert(text.contains(text[i]));
        }
        assert(text.contains(text.last()));
        lemma_parse_inside(p, ctrl_char, front);
        assert((p.buffer + front).push(text.last()) =~= p.buffer + text);
    }
}

/// Outside a definition, a dictionary entry as a stream writes it is read as
/// that entry, where its key is neither delimiter nor equals sign and its
/// value holds neither.
pub proof fn lemma_parse_record(p: Parse, ctrl_char: char, pair: PairView)
    requires
        !p.malformed,
        p.state == DecompressState::Idle,
        ctrl_char != '=',
        pair.key != ctrl_char,
        pair.key != '=',
        !pair.value.contains(ctrl_char),
        !pair.value.contains('='),
    ensures
        parse_run(p, ctrl_char, record(pair, ctrl_char)) == (Parse {
            pairs: p.pairs.push(pair),
            key: Seq::empty(),
            buffer: Seq::empty(),
            ..p
        }),
{
    let delimiter = seq![ctrl_char];
    let s1 = parse_run(p, ctrl_char, delimiter);
    lemma_parse_one(p, ctrl_char, ctrl_char);
    let s2 = parse_run(s1, ctrl_char, seq![pair.key]);
    lemma_parse_one(s1, ctrl_char, pair.key);
    assert(s2.buffer =~= seq![pair.key]);
    let s3 = parse_run(s2, ctrl_char, seq!['=']);
    lemma_parse_one(s2, ctrl_char, '=');
    let s4 = parse_run(s3, ctrl_char, pair.value);
    lemma_parse_inside(s3, ctrl_char, pair.value);
    assert(s4.buffer =~= pair.value);
    let s5 = parse_run(s4, ctrl_char, delimiter);
    lemma_parse_one(s4, ctrl_char, ctrl_char);
    lemma_parse_concat(p, ctrl_char, delimiter, seq![pair.key]);
    lemma_parse_concat(p, ctrl_char, delimiter + seq![pair.key], seq!['=']);
    assert(delimiter + seq![pair.key] + seq!['='] =~= seq![ctrl_char, pair.key, '=']);
    lemma_parse_concat(p, ctrl_char, seq![ctrl_char, pair.key, '='], pair.value);
    lemma_parse_concat(p, ctrl_char, seq![ctrl_char, pair.key, '='] + pair.value, delimiter);
}

/// A dictionary entry that a stream can carry: its key is neither delimiter
/// nor equals sign, and its value holds neither.
pub open spec fn carried(pair: PairView, ctrl_char: char) -> bool {
    &&& pair.key != ctrl_char
    &&& pair.key != '='
    &&& !pair.value.contains(ctrl_char)
    &&& !pair.value.contains('=')
}

/// A dictionary of entries that a stream can carry is read back as it was written.
pub proof fn lemma_parse_records(p: Parse, ctrl_char: char, pairs: Seq<PairView>)
    requires
        !p.malformed,
        p.state == DecompressState::Idle,
        p.key == Seq::<char>::empty(),
        p.buffer == Seq::<char>::empty(),
        ctrl_char != '=',
        forall|i: int| 0 <= i < pairs.len() ==> carried(#[trigger] pairs[i], ctrl_char),
    ensures
        parse_run(p, ctrl_char, records(pairs, ctrl_char)) == (Parse {
            pairs: p.pairs + pairs,
            ..p
        }),
    decreases pairs.len(),
{
    if pairs.len() == 0 {
        assert(p.pairs + pairs =~= p.pairs);
    } else {
        let front = pairs.drop_last();
        assert forall|i: int| 0 <= i < front.len() implies carried(
            #[trigger] front[i],
            ctrl_char,
        ) by {
            assert(front[i] == pairs[i]);
        }
        lemma_parse_records(p, ctrl_char, front);
        let middle = parse_run(p, ctrl_char, records(front, ctrl_char));
        assert(carried(pairs[pairs.len() - 1], ctrl_char));
        lemma_parse_record(middle, ctrl_char, pairs.last());
        lemma_parse_concat(
            p,
            ctrl_char,
            records(front, ctrl_char),
            record(pairs.last(), ctrl_char),
        );
        assert((p.pairs + front).push(pairs.last()) =~= p.pairs + pairs);
    }
}

/// The entries of two dictionaries one after the other are written as those
/// of the first followed by those of the second.
pub proof fn lemma_records_concat(first: Seq<PairView>, second: Seq<PairView>, ctrl_char: char)
    ensures
        records(first + second, ctrl_char) == records(first, ctrl_char) + records(
            second,
            ctrl_char,
        ),
    decreases second.len(),
{
    if second.len() == 0 {
        assert(first + second =~= first);
        assert(records(first, ctrl_char) + Seq::<char>::empty() =~= records(first, ctrl_char));
    } else {
        assert((first + second).drop_last() =~= first + second.drop_last());
        lemma_records_concat(first, second.drop_last(), ctrl_char);
        assert(records(first, ctrl_char) + records(second.drop_last(), ctrl_char) + record(
            second.last(),
            ctrl_char,
        ) =~= records(first, ctrl_char) + (records(second.drop_last(), ctrl_char) + record(
            second.last(),
            ctrl_char,
        )));
    }
}

/// Inside a dictionary entry the reader is inside a definition: behind its
/// first characters, as long as its closing delimiter is not among them,
/// the reader does not stand outside.
pub proof fn lemma_inside_record(p: Parse, ctrl_char: char, pair: PairView, len: int)
    requires
        !p.malformed,
        p.state == DecompressState::Idle,
        ctrl_char != '=',
        carried(pair, ctrl_char),
        1 <= len < record(pair, ctrl_char).len(),
    ensures
        parse_run(p, ctrl_char, record(pair, ctrl_char).take(len)).state
            != DecompressState::Idle,
{
    let whole = record(pair, ctrl_char);
    let cut = whole.take(len);
    let s1 = parse_run(p, ctrl_char, seq![ctrl_char]);
    lemma_parse_one(p, ctrl_char, ctrl_char);
    if len == 1 {
        assert(cut =~= seq![ctrl_char]);
    } else {
        let s2 = parse_run(s1, ctrl_char, seq![pair.key]);
        lemma_parse_one(s1, ctrl_char, pair.key);
        lemma_parse_concat(p, ctrl_char, seq![ctrl_char], seq![pair.key]);
        if len == 2 {
            assert(cut =~= seq![ctrl_char] + seq![pair.key]);
        } else {
            let s3 = parse_run(s2, ctrl_char, seq!['=']);
            lemma_parse_one(s2, ctrl_char, '=');
            lemma_parse_concat(p, ctrl_char, seq![ctrl_char] + seq![pair.key], seq!['=']);
            let front = seq![ctrl_char] + seq![pair.key] + seq!['='];
            let part = pair.value.take(len - 3);
            assert(cut =~= front + part);
            assert forall|i: int| 0 <= i < part.len() implies part[i] != ctrl_char && part[i]
                != '=' by {
                assert(pair.value.contains(pair.value[i]));
            }
            lemma_parse_inside(s3, ctrl_char, part);
            lemma_parse_concat(p, ctrl_char, front, part);
        }
    }
}

} // verus!
