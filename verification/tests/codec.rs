use smol_codec::codec::{compress_chars, compress_with, decompress_chars};
use smol_codec::mapping::Mapping;
use smol_codec::{compress, decompress, CodecError};

const CANDIDATES: &str = "abcdefghijklmnopqrstuvwxyzABCDEFGHIJKLMNOPQRSTUVWXYZ1234567890~`!@#$%^&*()-_+[{}]|;:'\"\\,<.>/?";

fn round_trip(text: &str) {
    let stream = compress(text).expect("the text leaves symbols unused");
    assert_eq!(decompress(&stream), Ok(text.to_string()));
}

#[test]
fn empty_input_is_a_header_only_stream() {
    assert_eq!(compress(""), Ok("/?".to_string()));
    assert_eq!(decompress("/?"), Ok(String::new()));
}

#[test]
fn run_of_five_is_escaped_and_comes_back() {
    assert_eq!(compress("aaaaa"), Ok("/?/5/a".to_string()));
    assert_eq!(decompress("/?/5/a"), Ok("aaaaa".to_string()));
}

#[test]
fn run_of_two_is_left_unescaped() {
    assert_eq!(compress("aab"), Ok("/?aab".to_string()));
    assert_eq!(compress("aabbcc"), Ok("/?aabbcc".to_string()));
}

#[test]
fn run_of_three_is_escaped() {
    assert_eq!(compress("xaaay"), Ok("/?x/3/ay".to_string()));
}

#[test]
fn neighbouring_runs_are_both_escaped() {
    assert_eq!(compress("aaabbb"), Ok("/?/3/a/3/b".to_string()));
    round_trip("aaabbb");
}

#[test]
fn long_run_has_a_count_of_several_digits() {
    let text = "z".repeat(123);
    assert_eq!(compress(&text), Ok("/?/123/z".to_string()));
    assert_eq!(decompress("/?/123/z"), Ok(text));
}

#[test]
fn text_without_repeats_gains_only_the_header() {
    assert_eq!(compress("abcdefgh ijkl"), Ok("/?abcdefgh ijkl".to_string()));
    round_trip("abcdefgh ijkl");
}

#[test]
fn control_symbols_avoid_what_the_text_uses() {
    // '?' and '/' occur in the text, so the next two free candidates serve
    assert_eq!(compress("a/b?"), Ok(".>a/b?".to_string()));
    assert_eq!(decompress(".>a/b?"), Ok("a/b?".to_string()));
}

#[test]
fn short_substring_occurring_twice_is_not_substituted() {
    assert_eq!(compress("abcdabef"), Ok("/?abcdabef".to_string()));
    round_trip("abcdabef");
}

#[test]
fn substring_that_pays_for_its_entry_is_substituted() {
    assert_eq!(compress("abcdWabcdXabcdYZ"), Ok("/??>=abcd?>W>X>YZ".to_string()));
    assert_eq!(decompress("/??>=abcd?>W>X>YZ"), Ok("abcdWabcdXabcdYZ".to_string()));
}

#[test]
fn adjacent_copies_become_a_counted_escape() {
    assert_eq!(compress("xyxyxyxyxyxyxyxy"), Ok("/??4?xyxy?".to_string()));
    assert_eq!(decompress("/??4?xyxy?"), Ok("xyxyxyxyxyxyxyxy".to_string()));
}

#[test]
fn round_trip_on_plain_texts() {
    round_trip("");
    round_trip("a");
    round_trip("hello world");
    round_trip("aaaaaaaaaaaaaaaaaaaaaaaaaaaaaaaaaaaaaaaaaaaaaaaaaaaaaaaaaaaaaaaa");
    round_trip("abcdWabcdXabcdYZ");
    round_trip("xyxyxyxyxyxyxyxy");
    round_trip("the cat and the dog and the cow and the hen");
}

#[test]
fn round_trip_with_runs_beside_dictionary_entries() {
    round_trip("aaaa bbbb the quick brown fox the quick brown fox the quick brown fox cccc");
    round_trip("toto toto toto titi toto toto toto titi toto toto toto titi !!!!");
}

#[test]
fn round_trip_with_adjacent_copies_and_dictionary_entries() {
    round_trip("abcabcabcabc-abcabcabcabc-abcabcabcabc-abcabcabcabc-xyzw");
    round_trip("hello hello hello hello world world world world hello world hello world");
}

#[test]
fn round_trip_on_a_text_of_listed_words() {
    round_trip(
        "this word random computer mouse food cheese book table why would work something idk \
         epic more different im done this word random computer mouse food cheese book table",
    );
}

#[test]
fn delimiter_taken_into_a_dictionary_value_breaks_the_stream() {
    // the second substitution picks a substring that reaches into a substring repeat
    let stream = compress("ababababQababababRababababS").unwrap();
    assert_eq!(stream, "/??>=abab??.=?2?>?.?Q.?R.?S");
    assert_eq!(decompress(&stream), Err(CodecError::MalformedStream));
}

#[test]
fn equals_sign_in_a_collapsed_substring_breaks_the_stream() {
    let stream = compress("xx==yy==xx==yy==xx==yy==xx==yy==zz").unwrap();
    assert_eq!(stream, "/??4?xx==yy==?zz");
    assert_eq!(decompress(&stream), Err(CodecError::MalformedStream));
}

#[test]
fn run_taken_into_a_dictionary_value_is_not_written_out() {
    // the run escapes are written out before the dictionary is replayed, so
    // an escape that went into a value comes back as it stands
    let stream = compress("aaaaX_aaaaX-aaaaX+aaaaX").unwrap();
    assert_eq!(stream, "/??>=/4/aX?>_>->+>");
    assert_eq!(decompress(&stream), Ok("/4/aX_/4/aX-/4/aX+/4/aX".to_string()));
}

#[test]
fn one_free_symbol_is_not_enough() {
    let text: String = CANDIDATES.chars().filter(|c| *c != '?').collect();
    let text = format!("{}abcdWabcdXabcdYabcdZ", text);
    assert_eq!(compress(&text), Err(CodecError::AlphabetExhausted));
}

#[test]
fn no_free_symbol_is_not_enough() {
    assert_eq!(compress(CANDIDATES), Err(CodecError::AlphabetExhausted));
}

#[test]
fn two_free_symbols_leave_no_key_for_a_substitution() {
    let used: String = CANDIDATES.chars().filter(|c| *c != '?' && *c != '/').collect();
    let lower = "abcdefghijklmnopqrstuvwxyz";
    let text = format!("{} {}\n{}", used, lower, lower);
    assert_eq!(compress(&text), Err(CodecError::AlphabetExhausted));
}

#[test]
fn two_free_symbols_are_enough_without_a_substitution() {
    let used: String = CANDIDATES.chars().filter(|c| *c != '?' && *c != '/').collect();
    let stream = compress(&used).unwrap();
    assert_eq!(stream, format!("/?{}", used));
    assert_eq!(decompress(&stream), Ok(used));
}

#[test]
fn stream_cut_inside_a_dictionary_entry_is_malformed() {
    let stream = "/??>=abcd?>W>X>YZ";
    assert_eq!(decompress(&stream[..3]), Err(CodecError::MalformedStream));
    assert_eq!(decompress(&stream[..4]), Err(CodecError::MalformedStream));
    assert_eq!(decompress(&stream[..5]), Err(CodecError::MalformedStream));
    assert_eq!(decompress(&stream[..7]), Err(CodecError::MalformedStream));
    assert_eq!(decompress(&stream[..9]), Err(CodecError::MalformedStream));
    // behind the closing delimiter the entry is whole
    assert_eq!(decompress(&stream[..10]), Ok(String::new()));
}

#[test]
fn stream_shorter_than_its_header_is_malformed() {
    assert_eq!(decompress(""), Err(CodecError::MalformedStream));
    assert_eq!(decompress("/"), Err(CodecError::MalformedStream));
}

#[test]
fn count_that_is_no_number_is_malformed() {
    assert_eq!(decompress("/??x?ab?"), Err(CodecError::MalformedStream));
    assert_eq!(decompress("/???ab?"), Err(CodecError::MalformedStream));
    assert_eq!(decompress("/?/x/a"), Err(CodecError::MalformedStream));
    assert_eq!(decompress("/?//a"), Err(CodecError::MalformedStream));
    assert_eq!(decompress("/?/-3/a"), Err(CodecError::MalformedStream));
    assert_eq!(decompress("/?/99999999999999999999999999999999/a"), Err(CodecError::MalformedStream));
}

#[test]
fn run_escape_cut_short_is_malformed() {
    assert_eq!(decompress("/?ab/3"), Err(CodecError::MalformedStream));
    assert_eq!(decompress("/?ab/3/"), Err(CodecError::MalformedStream));
    assert_eq!(decompress("/?ab/"), Err(CodecError::MalformedStream));
}

#[test]
fn substring_repeat_cut_short_is_malformed() {
    assert_eq!(decompress("/??3?ab"), Err(CodecError::MalformedStream));
    assert_eq!(decompress("/??3"), Err(CodecError::MalformedStream));
}

#[test]
fn key_of_several_symbols_is_malformed() {
    assert_eq!(decompress("/??ab=cd?x"), Err(CodecError::MalformedStream));
    assert_eq!(decompress("/??=cd?x"), Err(CodecError::MalformedStream));
}

#[test]
fn key_that_stands_in_its_own_value_is_malformed_where_it_is_used() {
    assert_eq!(decompress("/??k=kk?xkx"), Err(CodecError::MalformedStream));
    // where the text does not hold the key, the entry does no harm
    assert_eq!(decompress("/??k=kk?xx"), Ok("xx".to_string()));
}

#[test]
fn count_may_have_a_sign_and_leading_zeros() {
    assert_eq!(decompress("/?/+3/a"), Ok("aaa".to_string()));
    assert_eq!(decompress("/?/003/a"), Ok("aaa".to_string()));
    assert_eq!(decompress("/?/0/ab"), Ok("b".to_string()));
    assert_eq!(decompress("/??2?ab?c"), Ok("ababc".to_string()));
}

#[test]
fn run_escape_takes_any_character_as_its_literal() {
    assert_eq!(decompress("/?/3//"), Ok("///".to_string()));
}

#[test]
fn later_entries_are_replayed_first() {
    // B was defined after A and its value holds A
    assert_eq!(decompress("/??A=xy??B=AzA?B-B"), Ok("xyzxy-xyzxy".to_string()));
}

#[test]
fn text_beyond_the_candidates_passes_through() {
    assert_eq!(compress("héllo wörld ☃"), Ok("/?héllo wörld ☃".to_string()));
    round_trip("héllo wörld ☃☃☃☃");
}

#[test]
fn characters_go_the_same_way_as_strings() {
    let text: Vec<char> = "abcdWabcdXabcdYZ".chars().collect();
    let stream = compress_chars(&text).unwrap();
    assert_eq!(stream.iter().collect::<String>(), "/??>=abcd?>W>X>YZ");
    assert_eq!(decompress_chars(&stream), Ok(text));
    assert_eq!(decompress_chars(&vec!['/']), Err(CodecError::MalformedStream));
}

#[test]
fn payload_and_dictionary_come_apart() {
    let text: Vec<char> = "aaaa abcdWabcdXabcdYZ".chars().collect();
    let mut mapping = Mapping::new(&text).unwrap();
    let payload = compress_with(&mut mapping, &text).unwrap();
    assert_eq!(payload.iter().collect::<String>(), "/4/a >W>X>YZ");
    assert_eq!(mapping.values().len(), 1);
    assert_eq!(mapping.values()[0].key, '>');
    assert_eq!(mapping.values()[0].value.iter().collect::<String>(), "abcd");
    let stream = mapping.stringify(payload);
    assert_eq!(stream.iter().collect::<String>(), "/??>=abcd?/4/a >W>X>YZ");
    assert_eq!(decompress_chars(&stream), Ok(text));
}

#[test]
fn digit_serves_as_a_key_where_punctuation_is_used_up() {
    let punctuation = "~`!@#$%^&*()-_+[{}]|;:'\"\\,<.>";
    let text = format!("{}abcdWabcdXabcdYZ", punctuation);
    let stream = compress(&text).unwrap();
    assert_eq!(stream, format!("/??0=abcd?{}0W0X0YZ", punctuation));
    assert_eq!(decompress(&stream), Ok(text));
}
