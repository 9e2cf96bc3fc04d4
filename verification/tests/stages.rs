use smol_codec::alphabet::{candidates, find_free_chars, has_char};
use smol_codec::decimal::{digit_of, parse_count, to_decimal, value_of};
use smol_codec::grammar::{
    collapse_groups, create_groups, replace_all, replace_mapping, select_best_group, Group,
};
use smol_codec::mapping::Mapping;
use smol_codec::runlength::{collapse_repeats, expand_repeat_chars};
use smol_codec::stream::expand_gen_map;
use smol_codec::text::{
    chars_of, contains, count_matches, find_char_from, find_from, matches_at, push_all, repeat,
    replace_each, slice_of, string_of,
};
use smol_codec::CodecError;

fn chars(s: &str) -> Vec<char> {
    s.chars().collect()
}

fn text(v: &Vec<char>) -> String {
    v.iter().collect()
}

#[test]
fn candidates_are_ninety_three_in_canonical_order() {
    let all = candidates();
    assert_eq!(all.len(), 93);
    assert_eq!(all[0], 'a');
    assert_eq!(all[26], 'A');
    assert_eq!(all[52], '1');
    assert_eq!(all[61], '0');
    assert_eq!(all[62], '~');
    assert_eq!(all[92], '?');
    assert!(!all.contains(&'='));
    assert!(!all.contains(&' '));
}

#[test]
fn free_chars_are_the_unused_candidates_in_order() {
    let free = find_free_chars(&chars("bcdefghijklmnopqrstuvwxyzABCDEFGHIJKLMNOPQRSTUVWXYZ1234567890~`!@#$%^&*()-_+[{}]|;:'\"\\,<.>"));
    assert_eq!(free, vec!['a', '/', '?']);
    assert_eq!(find_free_chars(&chars("")).len(), 93);
}

#[test]
fn has_char_finds_what_is_there() {
    assert!(has_char(&chars("abc"), 'c'));
    assert!(!has_char(&chars("abc"), 'd'));
    assert!(!has_char(&chars(""), 'd'));
}

#[test]
fn decimal_digits_of_counts() {
    assert_eq!(text(&to_decimal(0)), "0");
    assert_eq!(text(&to_decimal(7)), "7");
    assert_eq!(text(&to_decimal(10)), "10");
    assert_eq!(text(&to_decimal(1234567890)), "1234567890");
    assert_eq!(digit_of(0), '0');
    assert_eq!(digit_of(9), '9');
    assert_eq!(value_of('4'), Some(4));
    assert_eq!(value_of('x'), None);
}

#[test]
fn counts_are_read_as_std_reads_them() {
    for s in ["0", "7", "42", "+5", "007", "", "+", "-1", "1a", " 1", "18446744073709551615",
        "18446744073709551616", "99999999999999999999", "٣"]
    {
        assert_eq!(parse_count(&chars(s)), s.parse::<usize>().ok(), "{:?}", s);
    }
}

#[test]
fn matching_and_finding() {
    let t = chars("abcabcab");
    assert!(matches_at(&t, &chars("abc"), 0));
    assert!(!matches_at(&t, &chars("abc"), 1));
    assert!(matches_at(&t, &chars("ab"), 6));
    assert!(!matches_at(&t, &chars("abc"), 6));
    assert!(!matches_at(&t, &chars("abc"), 100));
    assert_eq!(find_from(&t, &chars("abc"), 0), Some(0));
    assert_eq!(find_from(&t, &chars("abc"), 1), Some(3));
    assert_eq!(find_from(&t, &chars("abc"), 4), None);
    assert_eq!(find_char_from(&t, 'c', 0), 2);
    assert_eq!(find_char_from(&t, 'c', 6), 8);
    assert!(contains(&t, &chars("cab")));
    assert!(!contains(&t, &chars("cc")));
}

#[test]
fn copies_are_counted_without_overlap() {
    assert_eq!(count_matches(&chars("aaaa"), &chars("aa")), 2);
    assert_eq!(count_matches(&chars("aaaaa"), &chars("aa")), 2);
    assert_eq!(count_matches(&chars("ababa"), &chars("aba")), 1);
    assert_eq!(count_matches(&chars("abcabcab"), &chars("abc")), 2);
    assert_eq!(count_matches(&chars("abc"), &chars("abcd")), 0);
    assert_eq!("ababa".matches("aba").count(), 1);
}

#[test]
fn replacing_goes_left_to_right() {
    assert_eq!(text(&replace_each(&chars("aaaaa"), &chars("aa"), &chars("b"))), "bba");
    assert_eq!(text(&replace_each(&chars("ababa"), &chars("aba"), &chars("X"))), "Xba");
    assert_eq!(text(&replace_each(&chars("abc"), &chars("x"), &chars("y"))), "abc");
    assert_eq!(text(&replace_each(&chars("a.b.c"), &chars("."), &chars(""))), "abc");
    assert_eq!(text(&replace_each(&chars("a.b"), &chars("."), &chars("..."))), "a...b");
}

#[test]
fn empty_pattern_is_found_nowhere_by_a_scan() {
    assert_eq!(count_matches(&chars("abc"), &chars("")), 0);
    assert_eq!(text(&replace_each(&chars("abc"), &chars(""), &chars("x"))), "abc");
    assert!(contains(&chars("abc"), &chars("")));
    assert!(contains(&chars(""), &chars("")));
    assert!(!contains(&chars(""), &chars("a")));
    let mapping = Mapping::for_stream('/', '?');
    let mut buffer = chars("abab");
    assert_eq!(collapse_groups(&mapping, &mut buffer, &chars("")), 0);
    assert_eq!(text(&buffer), "abab");
    assert_eq!(find_char_from(&chars("abc"), 'c', 7), 7);
}

#[test]
fn small_text_tools() {
    let mut buffer = chars("ab");
    push_all(&mut buffer, &chars("cd"));
    assert_eq!(text(&buffer), "abcd");
    assert_eq!(text(&slice_of(&buffer, 1, 3)), "bc");
    assert_eq!(text(&slice_of(&buffer, 2, 2)), "");
    assert_eq!(text(&repeat(&chars("ab"), 3)), "ababab");
    assert_eq!(text(&repeat(&chars("ab"), 0)), "");
    assert_eq!(chars_of("héllo"), chars("héllo"));
    assert_eq!(string_of(&chars("héllo")), "héllo");
}

#[test]
fn collapse_then_expand_character_runs() {
    let mapping = Mapping::for_stream('/', '?');
    let mut buffer = chars("aaaabccddddddddddddd");
    collapse_repeats(&mapping, &mut buffer);
    assert_eq!(text(&buffer), "/4/abcc/13/d");
    assert_eq!(expand_repeat_chars(&mapping, &mut buffer), Ok(()));
    assert_eq!(text(&buffer), "aaaabccddddddddddddd");
}

#[test]
fn every_run_has_its_own_count() {
    let mapping = Mapping::for_stream('/', '?');
    let mut buffer = chars("aaa_aaaa");
    collapse_repeats(&mapping, &mut buffer);
    assert_eq!(text(&buffer), "/3/a_/4/a");
}

#[test]
fn malformed_run_leaves_the_buffer_alone() {
    let mapping = Mapping::for_stream('/', '?');
    let mut buffer = chars("ab/3/c/x/d");
    assert_eq!(expand_repeat_chars(&mapping, &mut buffer), Err(CodecError::MalformedStream));
    assert_eq!(text(&buffer), "ab/3/c/x/d");
}

#[test]
fn group_weight_is_length_times_occurrences() {
    let group = Group::new(chars("abcd"), 3);
    assert_eq!(group.weight, 12);
    assert_eq!(group.occurrences, 3);
    assert_eq!(text(&group.data), "abcd");
    assert_eq!(Group::calculate_weight(&chars("ab"), 5), 10);
    assert_eq!(Group::calculate_weight(&chars(""), 5), 0);
}

#[test]
fn best_group_is_the_heaviest_and_of_those_the_first() {
    let best = select_best_group(&chars("abcdWabcdXabcdYZ")).unwrap();
    assert_eq!(text(&best.data), "abcd");
    assert_eq!(best.occurrences, 3);
    assert_eq!(best.weight, 12);
    // "xyxy" and "yxyx" both occur; the first weighs more
    let best = select_best_group(&chars("xyxyxyxyxyxyxyxy")).unwrap();
    assert_eq!(text(&best.data), "xyxy");
    assert_eq!(best.occurrences, 4);
    // "ab" weighs as much as "abab" and is met later
    let best = select_best_group(&chars("ababababQababababRababababS")).unwrap();
    assert_eq!(text(&best.data), "abab");
    assert_eq!(best.weight, 24);
}

#[test]
fn no_group_in_short_or_unrepeated_text() {
    assert!(select_best_group(&chars("")).is_none());
    assert!(select_best_group(&chars("abc")).is_none());
    assert!(select_best_group(&chars("abababa")).is_none());
    assert!(select_best_group(&chars("abcdefghijklmnop")).is_none());
}

#[test]
fn first_run_of_copies_is_collapsed_wherever_it_stands() {
    let mapping = Mapping::for_stream('/', '?');
    let mut buffer = chars("xababab_ababab_abab");
    assert_eq!(collapse_groups(&mapping, &mut buffer, &chars("ab")), 3);
    assert_eq!(text(&buffer), "x?3?ab?_?3?ab?_abab");
    let mut buffer = chars("ab_abab");
    assert_eq!(collapse_groups(&mapping, &mut buffer, &chars("ab")), 1);
    assert_eq!(text(&buffer), "ab_abab");
    let mut buffer = chars("xyz");
    assert_eq!(collapse_groups(&mapping, &mut buffer, &chars("ab")), 0);
    assert_eq!(text(&buffer), "xyz");
}

#[test]
fn replace_all_goes_on_until_nothing_is_left() {
    let mut buffer = chars("aabb");
    replace_all(&mut buffer, &chars("ab"), &chars(""));
    assert_eq!(text(&buffer), "");
    let mut buffer = chars("xabcabcy");
    replace_all(&mut buffer, &chars("abc"), &chars("K"));
    assert_eq!(text(&buffer), "xKKy");
}

#[test]
fn step_that_substitutes_takes_the_last_free_key() {
    let source = chars("abcdWabcdXabcdYZ");
    let mut mapping = Mapping::new(&source).unwrap();
    let keys_before = mapping.free_keys();
    assert_eq!(mapping.next_key(), Ok('>'));
    let mut buffer = source.clone();
    assert_eq!(create_groups(&mut mapping, &mut buffer), Ok(true));
    assert_eq!(text(&buffer), ">W>X>YZ");
    assert_eq!(mapping.free_keys(), keys_before - 1);
    assert_eq!(mapping.next_key(), Ok('.'));
    assert_eq!(mapping.values().len(), 1);
    assert_eq!(mapping.values()[0].key, '>');
    assert_eq!(text(&mapping.values()[0].value), "abcd");
    assert_eq!(create_groups(&mut mapping, &mut buffer), Ok(false));
    assert_eq!(text(&buffer), ">W>X>YZ");
}

#[test]
fn step_that_fails_the_admission_test_leaves_the_dictionary_empty() {
    let source = chars("abcdabef");
    let mut mapping = Mapping::new(&source).unwrap();
    let mut buffer = source.clone();
    assert_eq!(create_groups(&mut mapping, &mut buffer), Ok(false));
    assert_eq!(text(&buffer), "abcdabef");
    assert_eq!(mapping.values().len(), 0);
}

#[test]
fn step_without_a_key_fails() {
    let mut mapping = Mapping::for_stream('/', '?');
    let mut buffer = chars("abcdWabcdXabcdYZ");
    assert_eq!(create_groups(&mut mapping, &mut buffer), Err(CodecError::AlphabetExhausted));
}

#[test]
fn replay_in_reverse_order_unwinds_nested_entries() {
    let mut mapping = Mapping::for_stream('/', '?');
    mapping.insert('A', chars("xy"));
    mapping.insert('B', chars("AzA"));
    let mut buffer = chars("B-B");
    assert_eq!(replace_mapping(&mapping, &mut buffer), Ok(()));
    assert_eq!(text(&buffer), "xyzxy-xyzxy");

    // in the order of insertion the key inside the later value would stay
    let mut first = Mapping::for_stream('/', '?');
    first.insert('A', chars("xy"));
    let mut second = Mapping::for_stream('/', '?');
    second.insert('B', chars("AzA"));
    let mut buffer = chars("B-B");
    assert_eq!(replace_mapping(&first, &mut buffer), Ok(()));
    assert_eq!(replace_mapping(&second, &mut buffer), Ok(()));
    assert_eq!(text(&buffer), "AzA-AzA");
}

#[test]
fn replay_refuses_a_key_inside_its_own_value() {
    let mut mapping = Mapping::for_stream('/', '?');
    mapping.insert('A', chars("xAy"));
    let mut buffer = chars("-A-");
    assert_eq!(replace_mapping(&mapping, &mut buffer), Err(CodecError::MalformedStream));
    assert_eq!(text(&buffer), "-A-");
}

#[test]
fn reading_a_stream_gives_dictionary_and_payload() {
    let mut buffer = chars("/??>=abcd??.=x=y?>W?3?ab?/2/c");
    let mapping = expand_gen_map(&mut buffer).unwrap();
    assert_eq!(mapping.repeat_char(), '/');
    assert_eq!(mapping.ctrl_char(), '?');
    assert_eq!(mapping.free_keys(), 0);
    assert_eq!(mapping.values().len(), 2);
    assert_eq!(mapping.values()[0].key, '>');
    assert_eq!(text(&mapping.values()[0].value), "abcd");
    // the equals sign makes what was read before it the key
    assert_eq!(mapping.values()[1].key, 'x');
    assert_eq!(text(&mapping.values()[1].value), "y");
    assert_eq!(text(&buffer), ">Wababab/2/c");
}

#[test]
fn reading_a_malformed_stream_leaves_the_buffer_alone() {
    let mut buffer = chars("/??>=ab");
    assert!(matches!(expand_gen_map(&mut buffer), Err(CodecError::MalformedStream)));
    assert_eq!(text(&buffer), "/??>=ab");
}
