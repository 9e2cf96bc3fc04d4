use smol_codec::mapping::Mapping;
use smol_codec::CodecError;

fn chars(s: &str) -> Vec<char> {
    s.chars().collect()
}

fn text(v: &Vec<char>) -> String {
    v.iter().collect()
}

#[test]
fn new_mapping_takes_the_last_two_free_symbols_as_controls() {
    let mapping = Mapping::new(&chars("hello")).unwrap();
    assert_eq!(mapping.ctrl_char(), '?');
    assert_eq!(mapping.repeat_char(), '/');
    assert_eq!(mapping.free_keys(), 93 - 4 - 2);
    assert_eq!(mapping.next_key(), Ok('>'));
    assert_eq!(mapping.values().len(), 0);
}

#[test]
fn new_mapping_skips_used_symbols() {
    let mapping = Mapping::new(&chars("what? a/b > c.")).unwrap();
    assert_eq!(mapping.ctrl_char(), '<');
    assert_eq!(mapping.repeat_char(), ',');
    assert_eq!(mapping.next_key(), Ok('\\'));
}

#[test]
fn keys_leave_the_pool_last_first() {
    let mut mapping = Mapping::new(&chars("")).unwrap();
    assert_eq!(mapping.next_key(), Ok('>'));
    assert_eq!(mapping.next_key(), Ok('>'));
    mapping.key_used();
    assert_eq!(mapping.next_key(), Ok('.'));
    mapping.key_used();
    assert_eq!(mapping.next_key(), Ok('<'));
    assert_eq!(mapping.free_keys(), 89);
}

#[test]
fn empty_pool_has_no_next_key() {
    let mut mapping = Mapping::for_stream('/', '?');
    assert_eq!(mapping.next_key(), Err(CodecError::AlphabetExhausted));
    mapping.key_used();
    assert_eq!(mapping.free_keys(), 0);
    assert_eq!(mapping.next_key(), Err(CodecError::AlphabetExhausted));
}

#[test]
fn control_symbols_can_be_set() {
    let mut mapping = Mapping::for_stream('/', '?');
    mapping.set_ctrl_char('#');
    mapping.set_repeat_char('%');
    assert_eq!(mapping.ctrl_char(), '#');
    assert_eq!(mapping.repeat_char(), '%');
    assert_eq!(text(&mapping.stringify(chars("xy"))), "%#xy");
}

#[test]
fn stringify_without_entries_writes_the_two_controls() {
    let mapping = Mapping::for_stream('/', '?');
    assert_eq!(text(&mapping.stringify(chars("payload"))), "/?payload");
    assert_eq!(text(&mapping.stringify(chars(""))), "/?");
}

#[test]
fn stringify_writes_entries_in_order_of_insertion() {
    let mut mapping = Mapping::for_stream('/', '?');
    mapping.insert('>', chars("abcd"));
    assert_eq!(text(&mapping.stringify(chars(">W>"))), "/??>=abcd?>W>");
    mapping.insert('.', chars(">>"));
    assert_eq!(text(&mapping.stringify(chars(".W."))), "/??>=abcd??.=>>?.W.");
}

#[test]
fn predicted_length_counts_three_per_entry_and_a_header() {
    let mut mapping = Mapping::for_stream('/', '?');
    assert_eq!(mapping.predict_len(0), 2);
    assert_eq!(mapping.predict_len(10), 12);
    mapping.insert('>', chars("abcd"));
    assert_eq!(mapping.predict_len(10), 3 + (1 + 4 + 3) + 10);
    mapping.insert('.', chars(">>"));
    assert_eq!(mapping.predict_len(10), 3 + (1 + 4 + 3) + (1 + 2 + 3) + 10);
    // with entries the estimate is one more than the stream's length
    assert_eq!(mapping.stringify(chars("0123456789")).len() + 1, mapping.predict_len(10));
    let empty = Mapping::for_stream('/', '?');
    assert_eq!(empty.stringify(chars("0123456789")).len(), empty.predict_len(10));
}

#[test]
fn too_few_free_symbols_make_no_mapping() {
    let all = "abcdefghijklmnopqrstuvwxyzABCDEFGHIJKLMNOPQRSTUVWXYZ1234567890~`!@#$%^&*()-_+[{}]|;:'\"\\,<.>/";
    assert!(matches!(Mapping::new(&chars(all)), Err(CodecError::AlphabetExhausted)));
    let mapping = Mapping::new(&chars(&all[..all.len() - 1])).unwrap();
    assert_eq!(mapping.ctrl_char(), '?');
    assert_eq!(mapping.repeat_char(), '/');
    assert_eq!(mapping.free_keys(), 0);
}
