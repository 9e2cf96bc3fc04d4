use smol_codec::corpus::{corpus_of, random_corpus};

fn chars(s: &str) -> Vec<char> {
    s.chars().collect()
}

fn text(v: &Vec<char>) -> String {
    v.iter().collect()
}

fn words() -> Vec<Vec<char>> {
    vec![chars("this"), chars("word"), chars("random"), chars("computer")]
}

#[test]
fn picked_words_are_joined_by_single_spaces() {
    assert_eq!(text(&corpus_of(&words(), &vec![2, 0, 0, 3])), "random this this computer");
    assert_eq!(text(&corpus_of(&words(), &vec![1])), "word");
    assert_eq!(text(&corpus_of(&words(), &vec![])), "");
}

#[test]
fn random_corpus_holds_the_asked_number_of_listed_words() {
    let made = text(&random_corpus(&words(), 200));
    let parts: Vec<&str> = made.split(' ').collect();
    assert_eq!(parts.len(), 200);
    for part in parts {
        assert!(["this", "word", "random", "computer"].contains(&part));
    }
}

#[test]
fn random_corpus_of_one_word_repeats_it() {
    let made = text(&random_corpus(&vec![chars("idk")], 3));
    assert_eq!(made, "idk idk idk");
    assert_eq!(text(&random_corpus(&vec![chars("idk")], 0)), "");
}
