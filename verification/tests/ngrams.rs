use std::collections::HashSet;

use grappolo::index_pair::ngrams::{ngrams, NGramPairs};
use grappolo::index_pair::{drain, IndexPair, IndexPairIterator};
use grappolo::utils::string_vec;

#[test]
fn builds_ngrams_correctly() {
    let string = String::from("rustinomicon");

    let ngrams_2 = ngrams(&string, 2);
    assert_eq!(ngrams_2, string_vec(vec![
        "ru", "us", "st", "ti", "in", "no", "om", "mi", "ic", "co", "on",
    ]));

    let ngrams_3 = ngrams(&string, 3);
    assert_eq!(ngrams_3, string_vec(vec![
        "rus", "ust", "sti", "tin", "ino", "nom", "omi", "mic", "ico", "con",
    ]));
}

#[test]
fn builds_pairs_correctly() {
    let names = string_vec(vec!["alejandro", "marlene", "martha", "ricardo"]);
    let expected_pairs = vec![
        (0usize, 1usize),
        (1, 2),
        (1, 3),
        (2, 3),
    ].iter().map(|p| *p).collect::<HashSet<IndexPair>>();

    let actual_pairs =
        NGramPairs::new(&names, 2)
            .collect()
            .into_iter()
            .collect::<HashSet<IndexPair>>();

    assert_eq!(actual_pairs, expected_pairs);
}

#[test]
fn ngram_pairs_come_in_order_and_once() {
    let names = string_vec(vec!["alejandro", "marlene", "martha", "ricardo"]);
    let pairs = NGramPairs::new(&names, 2).collect();
    assert_eq!(pairs, vec![(0, 1), (1, 2), (1, 3), (2, 3)]);
    assert!(!pairs.contains(&(0, 2)));
    assert!(!pairs.contains(&(0, 3)));
}

#[test]
fn ngram_pairs_come_one_by_one_and_then_no_more() {
    let names = string_vec(vec!["alejandro", "marlene", "martha", "ricardo"]);
    let mut pairs = NGramPairs::new(&names, 2);
    assert_eq!(pairs.next(), Some((0, 1)));
    assert_eq!(pairs.next(), Some((1, 2)));
    assert_eq!(pairs.collect(), vec![(1, 3), (2, 3)]);
    let mut pairs = NGramPairs::new(&names, 2);
    let mut count = 0;
    while let Some(_) = pairs.next() {
        count += 1;
    }
    assert_eq!(count, 4);
    assert_eq!(pairs.next(), None);
    let mut pairs = NGramPairs::new(&names, 2);
    assert_eq!(pairs.next(), Some((0, 1)));
    assert_eq!(drain(&mut pairs), vec![(1, 2), (1, 3), (2, 3)]);
    assert_eq!(pairs.next(), None);
    assert_eq!(drain(&mut pairs), Vec::<IndexPair>::new());
}

#[test]
fn short_strings_have_no_ngrams_and_no_pairs() {
    assert_eq!(ngrams(&String::from("ab"), 3), Vec::<String>::new());
    assert_eq!(ngrams(&String::from(""), 1), Vec::<String>::new());
    assert_eq!(ngrams(&String::from("abc"), 3), string_vec(vec!["abc"]));
    let names = string_vec(vec!["a", "ab", "abc", "b"]);
    assert_eq!(NGramPairs::new(&names, 2).collect(), vec![(1, 2)]);
}

#[test]
fn ngrams_are_runs_of_characters() {
    assert_eq!(ngrams(&String::from("añob"), 2), string_vec(vec!["añ", "ño", "ob"]));
    assert_eq!(ngrams(&String::from("aaa"), 1), string_vec(vec!["a", "a", "a"]));
}

#[test]
fn no_strings_make_no_pairs() {
    let none: Vec<String> = vec![];
    assert_eq!(NGramPairs::new(&none, 2).collect(), Vec::<IndexPair>::new());
    let mut pairs = NGramPairs::new(&string_vec(vec!["alone"]), 2);
    assert_eq!(pairs.next(), None);
}

#[test]
fn string_vec_copies_each_string() {
    assert_eq!(string_vec(vec!["a", "", "bc"]), vec![String::from("a"), String::new(), String::from("bc")]);
    assert_eq!(string_vec(vec![]), Vec::<String>::new());
}
