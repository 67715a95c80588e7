use std::collections::HashMap;
use zk_foundations::helpers::{word_frequencies, Cache, Summable};

fn as_map(pairs: Vec<(String, usize)>) -> HashMap<String, usize> {
    pairs.into_iter().collect()
}

#[test]
fn word_frequencies_counts_each_word() {
    let freq = word_frequencies("hello world hello rust hello");
    assert_eq!(freq.len(), 3);
    let expected: HashMap<String, usize> =
        [("hello", 3), ("world", 1), ("rust", 1)].iter().map(|(w, c)| (w.to_string(), *c)).collect();
    assert_eq!(as_map(freq), expected);
}

#[test]
fn word_frequencies_splits_on_unicode_white_space() {
    let text = "  a\tb\n\na\u{3000}c\u{a0}a  ";
    let freq = as_map(word_frequencies(text));
    let mut expected = HashMap::new();
    for w in text.split_whitespace() {
        *expected.entry(w.to_string()).or_insert(0) += 1;
    }
    assert_eq!(freq, expected);
    assert_eq!(freq["a"], 3);
}

#[test]
fn word_frequencies_of_blank_text_is_empty() {
    assert!(word_frequencies("").is_empty());
    assert!(word_frequencies(" \t\r\n ").is_empty());
}

#[test]
fn word_frequencies_keeps_non_ascii_words() {
    let freq = as_map(word_frequencies("héllo wörld héllo"));
    assert_eq!(freq.len(), 2);
    assert_eq!(freq["héllo"], 2);
    assert_eq!(freq["wörld"], 1);
}

#[test]
fn sum_of_vector() {
    let numbers: Vec<i32> = vec![10, 20, 30, 40];
    assert_eq!(numbers.sum(), 100);
    assert_eq!(vec![7u8].sum(), 7);
    assert_eq!(vec![-5i64, 3, -2].sum(), -4);
}

#[test]
fn cache_computes_once() {
    let mut cache = Cache::new();
    let mut calls = 0;
    let result1 = cache.get_or_insert_with("key1".to_string(), || {
        calls += 1;
        42
    });
    let result2 = cache.get_or_insert_with("key1".to_string(), || unreachable!());
    assert_eq!((result1, result2), (42, 42));
    assert_eq!(calls, 1);
    let result3 = cache.get_or_insert_with("key2".to_string(), || 7);
    assert_eq!(result3, 7);
}
