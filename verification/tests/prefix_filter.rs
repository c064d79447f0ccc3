use stellars::filter::{is_prefix, matching_prefixes, matching_prefixes_sorted};
use stellars::order::is_sorted_ascending;

fn v(s: &str) -> Vec<u8> {
    s.as_bytes().to_vec()
}

fn vs(items: &[&str]) -> Vec<Vec<u8>> {
    items.iter().map(|s| v(s)).collect()
}

#[test]
fn linear_hello_scenario() {
    let candidates = vs(&["he", "hell", "hello", "help", "world"]);
    let matches = matching_prefixes(b"hello", &candidates);
    assert_eq!(matches, vs(&["he", "hell", "hello"]));
}

#[test]
fn sorted_probe_hello_scenario() {
    let candidates = vs(&["he", "hell", "hello", "help", "world"]);
    assert!(is_sorted_ascending(&candidates));
    let matches = matching_prefixes_sorted(b"hello", &candidates);
    assert_eq!(matches, vs(&["he", "hell", "hello"]));
}

#[test]
fn no_match_longer_than_subject() {
    let matches = matching_prefixes(b"abc", &vs(&["abcd", "ab"]));
    assert_eq!(matches, vs(&["ab"]));
    let sorted = vs(&["ab", "abcd"]);
    assert!(is_sorted_ascending(&sorted));
    assert_eq!(matching_prefixes_sorted(b"abc", &sorted), vs(&["ab"]));
}

#[test]
fn empty_subject_with_empty_candidate() {
    // The empty candidate is a prefix of every subject; the linear filter
    // reports it. The probe range starts at length 1, so the sorted-probe
    // filter never finds it: the one case where the two variants differ.
    let candidates = vs(&["", "a"]);
    assert_eq!(matching_prefixes(b"", &candidates), vs(&[""]));
    assert!(is_sorted_ascending(&candidates));
    let sorted_matches: Vec<Vec<u8>> = matching_prefixes_sorted(b"", &candidates);
    assert_eq!(sorted_matches, Vec::<Vec<u8>>::new());
}

#[test]
fn single_byte_full_match() {
    let candidates = vs(&["x"]);
    assert_eq!(matching_prefixes(b"x", &candidates), vs(&["x"]));
    assert_eq!(matching_prefixes_sorted(b"x", &candidates), vs(&["x"]));
}

#[test]
fn empty_candidate_set() {
    let none: Vec<Vec<u8>> = Vec::new();
    assert_eq!(matching_prefixes(b"anything", &none), Vec::<Vec<u8>>::new());
    assert_eq!(
        matching_prefixes_sorted(b"anything", &none),
        Vec::<Vec<u8>>::new()
    );
}

#[test]
fn empty_subject_nonempty_candidates() {
    let candidates = vs(&["a", "b", "c"]);
    assert_eq!(matching_prefixes(b"", &candidates), Vec::<Vec<u8>>::new());
    assert_eq!(
        matching_prefixes_sorted(b"", &candidates),
        Vec::<Vec<u8>>::new()
    );
}

#[test]
fn full_match_boundary() {
    // The subject itself is a candidate: the probe range must reach the
    // subject's full length.
    let candidates = vs(&["ab", "abc", "b"]);
    let linear = matching_prefixes(b"abc", &candidates);
    assert!(linear.contains(&v("abc")));
    assert!(is_sorted_ascending(&candidates));
    let probed = matching_prefixes_sorted(b"abc", &candidates);
    assert!(probed.contains(&v("abc")));
}

#[test]
fn duplicate_candidates_each_match() {
    let candidates = vs(&["ab", "ab", "b"]);
    assert_eq!(matching_prefixes(b"abc", &candidates), vs(&["ab", "ab"]));
    assert!(is_sorted_ascending(&candidates));
    assert_eq!(
        matching_prefixes_sorted(b"abc", &candidates),
        vs(&["ab", "ab"])
    );
}

#[test]
fn linear_preserves_input_order() {
    let candidates = vs(&["hello", "he", "zzz", "hell"]);
    assert_eq!(
        matching_prefixes(b"hello", &candidates),
        vs(&["hello", "he", "hell"])
    );
}

#[test]
fn sorted_probe_ascending_length() {
    let candidates = vs(&["a", "aa", "aaa", "ab"]);
    assert!(is_sorted_ascending(&candidates));
    assert_eq!(
        matching_prefixes_sorted(b"aaa", &candidates),
        vs(&["a", "aa", "aaa"])
    );
}

#[test]
fn variants_agree_on_sorted_input() {
    let candidates = vs(&["he", "hell", "hello", "help", "world"]);
    assert!(is_sorted_ascending(&candidates));
    let mut linear = matching_prefixes(b"hello world", &candidates);
    let mut probed = matching_prefixes_sorted(b"hello world", &candidates);
    linear.sort();
    probed.sort();
    assert_eq!(linear, probed);
}

#[test]
fn byte_oriented_not_character_oriented() {
    // Multi-byte UTF-8 text: matching is on raw bytes, and a prefix may
    // split a character's byte sequence.
    let subject = "héllo".as_bytes();
    let mut candidates = vec![v("h"), v("hé")];
    candidates.push(subject[..2].to_vec());
    let matches = matching_prefixes(subject, &candidates);
    assert_eq!(matches.len(), 3);
}

#[test]
fn is_prefix_basics() {
    assert!(is_prefix(&v(""), b""));
    assert!(is_prefix(&v(""), b"a"));
    assert!(is_prefix(&v("ab"), b"abc"));
    assert!(!is_prefix(&v("abc"), b"ab"));
    assert!(!is_prefix(&v("b"), b"abc"));
}

#[test]
fn sortedness_check() {
    assert!(is_sorted_ascending(&Vec::new()));
    assert!(is_sorted_ascending(&vs(&["only"])));
    assert!(is_sorted_ascending(&vs(&["ab", "abc"])));
    assert!(is_sorted_ascending(&vs(&["ab", "ab", "b"])));
    assert!(!is_sorted_ascending(&vs(&["abc", "ab"])));
    assert!(!is_sorted_ascending(&vs(&["b", "a"])));
}

#[test]
fn unsorted_input_linear_still_complete() {
    // The linear filter needs no preprocessing and stays correct on
    // unsorted candidates.
    let candidates = vs(&["world", "hello", "h"]);
    assert_eq!(
        matching_prefixes(b"hello", &candidates),
        vs(&["hello", "h"])
    );
}
