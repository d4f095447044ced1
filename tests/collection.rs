use wordset::trie::Trie;

fn strs(v: &[&str]) -> Vec<String> {
    v.iter().map(|s| s.to_string()).collect()
}

#[test]
fn is_leaf() {
    // an empty trie should be a leaf
    let trie = Trie::empty();
    assert!(trie.is_leaf());
}

#[test]
fn is_empty() {
    // an empty trie should have no words
    let trie = Trie::empty();
    assert!(trie.is_empty());
}

#[test]
fn len_0() {
    // an empty trie should be of length 0
    let trie = Trie::empty();
    assert_eq!(trie.len(), 0);
}

#[test]
fn test_empty() {
    // an empty word should produce a trie that has an end but is a leaf
    let trie = Trie::str("");
    assert!(trie.is_end);
    assert!(trie.is_leaf());
    // a trie generated from an empty word should contain the empty word
    assert!(trie.has(""));
}

#[test]
fn single_char() {
    // a single character will produce only that character
    let trie = Trie::str("a");
    let mut it = trie.strings().into_iter();
    assert_eq!(it.next(), Some(String::from("a")));
    assert_eq!(it.next(), None);
}

#[test]
fn single_word() {
    // a single word will produce only that word
    let trie = Trie::str("hello");
    let mut it = trie.strings().into_iter();
    assert_eq!(it.next(), Some(String::from("hello")));
    assert_eq!(it.next(), None);
}

#[test]
fn wildcard() {
    // the '.' wildcard should match every letter
    let trie = Trie::str(".");
    let expected: Vec<String> = ('a'..='z').map(String::from).collect();
    assert_eq!(trie.strings(), expected);
}

#[test]
fn ranges() {
    // we should be able to represent character ranges
    let trie = Trie::str("[f-m]");
    let expected: Vec<String> = ('f'..='m').map(String::from).collect();
    assert_eq!(trie.strings(), expected);
}

#[test]
fn char_group() {
    // we should be able to represent character groups
    let trie = Trie::str("[fiep]");
    let mut it = trie.strings().into_iter();
    assert_eq!(it.next(), Some(String::from("e")));
    assert_eq!(it.next(), Some(String::from("f")));
    assert_eq!(it.next(), Some(String::from("i")));
    assert_eq!(it.next(), Some(String::from("p")));
    assert_eq!(it.next(), None);
}

#[test]
fn char_range_group() {
    // we should be able to use multiple ranges in a group
    let trie = Trie::str("[f-hp-t]");
    let mut it = trie.strings().into_iter();
    assert_eq!(it.next(), Some(String::from("f")));
    assert_eq!(it.next(), Some(String::from("g")));
    assert_eq!(it.next(), Some(String::from("h")));
    assert_eq!(it.next(), Some(String::from("p")));

    assert_eq!(it.next(), Some(String::from("q")));
    assert_eq!(it.next(), Some(String::from("r")));
    assert_eq!(it.next(), Some(String::from("s")));
    assert_eq!(it.next(), Some(String::from("t")));

    assert_eq!(it.next(), None);
}

#[test]
fn mixed_group() {
    // we should be able to use a mix of ranges and characters in a group
    let trie = Trie::str("[f-hmop-t]");
    let mut it = trie.strings().into_iter();
    assert_eq!(it.next(), Some(String::from("f")));
    assert_eq!(it.next(), Some(String::from("g")));
    assert_eq!(it.next(), Some(String::from("h")));

    assert_eq!(it.next(), Some(String::from("m")));
    assert_eq!(it.next(), Some(String::from("o")));

    assert_eq!(it.next(), Some(String::from("p")));
    assert_eq!(it.next(), Some(String::from("q")));
    assert_eq!(it.next(), Some(String::from("r")));
    assert_eq!(it.next(), Some(String::from("s")));
    assert_eq!(it.next(), Some(String::from("t")));

    assert_eq!(it.next(), None);
}

#[test]
fn two_group() {
    // using two groups should give the cartesian product of both
    let trie = Trie::str("[ab][cd]");
    let mut it = trie.strings().into_iter();
    assert_eq!(it.next(), Some(String::from("ac")));
    assert_eq!(it.next(), Some(String::from("ad")));
    assert_eq!(it.next(), Some(String::from("bc")));
    assert_eq!(it.next(), Some(String::from("bd")));
    assert_eq!(it.next(), None);
}

#[test]
fn mixed_all() {
    // using mixtures of groups, ranges and character should work
    let trie = Trie::str("[ab]c[d-f]");
    let mut it = trie.strings().into_iter();
    assert_eq!(it.next(), Some(String::from("acd")));
    assert_eq!(it.next(), Some(String::from("ace")));
    assert_eq!(it.next(), Some(String::from("acf")));

    assert_eq!(it.next(), Some(String::from("bcd")));
    assert_eq!(it.next(), Some(String::from("bce")));
    assert_eq!(it.next(), Some(String::from("bcf")));
    assert_eq!(it.next(), None);
}

#[test]
fn strings_sorted_and_counted() {
    let trie = Trie::str("[ca]b");
    assert_eq!(trie.strings(), strs(&["ab", "cb"]));
    assert_eq!(trie.len(), 2);
}
