use wordset::dawg::Dawg;
use wordset::pattern::parse_word;
use wordset::set_traits::{with_word, without_word, StringSet};
use wordset::trie::Trie;

#[test]
fn depth_first_steps() {
    let t = Trie::str("[ab]c");
    let mut walk = t.dfs();
    let mut steps: Vec<Option<char>> = Vec::new();
    while let Some((_, step)) = walk.next() {
        steps.push(step);
    }
    assert_eq!(
        steps,
        vec![Some('a'), Some('c'), None, None, Some('b'), Some('c'), None, None, None]
    );
}

#[test]
fn widths_count_by_length() {
    let t = Trie::str("[ab]c").or(&Trie::str("")).or(&Trie::str("[xyz]"));
    assert_eq!(t.widths(), vec![1, 3, 2]);
    assert_eq!(Trie::empty().widths(), vec![0]);
}

#[test]
fn child_access() {
    let mut t = Trie::str("ab");
    assert!(t.get_child('a').is_some());
    assert!(t.get_child('b').is_none());
    assert_eq!(t.chars(), vec!['a']);
    t.set_child('q', Some(Trie::str("z")));
    assert_eq!(t.chars(), vec!['a', 'q']);
    assert_eq!(t.strings(), vec!["ab".to_string(), "qz".to_string()]);
    t.set_child('a', None);
    t.set_end(true);
    assert!(t.is_end());
    assert_eq!(t.strings(), vec!["".to_string(), "qz".to_string()]);
}

#[test]
fn iterators_hand_out_in_order() {
    let t = Trie::str("[ba]");
    let mut it = t.string_iter();
    assert_eq!(it.next().as_deref(), Some("a"));
    assert_eq!(it.next().as_deref(), Some("b"));
    assert_eq!(it.next(), None);
    let q = Trie::str("[bc]");
    let mut ex = t.extract_iter(&q);
    assert!(ex.next().unwrap().unwrap().is_end);
    assert_eq!(ex.next().unwrap().err().map(|e| e.symbol), Some('c'));
    assert!(ex.next().is_none());
}

fn add_then_remove<S: StringSet>(base: &S) -> Vec<String> {
    let w = parse_word("q[rs]").unwrap();
    let added = with_word(base, w.clone());
    assert!(added.has_every_word(&w));
    without_word(&added, w).listing()
}

#[test]
fn generic_operations_agree() {
    let t = Trie::str("[ab]c");
    let d = Dawg::str("[ab]c");
    assert_eq!(add_then_remove(&t), vec!["ac".to_string(), "bc".to_string()]);
    assert_eq!(add_then_remove(&d), vec!["ac".to_string(), "bc".to_string()]);
    assert!(<Trie as StringSet>::empty_set().holds_none());
    assert!(<Dawg as StringSet>::empty_set().holds_none());
    let w = parse_word("[ab]").unwrap();
    assert!(<Dawg as StringSet>::from_word(w.clone()).has_any_word(&w));
}

#[test]
fn widths_count_dead_levels() {
    let t = Trie::str("").or(&Trie::str("a")).sub("a");
    assert_eq!(t.widths(), vec![1, 0]);
    assert_eq!(Trie::str("[ab]c").widths(), vec![0, 0, 2]);
}
