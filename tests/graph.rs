use wordset::codec::{from_bytes, DecodeError};
use wordset::dawg::Dawg;
use wordset::pattern::parse_word;
use wordset::trie::{ExtractError, Trie};

#[test]
fn graph_matches_tree() {
    for p in ["c.t", "[ab]c[d-f]", "", "hello", "[a-c][a-c][a-c]", "a[z-a]"] {
        let t = Trie::str(p);
        let d = Dawg::str(p);
        assert_eq!(d.strings(), t.strings());
        assert_eq!(d.len(), t.len());
        assert_eq!(d.has_all(p), t.has_all(p));
        assert_eq!(d.is_empty(), t.is_empty());
    }
}

#[test]
fn graph_shares_levels() {
    // one node per position plus the shared accepting node
    let d = Dawg::str("[a-c][a-c][a-c]");
    assert_eq!(d.nodes.len(), 4);
    assert_eq!(d.len(), 27);
    let t = Trie::str("[a-c][a-c][a-c]");
    let m = Dawg::from_trie(&t);
    assert_eq!(m.nodes.len(), 4);
    let mut u = Dawg::str("ab").or(&Dawg::str("cb"));
    u.merge();
    assert_eq!(u.strings(), vec!["ab".to_string(), "cb".to_string()]);
    assert_eq!(Dawg::str("ab").and(&Dawg::str("[a-c]b")).strings(), vec!["ab".to_string()]);
    assert!(Dawg::str("ab").diff(&Dawg::str("ab")).is_empty());
    assert!(Dawg::empty().is_empty());
    assert!(Dawg::str("").is_leaf());
    assert_eq!(Dawg::all(2).len(), 676);
}

#[test]
fn save_and_reload() {
    let mut t = Trie::empty();
    t.add_assign("cat");
    t.add_assign("car");
    let bytes = t.to_bytes();
    let back = from_bytes(&bytes).unwrap();
    assert!(back.has_all("cat"));
    assert!(back.has_all("car"));
    assert_eq!(back.and(&Trie::str("ca.")).strings(), vec!["car".to_string(), "cat".to_string()]);
    assert_eq!(back.strings(), t.strings());
}

#[test]
fn binary_records() {
    // root: child `a`; then `a`: end
    let t = Trie::str("a");
    assert_eq!(t.to_bytes(), vec![0, 0, 0, 1, 4, 0, 0, 0]);
    let truncated = vec![0u8, 0, 0, 1, 4, 0, 0];
    assert_eq!(from_bytes(&truncated).err(), Some(DecodeError::Truncated));
    assert_eq!(from_bytes(&vec![]).err(), Some(DecodeError::Truncated));
}

#[test]
fn extract_slices() {
    let t = Trie::str("c.t");
    let q = Trie::str("c.t");
    let got = t.extract(&q);
    assert_eq!(got.len(), 26);
    for r in got.iter() {
        let node = r.as_ref().unwrap();
        assert!(node.is_end);
    }
    let q2 = Trie::str("c[ab]x");
    let got2 = t.extract(&q2);
    assert_eq!(got2.len(), 2);
    for r in got2.iter() {
        assert_eq!(r.as_ref().err(), Some(&ExtractError { symbol: 'x' }));
    }
    let q3 = Trie::str("d");
    let got3 = t.extract(&q3);
    assert_eq!(got3.len(), 1);
    assert!(got3[0].is_err());
    let prefix = Trie::str("c");
    let got4 = t.extract(&prefix);
    assert_eq!(got4.len(), 1);
    assert_eq!(got4[0].as_ref().unwrap().strings().len(), 26);
}

#[test]
fn algebra_laws_on_values() {
    let x = Trie::str("[a-d]x");
    let y = Trie::str("[c-f]x");
    assert_eq!(x.and(&y).strings(), y.and(&x).strings());
    assert_eq!(x.and(&x).strings(), x.strings());
    assert_eq!(x.or(&Trie::empty()).strings(), x.strings());
    assert!(x.diff(&x).is_empty());
    assert_eq!(x.diff(&y).strings(), vec!["ax".to_string(), "bx".to_string()]);
    // the set of a pattern is empty exactly when a position is dead
    assert!(Trie::word(parse_word("a[z-a]").unwrap()).is_empty());
    assert!(!Trie::word(parse_word("a[a-z]").unwrap()).is_empty());
    // (T + w) - w gives T back when w was absent
    let t = Trie::str("[xy]z");
    let back = t.add("ab").sub("ab");
    assert_eq!(back.strings(), t.strings());
    // a string matched by a pattern is held, and listed once
    let p = Trie::str("[ab]c[d-f]");
    assert!(p.has_all("bce"));
    assert_eq!(p.strings().iter().filter(|s| s.as_str() == "bce").count(), 1);
    assert!(p.has_any_of(&Trie::str("bc.")));
    assert!(p.has_all_of(&Trie::str("ac[de]")));
    assert!(!p.has_all_of(&Trie::str("ac[dz]")));
}

#[test]
fn prune_and_clear() {
    let mut t = Trie::str("ab").diff(&Trie::str("ab"));
    assert!(!t.is_leaf());
    t.prune();
    assert!(t.is_leaf());
    let mut u = Trie::str("").or(&Trie::str("q"));
    u.clear();
    assert_eq!(u.strings(), vec!["".to_string()]);
    let mut v = Trie::all(1);
    v.sub_assign("[b-z]");
    assert_eq!(v.strings(), vec!["a".to_string()]);
    assert!(v.has_word(&parse_word("[ab]").unwrap()));
    assert!(!v.has_all_word(&parse_word("[ab]").unwrap()));
    let mut w = Trie::empty();
    let lines = vec!["ab".to_string(), "c[de]".to_string()];
    assert!(w.load_words(&lines).is_ok());
    assert_eq!(w.len(), 3);
    let bad = vec!["ab".to_string(), "c]".to_string()];
    let mut w2 = Trie::empty();
    assert_eq!(w2.load_words(&bad).err().map(|(k, _)| k), Some(1));
    assert_eq!(w2.strings(), vec!["ab".to_string()]);
}

#[test]
fn graph_membership_walk() {
    let d = Dawg::str("c[ao]t");
    assert!(d.contains("cat"));
    assert!(d.contains("cot"));
    assert!(!d.contains("cut"));
    assert!(!d.contains("ca"));
    assert!(!d.contains("caT"));
    let live = d.live_nodes();
    assert_eq!(live.len(), d.nodes.len());
    assert!(live[d.root]);
    let dead = Dawg::str("c[z-a]t");
    assert!(dead.is_empty());
    assert!(!dead.contains("cat"));
}

#[test]
fn save_bytes_of_cat_and_car() {
    let t = Trie::str("cat").add("car");
    assert_eq!(
        t.to_bytes(),
        vec![0, 0, 0, 4, 0, 0, 0, 1, 0, 0x0A, 0, 0, 4, 0, 0, 0, 4, 0, 0, 0]
    );
}

#[test]
fn extract_missing_branch_only() {
    let t = Trie::str("c.t");
    let q = Trie::str("dog");
    let mut it = t.extract_iter(&q);
    assert_eq!(it.next().map(|r| r.err()), Some(Some(ExtractError { symbol: 'd' })));
    assert!(it.next().is_none());
}

#[test]
fn union_with_empty_keeps_tree() {
    let t = Trie::str("[ab]c").or(&Trie::str("").or(&Trie::str("q"))).sub("q");
    assert_eq!(t.or(&Trie::empty()).to_bytes(), t.to_bytes());
    assert!(Trie::str("").is_leaf());
}
