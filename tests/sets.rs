use rand::Rng;
use wordset::letter::Letter;
use wordset::pattern::unparse_word;
use wordset::trie::Trie;
use wordset::word::Word;

/// A random pattern text: a geometrically long pattern (at most 20
/// positions), each symbol kept with probability one in four.
fn random_pattern() -> String {
    let mut rng = rand::thread_rng();
    let geo_len = rng.gen::<f64>().log(0.9).floor();
    let len = (geo_len as usize).min(20);
    let mut w = Word::new();
    for _ in 0..len {
        let mut mask = [false; 26];
        for b in mask.iter_mut() {
            *b = rng.gen_bool(0.25);
        }
        w.push(Letter { mask });
    }
    unparse_word(&w)
}

/// A random pattern text of at most `max_len` characters without dead
/// positions.
fn random_live_pattern(max_len: usize) -> String {
    loop {
        let p = random_pattern();
        if p.len() <= max_len && !p.contains("[z-a]") {
            return p;
        }
    }
}

fn sample_patterns() -> Vec<String> {
    let mut v: Vec<String> = ["", "a", "hello", "[ab]c[d-f]", ".", "[f-m]x", "c.t"]
        .iter()
        .map(|s| s.to_string())
        .collect();
    v.push(random_live_pattern(15));
    v
}

#[test]
fn nothing() {
    // an empty trie should match no words
    let trie = Trie::empty();
    for p in sample_patterns() {
        assert!(!trie.has(&p));
    }
}

#[test]
fn char() {
    // a trie generated from a single character should contain that character
    for c in 'a'..='z' {
        let s = String::from(c);
        let word = s.as_str();
        let trie = Trie::str(word);
        assert!(trie.has(word))
    }
}

#[test]
fn word() {
    // a trie generated from a word should contain that word
    for p in sample_patterns() {
        assert!(Trie::str(&p).has_all(&p));
    }
}

#[test]
fn has() {
    // adding a word to a trie should result in a trie containing that word
    let trie = Trie::empty();
    for p in sample_patterns() {
        assert!(trie.add(&p).has_all(&p));
    }
}

#[test]
fn empty_sub() {
    // subtracting anything from the empty trie should have no change
    let trie = Trie::empty();
    for p in sample_patterns() {
        assert!(trie.sub(&p).is_empty());
    }
}

#[test]
fn add_sub() {
    // adding and then subtracting a word should have no change
    let trie = Trie::empty();
    for p in sample_patterns() {
        assert!(trie.add(&p).sub(&p).is_empty());
    }
}

#[test]
fn word_sub() {
    // subtracting a word from a word trie should give the empty trie
    for p in sample_patterns() {
        assert!(Trie::str(&p).sub(&p).is_empty());
    }
}

#[test]
fn or_unit() {
    // the empty trie should be the unit of or
    for p in sample_patterns() {
        let trie = Trie::str(&p).or(&Trie::str("[a-c]d"));
        assert_eq!(trie.or(&Trie::empty()).strings(), trie.strings());
    }
}
