use wordset::letter::{from_index, into_index, Letter, SymbolError};
use wordset::pattern::{parse_letter_text, parse_word, unparse_letter, unparse_word, ParseErrorKind};
use wordset::trie::Trie;
use wordset::word::{StringIter, Word};

fn letter_of(s: &str) -> Letter {
    let mut l = Letter::none();
    for c in s.chars() {
        l.insert(c);
    }
    l
}

#[test]
fn dot_accepts_every_symbol() {
    let w = parse_word(".").unwrap();
    assert_eq!(w.len(), 1);
    assert_eq!(w.letters()[0].len(), 26);
    let expected: Vec<String> = ('a'..='z').map(String::from).collect();
    assert_eq!(Trie::word(w).strings(), expected);
}

#[test]
fn open_ranges() {
    assert_eq!(parse_letter_text("[-c]").unwrap(), letter_of("abc"));
    assert_eq!(parse_letter_text("[w-]").unwrap(), letter_of("wxyz"));
    assert_eq!(parse_letter_text("[-]").unwrap(), Letter::all());
    assert_eq!(parse_letter_text("[a-d]").unwrap(), letter_of("abcd"));
    assert_eq!(parse_letter_text("[z-a]").unwrap(), Letter::none());
}

#[test]
fn parse_errors() {
    let e = parse_word("ab5c").unwrap_err();
    assert_eq!(e.code, ParseErrorKind::UnexpectedChar);
    assert_eq!(e.input, "5c");
    let e = parse_word("a[bc").unwrap_err();
    assert_eq!(e.code, ParseErrorKind::UnmatchedBracket);
    assert_eq!(e.input, "[bc");
    let e = parse_word("A").unwrap_err();
    assert_eq!(e.code, ParseErrorKind::UnexpectedChar);
    assert_eq!(e.input, "A");
    let e = parse_word("x[]").unwrap_err();
    assert_eq!(e.code, ParseErrorKind::UnexpectedChar);
    assert_eq!(e.input, "]");
    let e = parse_word("a*").unwrap_err();
    assert_eq!(e.input, "*");
    let e = parse_letter_text("ab").unwrap_err();
    assert_eq!(e.input, "b");
}

#[test]
fn unparse_forms() {
    assert_eq!(unparse_letter(&Letter::all()), ".");
    assert_eq!(unparse_letter(&letter_of("q")), "q");
    assert_eq!(unparse_letter(&letter_of("bcdf")), "[b-df]");
    assert_eq!(unparse_letter(&letter_of("ab")), "[a-b]");
    assert_eq!(unparse_letter(&letter_of("az")), "[az]");
    assert_eq!(unparse_letter(&Letter::none()), "[z-a]");
    let w = parse_word("[a]x[fiep].[b-df]").unwrap();
    assert_eq!(unparse_word(&w), "ax[e-fip].[b-df]");
}

#[test]
fn round_trip_keeps_symbol_sets() {
    for p in ["[a]", "[fiep]", "[-c][w-]", ".", "[a-z]", "[abcxyz]q", "[f-hmop-t]", "a[z-a]", "[c-b]"] {
        let w = parse_word(p).unwrap();
        let back = parse_word(&unparse_word(&w)).unwrap();
        assert_eq!(back, w);
    }
}

#[test]
fn letter_set_operations() {
    let mut l = letter_of("abc");
    assert!(l.contains('b'));
    assert!(!l.contains('z'));
    assert!(!l.contains('5'));
    assert!(!l.insert('d'));
    assert!(l.insert('d'));
    assert!(l.delete('a'));
    assert!(!l.delete('a'));
    assert_eq!(l, letter_of("bcd"));
    assert!(letter_of("bc").subset(&l));
    assert!(l.superset(&letter_of("cd")));
    assert!(!l.subset(&letter_of("cd")));
    let mut m = l;
    m.intersect(&letter_of("cdxy"));
    assert_eq!(m, letter_of("cd"));
    let mut n = l;
    n.remove(&letter_of("c"));
    assert_eq!(n, letter_of("bd"));
    let mut r = Letter::all();
    r.retain(|c| c < 'd');
    assert_eq!(r, letter_of("abc"));
    assert!(!l.insert('5'));
    assert!(!l.delete('Z'));
    assert_eq!(l, letter_of("bcd"));
    let mut e = letter_of("b");
    e.extend(&vec!['x', 'y']);
    assert_eq!(e, letter_of("bxy"));
    e.clear();
    assert!(e.is_empty());
    assert_eq!(Letter::singleton('k'), letter_of("k"));
    assert_eq!(letter_of("hello").chars(), vec!['e', 'h', 'l', 'o']);
    assert_eq!(letter_of("hello").indices(), vec![4, 7, 11, 14]);
    assert_eq!(letter_of("hello").peek_idx(), Some(4));
    assert!(letter_of("z").has_idx(25));
    assert!(!letter_of("z").has_idx(26));
    let mut it = letter_of("ca");
    assert_eq!(it.next(), Some('a'));
    assert_eq!(it.next(), Some('c'));
    assert_eq!(it.next(), None);
}

#[test]
fn symbol_errors() {
    assert_eq!(Letter::try_from_alpha('Q'), Err(SymbolError { symbol: 'Q' }));
    assert_eq!(Letter::try_from_alpha('q'), Ok(letter_of("q")));
    assert_eq!(Letter::try_from_iter(&vec!['a', '!', '?']), Err(SymbolError { symbol: '!' }));
    assert_eq!(Letter::try_from_iter(&vec!['a', 'c']), Ok(letter_of("ac")));
    assert_eq!(into_index('c'), 2);
    assert_eq!(from_index(25), 'z');
}

#[test]
fn word_editing() {
    let mut w = Word::new();
    w.push(letter_of("a"));
    w.push(letter_of("b"));
    w.push(letter_of("c"));
    assert_eq!(w.pop(), Some(letter_of("a")));
    assert_eq!(w.pop_back(), Some(letter_of("c")));
    let (head, rest) = w.split().unwrap();
    assert_eq!(head, letter_of("b"));
    assert_eq!(rest.len(), 0);
    assert!(rest.split().is_none());
}

#[test]
fn word_enumeration() {
    let w = parse_word("[ab][cd]").unwrap();
    let mut it = StringIter::new(w);
    assert_eq!(it.next().as_deref(), Some("ac"));
    assert_eq!(it.next().as_deref(), Some("ad"));
    assert_eq!(it.next().as_deref(), Some("bc"));
    assert_eq!(it.next().as_deref(), Some("bd"));
    assert_eq!(it.next(), None);
    // a dead position matches nothing, without error
    let dead = parse_word("a[z-a]b").unwrap();
    assert!(dead.has_empty_letter());
    assert!(dead.strings().is_empty());
}

#[test]
fn odometer_restarts() {
    let w = parse_word("[ab]c[d-f]").unwrap();
    let mut it = StringIter::new(w);
    let mut first: Vec<String> = Vec::new();
    while let Some(s) = it.next() {
        first.push(s);
    }
    assert_eq!(first, vec!["acd", "ace", "acf", "bcd", "bce", "bcf"]);
    assert_eq!(it.next(), None);
    it.restart();
    assert_eq!(it.next().as_deref(), Some("acd"));
    let mut dead = StringIter::new(parse_word("a[z-a]").unwrap());
    assert_eq!(dead.next(), None);
    let mut empty = StringIter::new(Word::new());
    assert_eq!(empty.next().as_deref(), Some(""));
    assert_eq!(empty.next(), None);
}
