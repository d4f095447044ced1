//! The pattern language: `.`, a symbol `a`..`z`, or a bracketed group of
//! symbols and ranges (`[a-f]`, `[-c]`, `[w-]`, `[b-df]`), one per position.
use vstd::prelude::*;
use crate::letter::{
    Letter, is_symbol, index_of, symbol_at, range_set, into_index, from_index, within_alphabet,
};
use crate::word::{Word, all_within};

verus! {

/// What made a pattern fail to parse.
#[derive(Clone, Copy, Debug, PartialEq, Eq, Structural)]
pub enum ParseErrorKind {
    /// A character that no rule of the grammar accepts where it stands.
    UnexpectedChar,
    /// A `[` whose group is never closed.
    UnmatchedBracket,
}

/// A failed parse: the input from the offending position on, and why.
#[derive(Clone, Debug, PartialEq, Eq)]
pub struct ParseError {
    pub input: String,
    pub code: ParseErrorKind,
}

/// What parsing one letter gives: its symbols and where the next letter
/// starts, or the offending position and why.
pub type LetterParse = Result<(Set<int>, int), (int, ParseErrorKind)>;

/// The rest of a group whose `[` stands at `open`, read from position `j`;
/// `acc` holds the symbols read so far and `any` whether a range was read.
pub open spec fn group_spec(s: Seq<char>, j: int, acc: Set<int>, any: bool, open: int) -> LetterParse
    decreases s.len() - j,
{
    if j < 0 || j >= s.len() {
        Err((open, ParseErrorKind::UnmatchedBracket))
    } else if s[j] == ']' {
        if any {
            Ok((acc, j + 1))
        } else {
            Err((j, ParseErrorKind::UnexpectedChar))
        }
    } else if is_symbol(s[j]) {
        if j + 1 < s.len() && s[j + 1] == '-' {
            if j + 2 < s.len() && is_symbol(s[j + 2]) {
                group_spec(
                    s,
                    j + 3,
                    acc.union(range_set(index_of(s[j]), index_of(s[j + 2]))),
                    true,
                    open,
                )
            } else {
                group_spec(s, j + 2, acc.union(range_set(index_of(s[j]), 25)), true, open)
            }
        } else {
            group_spec(s, j + 1, acc.insert(index_of(s[j])), true, open)
        }
    } else if s[j] == '-' {
        if j + 1 < s.len() && is_symbol(s[j + 1]) {
            group_spec(s, j + 2, acc.union(range_set(0, index_of(s[j + 1]))), true, open)
        } else {
            group_spec(s, j + 1, acc.union(range_set(0, 25)), true, open)
        }
    } else {
        Err((j, ParseErrorKind::UnexpectedChar))
    }
}

/// The letter that starts at position `i`.
pub open spec fn letter_spec(s: Seq<char>, i: int) -> LetterParse {
    if i < 0 || i >= s.len() {
        Err((i, ParseErrorKind::UnexpectedChar))
    } else if s[i] == '.' {
        Ok((range_set(0, 25), i + 1))
    } else if is_symbol(s[i]) {
        Ok((set![index_of(s[i])], i + 1))
    } else if s[i] == '[' {
        group_spec(s, i + 1, Set::empty(), false, i)
    } else {
        Err((i, ParseErrorKind::UnexpectedChar))
    }
}

/// The letters of `s` from position `i` to its end, or the first failure.
pub open spec fn word_spec(s: Seq<char>, i: int) -> Result<Seq<Set<int>>, (int, ParseErrorKind)>
    decreases s.len() - i,
{
    if i >= s.len() {
        Ok(Seq::empty())
    } else {
        match letter_spec(s, i) {
            Err(e) => Err(e),
            Ok((l, j)) => if j <= i || j > s.len() {
                Err((i, ParseErrorKind::UnexpectedChar))
            } else {
                match word_spec(s, j) {
                    Err(e) => Err(e),
                    Ok(w) => Ok(seq![l] + w),
                }
            },
        }
    }
}

/// The pattern `s` as symbol sets, or where and why it fails.
pub open spec fn parse_spec(s: Seq<char>) -> Result<Seq<Set<int>>, (int, ParseErrorKind)> {
    word_spec(s, 0)
}

/// The text of one range of a group.
pub open spec fn piece(lo: int, hi: int) -> Seq<char> {
    if lo == hi {
        seq![symbol_at(lo)]
    } else {
        seq![symbol_at(lo), '-', symbol_at(hi)]
    }
}

/// The inside of a group for the indices of `l` from `i` on, runs of
/// consecutive indices written as ranges; `start` is where the run that
/// reaches `i - 1` began, or negative where there is none.
pub open spec fn group_text(l: Set<int>, i: int, start: int) -> Seq<char>
    decreases 26 - i,
{
    if i >= 26 {
        if start >= 0 {
            piece(start, 25)
        } else {
            Seq::empty()
        }
    } else if l.contains(i) {
        if start >= 0 {
            group_text(l, i + 1, start)
        } else {
            group_text(l, i + 1, i)
        }
    } else if start >= 0 {
        piece(start, i - 1) + group_text(l, i + 1, -1)
    } else {
        group_text(l, i + 1, -1)
    }
}

/// The text of a letter: `.` for every symbol, the symbol itself for one,
/// the reversed range `[z-a]` for none, and a group otherwise.
pub open spec fn letter_text(l: Set<int>) -> Seq<char> {
    if l == Set::<int>::empty() {
        seq!['[', 'z', '-', 'a', ']']
    } else if l == range_set(0, 25) {
        seq!['.']
    } else if exists|i: int| l == set![i] {
        seq![symbol_at(choose|i: int| l == set![i])]
    } else {
        seq!['['] + group_text(l, 0, -1) + seq![']']
    }
}

/// The text of a pattern: its letters' texts one after another.
pub open spec fn word_text(w: Seq<Set<int>>) -> Seq<char>
    decreases w.len(),
{
    if w.len() == 0 {
        Seq::empty()
    } else {
        letter_text(w[0]) + word_text(w.drop_first())
    }
}

/// Relies on `String::from_iter`: the string holds the characters given, in order.
#[verifier::external_body]
pub(crate) fn string_of(cs: &Vec<char>) -> (r: String)
    ensures
        r@ == cs@,
{
    String::from_iter(cs.iter())
}

/// The characters of `s`.
pub(crate) fn chars_of(s: &str) -> (r: Vec<char>)
    ensures
        r@ == s@,
{
    let n = s.unicode_len();
    let mut r: Vec<char> = Vec::new();
    let mut i: usize = 0;
    while i < n
        invariant
            n == s@.len(),
            i <= n,
            r@ == s@.subrange(0, i as int),
        decreases n - i,
    {
        r.push(s.get_char(i));
        i += 1;
        assert(r@ =~= s@.subrange(0, i as int));
    }
    r
}

fn is_symbol_char(c: char) -> (r: bool)
    ensures
        r == is_symbol(c),
{
    'a' <= c && c <= 'z'
}

/// The view of a letter parse done by the program.
pub open spec fn letter_result_view(r: Result<(Letter, usize), (usize, ParseErrorKind)>) -> LetterParse {
    match r {
        Ok((l, j)) => Ok((l@, j as int)),
        Err((p, k)) => Err((p as int, k)),
    }
}

/// Reads the rest of a group whose `[` stands at `open`, from position `start`.
fn parse_group(s: &Vec<char>, start: usize, open: usize) -> (r: Result<(Letter, usize), (usize, ParseErrorKind)>)
    requires
        open < start <= s@.len(),
    ensures
        letter_result_view(r) == group_spec(s@, start as int, Set::empty(), false, open as int),
        r matches Ok((_, j)) ==> start < j <= s@.len(),
        r matches Err((p, _)) ==> p < s@.len(),
{
    let mut acc = Letter::none();
    let mut any = false;
    let mut j: usize = start;
    while j < s.len()
        invariant
            open < start <= j <= s@.len(),
            any ==> start < j,
            group_spec(s@, j as int, acc@, any, open as int) == group_spec(
                s@,
                start as int,
                Set::empty(),
                false,
                open as int,
            ),
        decreases s@.len() - j,
    {
        let c = s[j];
        if c == ']' {
            if any {
                return Ok((acc, j + 1));
            } else {
                return Err((j, ParseErrorKind::UnexpectedChar));
            }
        } else if is_symbol_char(c) {
            if j + 1 < s.len() && s[j + 1] == '-' {
                if j + 2 < s.len() && is_symbol_char(s[j + 2]) {
                    let r = Letter::range(into_index(c), into_index(s[j + 2]));
                    acc.unite(&r);
                    j = j + 3;
                } else {
                    let r = Letter::range(into_index(c), 25);
                    acc.unite(&r);
                    j = j + 2;
                }
            } else {
                acc.insert(c);
                j = j + 1;
            }
        } else if c == '-' {
            if j + 1 < s.len() && is_symbol_char(s[j + 1]) {
                let r = Letter::range(0, into_index(s[j + 1]));
                acc.unite(&r);
                j = j + 2;
            } else {
                let r = Letter::all();
                acc.unite(&r);
                j = j + 1;
            }
        } else {
            return Err((j, ParseErrorKind::UnexpectedChar));
        }
        any = true;
    }
    Err((open, ParseErrorKind::UnmatchedBracket))
}

/// Reads the letter that starts at position `i`.
fn parse_letter(s: &Vec<char>, i: usize) -> (r: Result<(Letter, usize), (usize, ParseErrorKind)>)
    requires
        i < s@.len(),
    ensures
        letter_result_view(r) == letter_spec(s@, i as int),
        r matches Ok((_, j)) ==> i < j <= s@.len(),
        r matches Err((p, _)) ==> p < s@.len(),
{
    let n = s.len();
    let c = s[i];
    if c == '.' {
        Ok((Letter::all(), i + 1))
    } else if is_symbol_char(c) {
        Ok((Letter::singleton(c), i + 1))
    } else if c == '[' {
        parse_group(s, i + 1, i)
    } else {
        Err((i, ParseErrorKind::UnexpectedChar))
    }
}

/// The view of a pattern parse done by the program.
pub open spec fn word_result_view(r: Result<Word, ParseError>, s: Seq<char>) -> Result<
    Seq<Set<int>>,
    (int, ParseErrorKind),
> {
    match r {
        Ok(w) => Ok(w@),
        Err(e) => Err((s.len() - e.input@.len(), e.code)),
    }
}

/// Parses a pattern. On failure the error holds the input from the offending
/// position on: the character that no rule accepts, or the `[` that is never
/// closed.
pub fn parse_word(text: &str) -> (r: Result<Word, ParseError>)
    ensures
        word_result_view(r, text@) == parse_spec(text@),
        r matches Err(e) ==> {
            let p = text@.len() - e.input@.len();
            &&& 0 <= p < text@.len()
            &&& e.input@ == text@.subrange(p, text@.len() as int)
        },
{
    let s = chars_of(text);
    let mut w = Word::new();
    let mut i: usize = 0;
    while i < s.len()
        invariant
            s@ == text@,
            i <= s@.len(),
            word_spec(s@, 0) == match word_spec(s@, i as int) {
                Ok(rest) => Ok(w@ + rest),
                Err(e) => Err(e),
            },
        decreases s@.len() - i,
    {
        match parse_letter(&s, i) {
            Err((p, code)) => {
                let input = text.substring_char(p, s.len()).to_owned();
                return Err(ParseError { input, code });
            },
            Ok((l, j)) => {
                proof {
                    match word_spec(s@, j as int) {
                        Ok(rest) => {
                            assert(w@ + (seq![l@] + rest) =~= w@.push(l@) + rest);
                        },
                        Err(_) => {},
                    }
                }
                w.push(l);
                i = j;
            },
        }
    }
    assert(w@ + Seq::<Set<int>>::empty() =~= w@);
    Ok(w)
}

/// Whether the letter holds every symbol.
fn is_full(l: &Letter) -> (r: bool)
    ensures
        r == (l@ == range_set(0, 25)),
{
    let mut i: usize = 0;
    while i < 26
        invariant
            i <= 26,
            forall|k: int| 0 <= k < i ==> l.mask@[k],
        decreases 26 - i,
    {
        if !l.mask[i] {
            assert(!l@.contains(i as int) && range_set(0, 25).contains(i as int));
            return false;
        }
        i += 1;
    }
    assert(l@ =~= range_set(0, 25));
    true
}

/// The one index of a letter that holds exactly one symbol.
fn single_index(l: &Letter) -> (r: Option<usize>)
    ensures
        r is Some <==> exists|i: int| l@ == set![i],
        r matches Some(i) ==> i < 26 && l@ == set![i as int],
{
    match l.peek_idx() {
        None => {
            assert forall|i: int| l@ != set![i] by {
                assert(set![i].contains(i));
            }
            None
        },
        Some(i) => {
            assert(l@.contains(i as int));
            let mut k: usize = i + 1;
            while k < 26
                invariant
                    i < k <= 26,
                    l@.contains(i as int),
                    forall|m: int| i < m < k ==> !l.mask@[m],
                decreases 26 - k,
            {
                if l.mask[k] {
                    assert(l@.contains(k as int));
                    assert forall|x: int| l@ != set![x] by {
                        if l@ == set![x] {
                            assert(set![x].contains(i as int));
                            assert(set![x].contains(k as int));
                        }
                    }
                    return None;
                }
                k += 1;
            }
            assert(l@ =~= set![i as int]);
            Some(i)
        },
    }
}

/// The text of a letter: `.`, a symbol, or a group with runs written as ranges.
pub fn unparse_letter(l: &Letter) -> (r: String)
    ensures
        r@ == letter_text(l@),
{
    let mut out: Vec<char> = Vec::new();
    if l.is_empty() {
        out.push('[');
        out.push('z');
        out.push('-');
        out.push('a');
        out.push(']');
        assert(out@ =~= letter_text(l@));
        return string_of(&out);
    }
    if is_full(l) {
        out.push('.');
        assert(out@ =~= letter_text(l@));
        return string_of(&out);
    }
    match single_index(l) {
        Some(i) => {
            proof {
                let k = choose|k: int| l@ == set![k];
                assert(set![k].contains(i as int));
            }
            out.push(from_index(i));
            assert(out@ =~= letter_text(l@));
            return string_of(&out);
        },
        None => {},
    }
    out.push('[');
    let mut start: Option<usize> = None;
    let mut i: usize = 0;
    while i < 26
        invariant
            i <= 26,
            start matches Some(st) ==> st < i,
            out@ + group_text(l@, i as int, start_view(start)) == seq!['['] + group_text(
                l@,
                0,
                -1,
            ),
        decreases 26 - i,
    {
        if l.mask[i] {
            if start.is_none() {
                start = Some(i);
            }
        } else {
            match start {
                Some(st) => {
                    let ghost before = out@;
                    push_piece(&mut out, st, i - 1);
                    assert(before + (piece(st as int, i - 1) + group_text(l@, i + 1, -1))
                        =~= out@ + group_text(l@, i + 1, -1));
                    start = None;
                },
                None => {},
            }
        }
        i += 1;
    }
    match start {
        Some(st) => {
            push_piece(&mut out, st, 25);
        },
        None => {},
    }
    out.push(']');
    assert(out@ =~= letter_text(l@));
    string_of(&out)
}

/// The view of the start of an open run.
pub open spec fn start_view(start: Option<usize>) -> int {
    match start {
        Some(st) => st as int,
        None => -1,
    }
}

/// Appends the text of the range `lo..=hi`.
fn push_piece(out: &mut Vec<char>, lo: usize, hi: usize)
    requires
        lo <= hi < 26,
    ensures
        final(out)@ == old(out)@ + piece(lo as int, hi as int),
{
    out.push(from_index(lo));
    if lo != hi {
        out.push('-');
        out.push(from_index(hi));
    }
    assert(out@ =~= old(out)@ + piece(lo as int, hi as int));
}

/// The text of a pattern.
pub fn unparse_word(w: &Word) -> (r: String)
    ensures
        r@ == word_text(w@),
{
    let mut out: Vec<char> = Vec::new();
    let mut k: usize = 0;
    while k < w.letters.len()
        invariant
            k <= w@.len(),
            w@.len() == w.letters@.len(),
            out@ == word_text(w@.subrange(0, k as int)),
        decreases w@.len() - k,
    {
        let t = unparse_letter(&w.letters[k]);
        let tc = chars_of(t.as_str());
        proof {
            lemma_word_text_push(w@.subrange(0, k as int), w@[k as int]);
            assert(w@.subrange(0, k as int).push(w@[k as int]) =~= w@.subrange(0, k + 1));
        }
        out.extend_from_slice(tc.as_slice());
        k += 1;
    }
    assert(w@.subrange(0, w@.len() as int) =~= w@);
    string_of(&out)
}

/// The text of a pattern with a letter appended ends with that letter's text.
proof fn lemma_word_text_push(w: Seq<Set<int>>, l: Set<int>)
    ensures
        word_text(w.push(l)) == word_text(w) + letter_text(l),
    decreases w.len(),
{
    if w.len() == 0 {
        assert(w.push(l).drop_first() =~= Seq::<Set<int>>::empty());
        assert(w.push(l)[0] == l);
        assert(word_text(w.push(l).drop_first()) == Seq::<char>::empty());
        assert(word_text(w.push(l)) =~= word_text(w) + letter_text(l));
    } else {
        lemma_word_text_push(w.drop_first(), l);
        assert(w.push(l).drop_first() =~= w.drop_first().push(l));
        assert(w.push(l)[0] == w[0]);
        assert(word_text(w.push(l)) == letter_text(w[0]) + word_text(w.drop_first().push(l)));
        assert(word_text(w) == letter_text(w[0]) + word_text(w.drop_first()));
        let a = letter_text(w[0]);
        let b = word_text(w.drop_first());
        let c = letter_text(l);
        assert(a + (b + c) =~= (a + b) + c);
    }
}

/// The symbol of an index is a symbol, and its index is that index.
proof fn lemma_symbol(x: int)
    requires
        0 <= x < 26,
    ensures
        is_symbol(symbol_at(x)),
        index_of(symbol_at(x)) == x,
{
}

/// A non-empty group text starts with a symbol.
proof fn lemma_group_text_head(l: Set<int>, i: int, start: int)
    requires
        start < 26,
        start >= 0 ==> start < i,
        group_text(l, i, start).len() > 0,
    ensures
        is_symbol(group_text(l, i, start)[0]),
    decreases 26 - i,
{
    if i >= 26 {
        lemma_symbol(start);
    } else if l.contains(i) {
        if start >= 0 {
            lemma_group_text_head(l, i + 1, start);
        } else {
            lemma_group_text_head(l, i + 1, i);
        }
    } else if start >= 0 {
        lemma_symbol(start);
    } else {
        lemma_group_text_head(l, i + 1, -1);
    }
}

/// Where `s` holds `a + b` from position `j`, it holds `a` there and `b` after it.
pub proof fn lemma_split_at<A>(s: Seq<A>, j: int, a: Seq<A>, b: Seq<A>)
    requires
        0 <= j,
        j + a.len() + b.len() <= s.len(),
        s.subrange(j, j + a.len() + b.len()) == a + b,
    ensures
        s.subrange(j, j + a.len()) == a,
        s.subrange(j + a.len(), j + a.len() + b.len()) == b,
{
    let al = a.len() as int;
    let bl = b.len() as int;
    let whole = s.subrange(j, j + al + bl);
    assert(whole.len() == al + bl);
    assert forall|k: int| 0 <= k < al implies s.subrange(j, j + al)[k] == a[k] by {
        assert(whole[k] == (a + b)[k]);
        assert(whole[k] == s[j + k]);
    }
    assert forall|k: int| 0 <= k < bl implies s.subrange(j + al, j + al + bl)[k] == b[k] by {
        assert(whole[al + k] == (a + b)[al + k]);
        assert(whole[al + k] == s[j + al + k]);
        assert((a + b)[al + k] == b[k]);
    }
    assert(s.subrange(j, j + al) =~= a);
    assert(s.subrange(j + al, j + al + bl) =~= b);
}

/// Reading the text of a group back gives its symbols.
#[verifier::spinoff_prover]
#[verifier::rlimit(30)]
proof fn lemma_group_round_trip(
    s: Seq<char>,
    j: int,
    l: Set<int>,
    i: int,
    start: int,
    acc: Set<int>,
    any: bool,
    open: int,
)
    requires
        within_alphabet(l),
        0 <= i <= 26,
        0 <= j,
        start >= 0 ==> start < i && forall|k: int| start <= k < i ==> l.contains(k),
        j + group_text(l, i, start).len() < s.len(),
        s.subrange(j, j + group_text(l, i, start).len()) == group_text(l, i, start),
        s[j + group_text(l, i, start).len()] == ']',
        any || start >= 0 || exists|k: int| i <= k < 26 && l.contains(k),
    ensures
        group_spec(s, j, acc, any, open) == Ok::<(Set<int>, int), (int, ParseErrorKind)>(
            (
                acc.union(
                    l.intersect(
                        range_set(
                            if start >= 0 {
                                start
                            } else {
                                i
                            },
                            25,
                        ),
                    ),
                ),
                j + group_text(l, i, start).len() + 1,
            ),
        ),
    decreases 26 - i,
{
    let t = group_text(l, i, start);
    if i >= 26 {
        if start >= 0 {
            lemma_symbol(start);
            assert(s[j] == t[0]);
            if start == 25 {
                assert(acc.insert(25) =~= acc.union(l.intersect(range_set(25, 25))));
            } else {
                assert(s[j + 1] == t[1]);
                assert(s[j + 2] == t[2]);
                lemma_symbol(25);
                assert(acc.union(range_set(start, 25)) =~= acc.union(
                    l.intersect(range_set(start, 25)),
                ));
            }
        } else {
            assert(acc =~= acc.union(l.intersect(range_set(i, 25))));
        }
    } else if l.contains(i) {
        if start >= 0 {
            lemma_group_round_trip(s, j, l, i + 1, start, acc, any, open);
        } else {
            lemma_group_round_trip(s, j, l, i + 1, i, acc, any, open);
        }
    } else if start >= 0 {
        let p = piece(start, i - 1);
        let rest = group_text(l, i + 1, -1);
        assert(t == p + rest);
        lemma_symbol(start);
        assert(s[j] == t[0]);
        let after = l.intersect(range_set(i + 1, 25));
        if start == i - 1 {
            assert(s[j + 1] == t[1] || j + 1 == j + t.len());
            if rest.len() > 0 {
                lemma_group_text_head(l, i + 1, -1);
                assert(s[j + 1] == rest[0]);
            }
            lemma_split_at(s, j, p, rest);
            lemma_group_round_trip(s, j + 1, l, i + 1, -1, acc.insert(start), true, open);
            assert(acc.insert(start).union(after) =~= acc.union(
                l.intersect(range_set(start, 25)),
            ));
        } else {
            lemma_symbol(i - 1);
            assert(s[j + 1] == t[1]);
            assert(s[j + 2] == t[2]);
            lemma_split_at(s, j, p, rest);
            lemma_group_round_trip(
                s,
                j + 3,
                l,
                i + 1,
                -1,
                acc.union(range_set(start, i - 1)),
                true,
                open,
            );
            assert(acc.union(range_set(start, i - 1)).union(after) =~= acc.union(
                l.intersect(range_set(start, 25)),
            ));
        }
    } else {
        if !any {
            let k = choose|k: int| i <= k < 26 && l.contains(k);
            assert(i + 1 <= k);
        }
        lemma_group_round_trip(s, j, l, i + 1, -1, acc, any, open);
        assert(l.intersect(range_set(i + 1, 25)) =~= l.intersect(range_set(i, 25)));
    }
}

/// Reading the text of a non-empty letter back gives the letter.
proof fn lemma_letter_round_trip(s: Seq<char>, i: int, l: Set<int>)
    requires
        within_alphabet(l),
        0 <= i,
        i + letter_text(l).len() <= s.len(),
        s.subrange(i, i + letter_text(l).len()) == letter_text(l),
    ensures
        letter_spec(s, i) == Ok::<(Set<int>, int), (int, ParseErrorKind)>(
            (l, i + letter_text(l).len()),
        ),
{
    let u = letter_text(l);
    assert(s[i] == u[0]);
    if l == Set::<int>::empty() {
        assert(s[i + 1] == u[1]);
        assert(s[i + 2] == u[2]);
        assert(s[i + 3] == u[3]);
        assert(s[i + 4] == u[4]);
        let acc = Set::<int>::empty().union(range_set(index_of('z'), index_of('a')));
        assert(acc =~= l);
        assert(group_spec(s, i + 4, acc, true, i) == Ok::<(Set<int>, int), (int, ParseErrorKind)>((acc, i + 5)));
        assert(group_spec(s, i + 1, Set::empty(), false, i) == group_spec(s, i + 4, acc, true, i));
    } else if l == range_set(0, 25) {
    } else if exists|x: int| l == set![x] {
        let x = choose|x: int| l == set![x];
        assert(l.contains(x));
        lemma_symbol(x);
    } else {
        let t = group_text(l, 0, -1);
        assert(u == seq!['['] + t + seq![']']);
        lemma_split_at(s, i, seq!['['] + t, seq![']']);
        lemma_split_at(s, i, seq!['['], t);
        assert(s[i + 1 + t.len()] == u[t.len() + 1int]);
        let k = l.choose();
        assert(l.contains(k)) by {
            if !l.contains(k) {
                assert(l =~= Set::<int>::empty());
            }
        }
        lemma_group_round_trip(s, i + 1, l, 0, -1, Set::empty(), false, i);
        assert(Set::<int>::empty().union(l.intersect(range_set(0, 25))) =~= l);
    }
}

/// Reading the text of a pattern back from position `i` gives the pattern.
proof fn lemma_word_round_trip(s: Seq<char>, i: int, w: Seq<Set<int>>)
    requires
        all_within(w),
        0 <= i,
        s.len() == i + word_text(w).len(),
        s.subrange(i, s.len() as int) == word_text(w),
    ensures
        word_spec(s, i) == Ok::<Seq<Set<int>>, (int, ParseErrorKind)>(w),
    decreases w.len(),
{
    if w.len() == 0 {
        assert(w =~= Seq::<Set<int>>::empty());
    } else {
        let u = letter_text(w[0]);
        let rest = word_text(w.drop_first());
        assert(word_text(w) == u + rest);
        assert(u.len() > 0) by {
            if w[0] == Set::<int>::empty() {
            } else if w[0] == range_set(0, 25) {
            } else if exists|x: int| w[0] == set![x] {
            } else {
                assert(u == seq!['['] + group_text(w[0], 0, -1) + seq![']']);
            }
        }
        lemma_split_at(s, i, u, rest);
        lemma_letter_round_trip(s, i, w[0]);
        lemma_word_round_trip(s, i + u.len(), w.drop_first());
        assert(seq![w[0]] + w.drop_first() =~= w);
    }
}

/// The text of every pattern reads back as that pattern.
pub proof fn lemma_parse_unparse(w: Seq<Set<int>>)
    requires
        all_within(w),
    ensures
        parse_spec(word_text(w)) == Ok::<Seq<Set<int>>, (int, ParseErrorKind)>(w),
{
    let s = word_text(w);
    assert(s.subrange(0, s.len() as int) =~= s);
    lemma_word_round_trip(s, 0, w);
}

/// A group reads to indices of the alphabet only.
proof fn lemma_group_within(s: Seq<char>, j: int, acc: Set<int>, any: bool, open: int)
    requires
        within_alphabet(acc),
    ensures
        group_spec(s, j, acc, any, open) matches Ok((l, _)) ==> within_alphabet(l),
    decreases s.len() - j,
{
    if j < 0 || j >= s.len() {
    } else if s[j] == ']' {
    } else if is_symbol(s[j]) {
        if j + 1 < s.len() && s[j + 1] == '-' {
            if j + 2 < s.len() && is_symbol(s[j + 2]) {
                lemma_group_within(
                    s,
                    j + 3,
                    acc.union(range_set(index_of(s[j]), index_of(s[j + 2]))),
                    true,
                    open,
                );
            } else {
                lemma_group_within(s, j + 2, acc.union(range_set(index_of(s[j]), 25)), true, open);
            }
        } else {
            lemma_group_within(s, j + 1, acc.insert(index_of(s[j])), true, open);
        }
    } else if s[j] == '-' {
        if j + 1 < s.len() && is_symbol(s[j + 1]) {
            lemma_group_within(s, j + 2, acc.union(range_set(0, index_of(s[j + 1]))), true, open);
        } else {
            lemma_group_within(s, j + 1, acc.union(range_set(0, 25)), true, open);
        }
    }
}

/// Every symbol set that a pattern parses to lies within the alphabet.
pub proof fn lemma_parse_within(s: Seq<char>, i: int)
    ensures
        word_spec(s, i) matches Ok(w) ==> all_within(w),
    decreases s.len() - i,
{
    if i < s.len() {
        if 0 <= i && s[i] == '[' {
            lemma_group_within(s, i + 1, Set::empty(), false, i);
        }
        match letter_spec(s, i) {
            Err(_) => {},
            Ok((l, j)) => {
                if !(j <= i || j > s.len()) {
                    lemma_parse_within(s, j);
                    if let Ok(w) = word_spec(s, j) {
                        assert(within_alphabet(l));
                        assert forall|k: int| 0 <= k < (seq![l] + w).len() implies within_alphabet(
                            #[trigger] (seq![l] + w)[k],
                        ) by {
                            if k > 0 {
                                assert((seq![l] + w)[k] == w[k - 1]);
                            }
                        }
                    }
                }
            },
        }
    }
}

/// Unparsing a parsed pattern and parsing that text again gives the same
/// symbol sets, for every valid pattern.
pub proof fn law_unparse_parse(p: Seq<char>)
    requires
        parse_spec(p) is Ok,
    ensures
        parse_spec(word_text(parse_spec(p)->Ok_0)) == parse_spec(p),
{
    lemma_parse_within(p, 0);
    lemma_parse_unparse(parse_spec(p)->Ok_0);
}

/// The text `s` read as exactly one letter.
pub open spec fn single_letter_spec(s: Seq<char>) -> Result<Set<int>, (int, ParseErrorKind)> {
    match letter_spec(s, 0) {
        Err(e) => Err(e),
        Ok((l, j)) => if j == s.len() {
            Ok(l)
        } else {
            Err((j, ParseErrorKind::UnexpectedChar))
        },
    }
}

/// Parses the text of one letter: `.`, a symbol or a group, and nothing after it.
pub fn parse_letter_text(text: &str) -> (r: Result<Letter, ParseError>)
    ensures
        match r {
            Ok(l) => single_letter_spec(text@) == Ok::<Set<int>, (int, ParseErrorKind)>(l@),
            Err(e) => single_letter_spec(text@) == Err::<Set<int>, (int, ParseErrorKind)>(
                (text@.len() - e.input@.len(), e.code),
            ) && e.input@ == text@.subrange(text@.len() - e.input@.len(), text@.len() as int),
        },
{
    let s = chars_of(text);
    if s.len() == 0 {
        let input = text.substring_char(0, 0).to_owned();
        return Err(ParseError { input, code: ParseErrorKind::UnexpectedChar });
    }
    match parse_letter(&s, 0) {
        Err((p, code)) => {
            let input = text.substring_char(p, s.len()).to_owned();
            Err(ParseError { input, code })
        },
        Ok((l, j)) => {
            if j == s.len() {
                Ok(l)
            } else {
                let input = text.substring_char(j, s.len()).to_owned();
                Err(ParseError { input, code: ParseErrorKind::UnexpectedChar })
            }
        },
    }
}

} // verus!
