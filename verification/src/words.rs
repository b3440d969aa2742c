//! Word-level predicates: which words are eligible starting-word candidates,
//! and the possessive / plural rules used by the frequency estimator.
use vstd::prelude::*;

verus! {

/// Code points whose occurrences the frequency estimator counts:
/// ASCII alphanumeric characters (digits, upper- and lowercase letters).
pub open spec fn is_count_code(k: int) -> bool {
    (48 <= k <= 57) || (65 <= k <= 90) || (97 <= k <= 122)
}

/// The code point of a character, as a mathematical integer.
pub open spec fn char_code(c: char) -> int {
    c as u32 as int
}

/// A character the frequency estimator counts: ASCII and alphanumeric.
pub open spec fn is_count_char(c: char) -> bool {
    is_count_code(char_code(c))
}

/// A word eligible as a starting-word candidate: exactly five characters,
/// all of them ASCII alphanumeric.
pub open spec fn is_candidate(w: Seq<char>) -> bool {
    &&& w.len() == 5
    &&& forall|i: int| 0 <= i < w.len() ==> is_count_char(#[trigger] w[i])
}

/// Exec test for `is_count_char`.
pub fn is_counted_char(c: char) -> (r: bool)
    ensures
        r == is_count_char(c),
{
    let k = c as u32;
    (48 <= k && k <= 57) || (65 <= k && k <= 90) || (97 <= k && k <= 122)
}

/// Decides whether a word is eligible as a starting-word candidate:
/// exactly five characters, each ASCII alphanumeric (no hyphens,
/// apostrophes, or non-ASCII characters).
pub fn is_possible_starting_word(word: &String) -> (r: bool)
    ensures
        r == is_candidate(word@),
{
    let n = word.as_str().unicode_len();
    if n != 5 {
        return false;
    }
    let mut i: usize = 0;
    while i < 5
        invariant
            0 <= i <= 5,
            word@.len() == 5,
            forall|k: int| 0 <= k < i ==> is_count_char(#[trigger] word@[k]),
        decreases 5 - i,
    {
        let c = word.as_str().get_char(i);
        if !is_counted_char(c) {
            return false;
        }
        i += 1;
    }
    true
}

/// Character-by-character equality of two string slices.
pub fn str_eq(a: &str, b: &str) -> (r: bool)
    ensures
        r == (a@ == b@),
{
    let na = a.unicode_len();
    let nb = b.unicode_len();
    if na != nb {
        return false;
    }
    let mut i: usize = 0;
    while i < na
        invariant
            0 <= i <= na,
            na == a@.len(),
            na == b@.len(),
            forall|k: int| 0 <= k < i ==> a@[k] == b@[k],
        decreases na - i,
    {
        if a.get_char(i) != b.get_char(i) {
            return false;
        }
        i += 1;
    }
    proof {
        assert(a@ =~= b@);
    }
    true
}

/// Whether a string contains the character `c`.
pub fn word_has_char(w: &str, c: char) -> (r: bool)
    ensures
        r == w@.contains(c),
{
    let n = w.unicode_len();
    let mut i: usize = 0;
    while i < n
        invariant
            0 <= i <= n,
            n == w@.len(),
            forall|k: int| 0 <= k < i ==> w@[k] != c,
        decreases n - i,
    {
        if w.get_char(i) == c {
            return true;
        }
        i += 1;
    }
    proof {
        assert(!w@.contains(c));
    }
    false
}

/// A word with a trailing 's' removed; other words are unchanged.
pub open spec fn unpluralized(w: Seq<char>) -> Seq<char> {
    if w.len() > 0 && w.last() == 's' {
        w.drop_last()
    } else {
        w
    }
}

/// Strips one trailing 's' from a word, if present.
pub fn un_pluralize<'a>(word: &'a String) -> (r: &'a str)
    ensures
        r@ == unpluralized(word@),
{
    let n = word.as_str().unicode_len();
    if n > 0 {
        let c = word.as_str().get_char(n - 1);
        if c == 's' {
            let stem = word.as_str().substring_char(0, n - 1);
            proof {
                assert(stem@ =~= word@.drop_last());
            }
            return stem;
        }
    }
    word.as_str()
}

/// The candidate filter: keeps exactly the eligible starting words,
/// in the order of the input.
pub fn filter_starting_words(words: &Vec<String>) -> (r: Vec<String>)
    ensures
        r.deep_view() == words.deep_view().filter(|w: Seq<char>| is_candidate(w)),
{
    let mut r: Vec<String> = Vec::new();
    let mut i: usize = 0;
    proof {
        assert(words.deep_view().take(0) =~= Seq::<Seq<char>>::empty());
        reveal_with_fuel(Seq::filter, 1);
    }
    while i < words.len()
        invariant
            0 <= i <= words@.len(),
            words.deep_view().len() == words@.len(),
            forall|k: int|
                0 <= k < words@.len() ==> words.deep_view()[k] == #[trigger] words@[k]@,
            r.deep_view() == words.deep_view().take(i as int).filter(
                |w: Seq<char>| is_candidate(w),
            ),
        decreases words@.len() - i,
    {
        let ghost pre = r.deep_view();
        let w = &words[i];
        if is_possible_starting_word(w) {
            r.push(w.clone());
            proof {
                assert(r.deep_view() =~= pre.push(w@));
            }
        }
        proof {
            let f = |w: Seq<char>| is_candidate(w);
            let t0 = words.deep_view().take(i as int);
            let t1 = words.deep_view().take(i + 1 as int);
            assert(t1.drop_last() =~= t0);
            assert(t1.last() == words@[i as int]@);
            reveal_with_fuel(Seq::filter, 2);
            assert(t1.filter(f) == if f(t1.last()) {
                t1.drop_last().filter(f).push(t1.last())
            } else {
                t1.drop_last().filter(f)
            });
        }
        i += 1;
    }
    proof {
        assert(words.deep_view().take(words@.len() as int) =~= words.deep_view());
    }
    r
}

} // verus!
