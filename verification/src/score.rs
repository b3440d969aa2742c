//! Single-word and word-pair scoring against a frequency table.
//!
//! All scores are exact integer numerators over the common denominator
//! `2 * total`: a letter of count `n` contributes `2 * n` (that is, twice
//! its relative frequency numerator), so that the half-penalty of the pair
//! scorer stays an integer.
use vstd::prelude::*;

use crate::freq::{FrequencyTable, ScoreError, lemma_sum_counts_mono, sum_counts, MAX_TOTAL_LETTERS};
use crate::imap::{word_map_entries, word_map_entry_at, word_map_insert, word_map_len, word_map_new};
use crate::words::char_code;

verus! {

/// Whether some character of `w` has code point `c`.
pub open spec fn has_code(w: Seq<char>, c: int) -> bool {
    exists|i: int| 0 <= i < w.len() && char_code(#[trigger] w[i]) == c
}

/// Partial sum of the single-word score over code points below `k`.
pub open spec fn score_sum(t: FrequencyTable, w: Seq<char>, k: int) -> int
    decreases k,
{
    if k <= 0 {
        0
    } else {
        score_sum(t, w, k - 1) + if has_code(w, k - 1) {
            2 * t.count_code(k - 1) as int
        } else {
            0
        }
    }
}

/// The single-word score: twice the sum of the counts of the distinct
/// letters of the word. A letter counts once, however often it repeats.
pub open spec fn word_score(t: FrequencyTable, w: Seq<char>) -> int {
    score_sum(t, w, 128)
}

/// Every letter of `w` is present in the table (count at least one).
pub open spec fn all_present(t: FrequencyTable, w: Seq<char>) -> bool {
    forall|i: int| 0 <= i < w.len() ==> t.count_code(char_code(#[trigger] w[i])) > 0
}

/// Whether some character of `w` has code point `k`.
fn word_has_code(w: &String, k: u32) -> (r: bool)
    ensures
        r == has_code(w@, k as int),
{
    let n = w.as_str().unicode_len();
    let mut i: usize = 0;
    while i < n
        invariant
            0 <= i <= n,
            n == w@.len(),
            forall|j: int| 0 <= j < i ==> char_code(#[trigger] w@[j]) != k as int,
        decreases n - i,
    {
        let c = w.as_str().get_char(i);
        if c as u32 == k {
            return true;
        }
        i += 1;
    }
    false
}

/// Scores one word: twice the sum of the frequency counts of its distinct
/// letters. Errs with `InvariantViolation` exactly when some letter of the
/// word is absent from the table, the fatal inconsistency case.
pub fn single_word_score(word: &String, letter_frequencies: &FrequencyTable) -> (r: Result<
    i64,
    ScoreError,
>)
    requires
        letter_frequencies.wf(),
    ensures
        match r {
            Ok(s) => all_present(*letter_frequencies, word@) && s as int == word_score(
                *letter_frequencies,
                word@,
            ) && 0 <= s as int <= 2 * letter_frequencies.total_count(),
            Err(e) => e == ScoreError::InvariantViolation && !all_present(
                *letter_frequencies,
                word@,
            ),
        },
{
    let n = word.as_str().unicode_len();
    let mut i: usize = 0;
    while i < n
        invariant
            0 <= i <= n,
            n == word@.len(),
            letter_frequencies.wf(),
            forall|j: int|
                0 <= j < i ==> letter_frequencies.count_code(char_code(#[trigger] word@[j])) > 0,
        decreases n - i,
    {
        let c = word.as_str().get_char(i);
        if letter_frequencies.count_of(c).is_none() {
            return Err(ScoreError::InvariantViolation);
        }
        i += 1;
    }
    let mut s: i64 = 0;
    let mut k: usize = 0;
    while k < 128
        invariant
            0 <= k <= 128,
            letter_frequencies.wf(),
            s as int == score_sum(*letter_frequencies, word@, k as int),
            0 <= s as int <= 2 * sum_counts(letter_frequencies.counts@, k as int),
        decreases 128 - k,
    {
        if word_has_code(word, k as u32) {
            let c = letter_frequencies.counts[k];
            proof {
                lemma_sum_counts_mono(letter_frequencies.counts@, k + 1, 128);
            }
            s = s + 2 * (c as i64);
        }
        k += 1;
    }
    proof {
        lemma_sum_counts_mono(letter_frequencies.counts@, 0, 128);
    }
    Ok(s)
}

/// The penalty the pair scorer charges at position `i` of the second word:
/// the full doubled count when the first word has the same letter at the
/// same position, half of that (the count once) when the letter appears
/// anywhere else in the first word, nothing otherwise.
pub open spec fn penalty_at(t: FrequencyTable, w1: Seq<char>, w2: Seq<char>, i: int) -> int {
    if w1[i] == w2[i] {
        2 * t.count_code(char_code(w2[i])) as int
    } else if w1.contains(w2[i]) {
        t.count_code(char_code(w2[i])) as int
    } else {
        0
    }
}

/// Sum of the penalties over positions below `k`.
pub open spec fn penalties(t: FrequencyTable, w1: Seq<char>, w2: Seq<char>, k: int) -> int
    decreases k,
{
    if k <= 0 {
        0
    } else {
        penalties(t, w1, w2, k - 1) + penalty_at(t, w1, w2, k - 1)
    }
}

/// The pair score: the two single-word scores, minus the positional-overlap
/// penalties of the second word against the first.
pub open spec fn pair_score(t: FrequencyTable, w1: Seq<char>, w2: Seq<char>) -> int {
    word_score(t, w1) + word_score(t, w2) - penalties(t, w1, w2, w2.len() as int)
}

/// Scores a pair of five-letter words: the sum of the single scores, less a
/// full penalty for a letter shared at the same position and a half penalty
/// for a letter shared at a different position. Errs with
/// `InvariantViolation` exactly when a letter of either word is absent from
/// the table.
pub fn score_word_pair(word1: &String, word2: &String, letter_frequencies: &FrequencyTable) -> (r:
    Result<i64, ScoreError>)
    requires
        letter_frequencies.wf(),
        word1@.len() == 5,
        word2@.len() == 5,
    ensures
        match r {
            Ok(s) => all_present(*letter_frequencies, word1@) && all_present(
                *letter_frequencies,
                word2@,
            ) && s as int == pair_score(*letter_frequencies, word1@, word2@),
            Err(e) => e == ScoreError::InvariantViolation && !(all_present(
                *letter_frequencies,
                word1@,
            ) && all_present(*letter_frequencies, word2@)),
        },
{
    let s1 = match single_word_score(word1, letter_frequencies) {
        Ok(s) => s,
        Err(e) => {
            return Err(e);
        },
    };
    let s2 = match single_word_score(word2, letter_frequencies) {
        Ok(s) => s,
        Err(e) => {
            return Err(e);
        },
    };
    let base = s1 + s2;
    let mut pen: i64 = 0;
    let mut i: usize = 0;
    while i < 5
        invariant
            0 <= i <= 5,
            letter_frequencies.wf(),
            word1@.len() == 5,
            word2@.len() == 5,
            all_present(*letter_frequencies, word2@),
            pen as int == penalties(*letter_frequencies, word1@, word2@, i as int),
            0 <= pen as int <= 2 * (i as int) * letter_frequencies.total_count(),
        decreases 5 - i,
    {
        let c2 = word2.as_str().get_char(i);
        let c1 = word1.as_str().get_char(i);
        let cnt = match letter_frequencies.count_of(c2) {
            Some(n) => n,
            None => {
                proof {
                    assert(false);
                }
                0
            },
        };
        proof {
            let tt = letter_frequencies.total_count() as int;
            assert(cnt as int <= tt);
            assert(2 * ((i + 1) as int) * tt == 2 * (i as int) * tt + 2 * tt) by (nonlinear_arith);
            assert(2 * (i as int) * tt <= 8 * tt) by (nonlinear_arith)
                requires
                    0 <= i <= 4,
                    0 <= tt,
            ;
            assert(tt <= MAX_TOTAL_LETTERS);
        }
        if c1 == c2 {
            pen = pen + 2 * (cnt as i64);
        } else if crate::words::word_has_char(word1.as_str(), c2) {
            pen = pen + (cnt as i64);
        }
        i += 1;
    }
    Ok(base - pen)
}

/// A word together with its score numerator.
#[derive(Debug)]
pub struct ScoredWord {
    pub word: String,
    pub score: i64,
}

impl View for ScoredWord {
    type V = (Seq<char>, int);

    open spec fn view(&self) -> (Seq<char>, int) {
        (self.word@, self.score as int)
    }
}

/// An unordered-by-identity pair of words together with its score numerator.
/// The stored orientation is the one the penalty algorithm was evaluated in.
#[derive(Debug)]
pub struct ScoredPair {
    pub word1: String,
    pub word2: String,
    pub score: i64,
}

impl View for ScoredPair {
    type V = ((Seq<char>, Seq<char>), int);

    open spec fn view(&self) -> ((Seq<char>, Seq<char>), int) {
        ((self.word1@, self.word2@), self.score as int)
    }
}

/// Scores every word of the candidate list, preserving its order. The scores
/// are accumulated in an `indexmap::IndexMap` keyed by the word, as a
/// uniqueness-preserving, order-preserving mapping, then handed out as a
/// vector. Errs with `InvariantViolation` exactly when some candidate has a
/// letter absent from the table.
pub fn score_single_words(words: &Vec<String>, letter_frequencies: &FrequencyTable) -> (r: Result<
    Vec<ScoredWord>,
    ScoreError,
>)
    requires
        letter_frequencies.wf(),
        forall|i: int, j: int|
            0 <= i < j < words@.len() ==> #[trigger] words@[i]@ != #[trigger] words@[j]@,
    ensures
        match r {
            Ok(v) => {
                &&& forall|i: int|
                    0 <= i < words@.len() ==> all_present(
                        *letter_frequencies,
                        #[trigger] words@[i]@,
                    )
                &&& v@.len() == words@.len()
                &&& forall|i: int|
                    0 <= i < words@.len() ==> (#[trigger] v@[i])@ === (
                        words@[i]@,
                        word_score(*letter_frequencies, words@[i]@),
                    )
            },
            Err(e) => e == ScoreError::InvariantViolation && exists|i: int|
                0 <= i < words@.len() && !all_present(*letter_frequencies, #[trigger] words@[i]@),
        },
{
    let mut map = word_map_new();
    let mut i: usize = 0;
    while i < words.len()
        invariant
            0 <= i <= words@.len(),
            letter_frequencies.wf(),
            forall|a: int, b: int|
                0 <= a < b < words@.len() ==> #[trigger] words@[a]@ != #[trigger] words@[b]@,
            word_map_entries(map).len() == i as int,
            forall|k: int|
                0 <= k < i ==> #[trigger] word_map_entries(map)[k] === (
                    words@[k]@,
                    word_score(*letter_frequencies, words@[k]@),
                ),
            forall|k: int|
                0 <= k < i ==> all_present(*letter_frequencies, #[trigger] words@[k]@),
        decreases words@.len() - i,
    {
        let w = &words[i];
        let s = match single_word_score(w, letter_frequencies) {
            Ok(s) => s,
            Err(e) => {
                return Err(e);
            },
        };
        proof {
            assert forall|k: int|
                0 <= k < word_map_entries(map).len() implies (#[trigger] word_map_entries(
                map,
            )[k]).0 != w@ by {
                assert(word_map_entries(map)[k].0 == words@[k]@);
            }
        }
        word_map_insert(&mut map, w.clone(), s);
        i += 1;
    }
    let n = word_map_len(&map);
    let mut out: Vec<ScoredWord> = Vec::new();
    let mut k: usize = 0;
    while k < n
        invariant
            0 <= k <= n,
            n == word_map_entries(map).len(),
            word_map_entries(map).len() == words@.len(),
            forall|j: int|
                0 <= j < words@.len() ==> #[trigger] word_map_entries(map)[j] === (
                    words@[j]@,
                    word_score(*letter_frequencies, words@[j]@),
                ),
            out@.len() == k as int,
            forall|j: int| 0 <= j < k ==> (#[trigger] out@[j])@ === word_map_entries(map)[j],
        decreases n - k,
    {
        let e = word_map_entry_at(&map, k);
        out.push(ScoredWord { word: e.0, score: e.1 });
        k += 1;
    }
    Ok(out)
}

} // verus!
