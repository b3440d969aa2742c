//! The frequency estimator: per-letter occurrence counts over a word set,
//! with possessive forms and pluralized duplicates excluded.
//!
//! Scores downstream are exact rationals with denominator `2 * total`;
//! this module only ever stores the integer numerators (the counts), so no
//! rounding occurs anywhere in the library.
use vstd::prelude::*;

use crate::words::{char_code, is_count_char, is_count_code, is_counted_char, str_eq, un_pluralize,
    unpluralized, word_has_char};

verus! {

/// Greatest total letter count the estimator accepts; keeps every score
/// computed downstream comfortably inside `i64`.
pub const MAX_TOTAL_LETTERS: u64 = 0x0080_0000_0000_0000;

/// The errors of this library: an empty word set (the frequency table would
/// be a division by zero), and a candidate letter missing from the table
/// (the word set given to scoring was not the one the table was built from).
#[derive(Clone, Copy, Debug, PartialEq, Eq, Structural)]
pub enum ScoreError {
    EmptyInput,
    InvariantViolation,
}

/// Whether the frequency estimator counts a word's letters: possessive forms
/// (any apostrophe) are skipped, and so is a word ending in 's' whose stem is
/// itself in the set (a pluralized duplicate).
pub open spec fn counts_word(words: Seq<Seq<char>>, w: Seq<char>) -> bool {
    &&& !w.contains('\'')
    &&& !(w.len() > 0 && w.last() == 's' && words.contains(unpluralized(w)))
}

/// Number of counted characters among the first `k` of `w`.
pub open spec fn word_letters(w: Seq<char>, k: int) -> nat
    decreases k,
{
    if k <= 0 {
        0
    } else {
        word_letters(w, k - 1) + if is_count_char(w[k - 1]) {
            1nat
        } else {
            0nat
        }
    }
}

/// Number of counted characters with code `c` among the first `k` of `w`.
pub open spec fn word_code_count(w: Seq<char>, c: int, k: int) -> nat
    decreases k,
{
    if k <= 0 {
        0
    } else {
        word_code_count(w, c, k - 1) + if is_count_char(w[k - 1]) && char_code(w[k - 1]) == c {
            1nat
        } else {
            0nat
        }
    }
}

/// Total counted letters over the first `k` words of the set.
pub open spec fn total_letters(words: Seq<Seq<char>>, k: int) -> nat
    decreases k,
{
    if k <= 0 {
        0
    } else {
        total_letters(words, k - 1) + if counts_word(words, words[k - 1]) {
            word_letters(words[k - 1], words[k - 1].len() as int)
        } else {
            0nat
        }
    }
}

/// Total counted letters of the whole word set.
pub open spec fn table_total(words: Seq<Seq<char>>) -> nat {
    total_letters(words, words.len() as int)
}

/// Occurrences of code `c` over the first `k` words of the set.
pub open spec fn code_count(words: Seq<Seq<char>>, c: int, k: int) -> nat
    decreases k,
{
    if k <= 0 {
        0
    } else {
        code_count(words, c, k - 1) + if counts_word(words, words[k - 1]) {
            word_code_count(words[k - 1], c, words[k - 1].len() as int)
        } else {
            0nat
        }
    }
}

/// Occurrences of code `c` over the whole word set.
pub open spec fn table_code_count(words: Seq<Seq<char>>, c: int) -> nat {
    code_count(words, c, words.len() as int)
}

/// Sum of the first `k` counters.
pub open spec fn sum_counts(s: Seq<u64>, k: int) -> int
    decreases k,
{
    if k <= 0 {
        0
    } else {
        sum_counts(s, k - 1) + s[k - 1]
    }
}

/// The letter-frequency table: occurrence counts per ASCII code point and
/// the total number of letters counted. The relative frequency of a
/// character `c` is the rational `count(c) / total`; a character with
/// count zero was never observed and is absent from the table.
#[derive(Debug)]
pub struct FrequencyTable {
    pub counts: Vec<u64>,
    pub total: u64,
}

impl FrequencyTable {
    /// Occurrences counted for code point `c`; zero means absent.
    pub open spec fn count_code(self, c: int) -> nat {
        if 0 <= c < 128 {
            self.counts@[c] as nat
        } else {
            0
        }
    }

    /// Total number of letters counted.
    pub open spec fn total_count(self) -> nat {
        self.total as nat
    }

    /// Well-formedness: 128 counters, a positive bounded total that equals
    /// the sum of the counters, and counts only at counted code points.
    pub open spec fn wf(self) -> bool {
        &&& self.counts@.len() == 128
        &&& 1 <= self.total <= MAX_TOTAL_LETTERS
        &&& sum_counts(self.counts@, 128) == self.total as int
        &&& forall|c: int| 0 <= c < 128 ==> #[trigger] self.counts@[c] <= self.total
        &&& forall|c: int| 0 <= c < 128 && #[trigger] self.counts@[c] > 0 ==> is_count_code(c)
    }

    /// Table lookup: the count of a character, or `None` when the character
    /// was never observed (lookups of such characters are an error condition
    /// for the scorers, never a silent zero).
    pub fn count_of(&self, c: char) -> (r: Option<u64>)
        requires
            self.wf(),
        ensures
            match r {
                Some(n) => n as nat == self.count_code(char_code(c)) && n > 0,
                None => self.count_code(char_code(c)) == 0,
            },
    {
        let k = c as u32;
        if k < 128 {
            let n = self.counts[k as usize];
            if n > 0 {
                Some(n)
            } else {
                None
            }
        } else {
            None
        }
    }

    /// The denominator shared by every frequency in the table.
    pub fn total_letters_counted(&self) -> (r: u64)
        ensures
            r as nat == self.total_count(),
    {
        self.total
    }
}

pub proof fn lemma_word_letters_mono(w: Seq<char>, k1: int, k2: int)
    requires
        k1 <= k2,
    ensures
        word_letters(w, k1) <= word_letters(w, k2),
    decreases k2 - k1,
{
    if k1 < k2 {
        lemma_word_letters_mono(w, k1, k2 - 1);
    }
}

pub proof fn lemma_total_letters_mono(words: Seq<Seq<char>>, k1: int, k2: int)
    requires
        k1 <= k2,
    ensures
        total_letters(words, k1) <= total_letters(words, k2),
    decreases k2 - k1,
{
    if k1 < k2 {
        lemma_total_letters_mono(words, k1, k2 - 1);
    }
}

pub proof fn lemma_sum_counts_zero(s: Seq<u64>, k: int)
    requires
        forall|i: int| 0 <= i < k ==> s[i] == 0,
    ensures
        sum_counts(s, k) == 0,
    decreases k,
{
    if k > 0 {
        lemma_sum_counts_zero(s, k - 1);
    }
}

pub proof fn lemma_sum_counts_update(s: Seq<u64>, i: int, v: u64, k: int)
    requires
        0 <= i < s.len(),
        k <= s.len(),
    ensures
        sum_counts(s.update(i, v), k) == sum_counts(s, k) + if 0 <= i < k {
            v - s[i]
        } else {
            0
        },
    decreases k,
{
    if k > 0 {
        lemma_sum_counts_update(s, i, v, k - 1);
        if i == k - 1 {
            assert(s.update(i, v)[k - 1] == v);
        } else {
            assert(s.update(i, v)[k - 1] == s[k - 1]);
        }
    }
}

pub proof fn lemma_sum_counts_mono(s: Seq<u64>, k1: int, k2: int)
    requires
        0 <= k1 <= k2,
    ensures
        sum_counts(s, k1) <= sum_counts(s, k2),
    decreases k2 - k1,
{
    if k1 < k2 {
        lemma_sum_counts_mono(s, k1, k2 - 1);
    }
}

/// Whether some word of the set equals `target`, character for character.
pub fn set_contains(words: &Vec<String>, target: &str) -> (r: bool)
    ensures
        r == words.deep_view().contains(target@),
{
    let ghost dv = words.deep_view();
    let mut i: usize = 0;
    while i < words.len()
        invariant
            0 <= i <= words@.len(),
            dv == words.deep_view(),
            dv.len() == words@.len(),
            forall|k: int| 0 <= k < words@.len() ==> dv[k] == #[trigger] words@[k]@,
            forall|k: int| 0 <= k < i ==> #[trigger] dv[k] != target@,
        decreases words@.len() - i,
    {
        if str_eq(words[i].as_str(), target) {
            proof {
                assert(dv[i as int] == target@);
            }
            return true;
        }
        i += 1;
    }
    proof {
        assert(!dv.contains(target@));
    }
    false
}

/// The frequency estimator: builds the per-letter occurrence table from the
/// word set. Words with an apostrophe and pluralized duplicates contribute
/// nothing; every other ASCII alphanumeric character occurrence is counted.
/// Fails fast with `EmptyInput` when no letter at all was counted, exactly
/// the case whose frequency would otherwise be a division by zero.
pub fn letter_frequencies(words: &Vec<String>) -> (r: Result<FrequencyTable, ScoreError>)
    requires
        table_total(words.deep_view()) <= MAX_TOTAL_LETTERS as nat,
    ensures
        match r {
            Ok(t) => {
                &&& t.wf()
                &&& t.total_count() == table_total(words.deep_view())
                &&& forall|c: int| #[trigger]
                    t.count_code(c) == if 0 <= c < 128 {
                        table_code_count(words.deep_view(), c)
                    } else {
                        0nat
                    }
            },
            Err(e) => e == ScoreError::EmptyInput && table_total(words.deep_view()) == 0,
        },
{
    let ghost dv = words.deep_view();
    proof {
        assert(dv.len() == words@.len());
        assert(forall|k: int| 0 <= k < words@.len() ==> dv[k] == #[trigger] words@[k]@);
    }
    let mut counts: Vec<u64> = vec![0u64; 128];
    let mut total: u64 = 0;
    proof {
        lemma_sum_counts_zero(counts@, 128);
    }
    let mut i: usize = 0;
    while i < words.len()
        invariant
            0 <= i <= words@.len(),
            dv == words.deep_view(),
            dv.len() == words@.len(),
            forall|k: int| 0 <= k < words@.len() ==> dv[k] == #[trigger] words@[k]@,
            counts@.len() == 128,
            total as nat == total_letters(dv, i as int),
            forall|c: int|
                0 <= c < 128 ==> #[trigger] counts@[c] as nat == code_count(dv, c, i as int),
            sum_counts(counts@, 128) == total as int,
            forall|c: int| 0 <= c < 128 ==> #[trigger] counts@[c] <= total,
            forall|c: int| 0 <= c < 128 && #[trigger] counts@[c] > 0 ==> is_count_code(c),
            table_total(dv) <= MAX_TOTAL_LETTERS as nat,
        decreases words@.len() - i,
    {
        let w = &words[i];
        let mut skip = word_has_char(w.as_str(), '\'');
        if !skip {
            let n = w.as_str().unicode_len();
            if n > 0 && w.as_str().get_char(n - 1) == 's' {
                let stem = un_pluralize(w);
                if set_contains(words, stem) {
                    skip = true;
                }
            }
        }
        proof {
            assert(skip == !counts_word(dv, dv[i as int]));
        }
        if !skip {
            let n = w.as_str().unicode_len();
            let mut j: usize = 0;
            while j < n
                invariant
                    0 <= j <= n,
                    0 <= i < words@.len(),
                    dv == words.deep_view(),
                    dv.len() == words@.len(),
                    forall|k: int| 0 <= k < words@.len() ==> dv[k] == #[trigger] words@[k]@,
                    w@ == dv[i as int],
                    n == w@.len(),
                    counts_word(dv, dv[i as int]),
                    counts@.len() == 128,
                    total as nat == total_letters(dv, i as int) + word_letters(w@, j as int),
                    forall|c: int|
                        0 <= c < 128 ==> #[trigger] counts@[c] as nat == code_count(dv, c, i as int)
                            + word_code_count(w@, c, j as int),
                    sum_counts(counts@, 128) == total as int,
                    forall|c: int| 0 <= c < 128 ==> #[trigger] counts@[c] <= total,
                    forall|c: int| 0 <= c < 128 && #[trigger] counts@[c] > 0 ==> is_count_code(c),
                    table_total(dv) <= MAX_TOTAL_LETTERS as nat,
                decreases n - j,
            {
                let c = w.as_str().get_char(j);
                if is_counted_char(c) {
                    proof {
                        lemma_word_letters_mono(w@, j + 1, n as int);
                        assert(total_letters(dv, i + 1) == total_letters(dv, i as int)
                            + word_letters(dv[i as int], dv[i as int].len() as int));
                        lemma_total_letters_mono(dv, i + 1, dv.len() as int);
                        assert(total + 1 <= MAX_TOTAL_LETTERS);
                    }
                    let idx = (c as u32) as usize;
                    let prev = counts[idx];
                    proof {
                        lemma_sum_counts_update(counts@, idx as int, (prev + 1) as u64, 128);
                    }
                    counts[idx] = prev + 1;
                    total = total + 1;
                }
                j += 1;
            }
        }
        proof {
            if counts_word(dv, dv[i as int]) {
                assert(total_letters(dv, i + 1) == total_letters(dv, i as int) + word_letters(
                    dv[i as int],
                    dv[i as int].len() as int,
                ));
                assert(forall|c: int|
                    code_count(dv, c, i + 1) == code_count(dv, c, i as int) + word_code_count(
                        dv[i as int],
                        c,
                        dv[i as int].len() as int,
                    ));
            } else {
                assert(total_letters(dv, i + 1) == total_letters(dv, i as int));
                assert(forall|c: int| code_count(dv, c, i + 1) == code_count(dv, c, i as int));
            }
        }
        i += 1;
    }
    if total == 0 {
        return Err(ScoreError::EmptyInput);
    }
    Ok(FrequencyTable { counts, total })
}

} // verus!
