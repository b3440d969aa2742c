//! The library's general laws, stated and proved once over the spec
//! functions that the executable functions' contracts use.
use vstd::prelude::*;

use crate::freq::FrequencyTable;
use crate::pairs::{canonical_entries, distinct_words, lemma_pair_rows_membership, pair_entry,
    pair_rows};
use crate::score::{has_code, pair_score, penalties, penalty_at, score_sum, word_score};
use crate::words::char_code;

verus! {

/// Two words with the same letters have the same score: a single-word score
/// is invariant under reordering (and repeating) of the word's letters.
pub proof fn lemma_score_reorder(t: FrequencyTable, w1: Seq<char>, w2: Seq<char>)
    requires
        forall|c: char| w1.contains(c) <==> w2.contains(c),
    ensures
        word_score(t, w1) == word_score(t, w2),
{
    lemma_score_sum_same_codes(t, w1, w2, 128);
}

proof fn lemma_has_code_from_contains(w1: Seq<char>, w2: Seq<char>, k: int)
    requires
        forall|c: char| w1.contains(c) ==> w2.contains(c),
        has_code(w1, k),
    ensures
        has_code(w2, k),
{
    let i = choose|i: int| 0 <= i < w1.len() && char_code(w1[i]) == k;
    assert(w1.contains(w1[i]));
    assert(w2.contains(w1[i]));
    let j = choose|j: int| 0 <= j < w2.len() && w2[j] == w1[i];
    assert(char_code(w2[j]) == k);
}

proof fn lemma_score_sum_same_codes(t: FrequencyTable, w1: Seq<char>, w2: Seq<char>, k: int)
    requires
        forall|c: char| w1.contains(c) <==> w2.contains(c),
        0 <= k,
    ensures
        score_sum(t, w1, k) == score_sum(t, w2, k),
    decreases k,
{
    if k > 0 {
        lemma_score_sum_same_codes(t, w1, w2, k - 1);
        if has_code(w1, k - 1) {
            lemma_has_code_from_contains(w1, w2, k - 1);
        }
        if has_code(w2, k - 1) {
            lemma_has_code_from_contains(w2, w1, k - 1);
        }
    }
}

proof fn lemma_score_sum_subset(t: FrequencyTable, v: Seq<char>, w: Seq<char>, k: int)
    requires
        forall|c: char| v.contains(c) ==> w.contains(c),
        0 <= k,
    ensures
        score_sum(t, v, k) <= score_sum(t, w, k),
    decreases k,
{
    if k > 0 {
        lemma_score_sum_subset(t, v, w, k - 1);
        if has_code(v, k - 1) {
            lemma_has_code_from_contains(v, w, k - 1);
        }
    }
}

proof fn lemma_score_sum_strict(t: FrequencyTable, v: Seq<char>, w: Seq<char>, c0: char, k: int)
    requires
        forall|c: char| v.contains(c) ==> w.contains(c),
        w.contains(c0),
        !v.contains(c0),
        char_code(c0) < k <= 128,
    ensures
        score_sum(t, v, k) + 2 * t.count_code(char_code(c0)) <= score_sum(t, w, k),
    decreases k,
{
    if char_code(c0) == k - 1 {
        lemma_score_sum_subset(t, v, w, k - 1);
        let j = choose|j: int| 0 <= j < w.len() && w[j] == c0;
        assert(char_code(w[j]) == k - 1);
        assert(has_code(w, k - 1));
        if has_code(v, k - 1) {
            let i = choose|i: int| 0 <= i < v.len() && char_code(v[i]) == k - 1;
            assert(v[i] as u32 == c0 as u32);
            vstd::utf8::char_u32_cast(v[i], v[i] as u32);
            vstd::utf8::char_u32_cast(c0, c0 as u32);
            assert(v[i] == c0);
            assert(v.contains(c0));
        }
        assert(!has_code(v, k - 1));
    } else {
        lemma_score_sum_strict(t, v, w, c0, k - 1);
        if has_code(v, k - 1) {
            lemma_has_code_from_contains(v, w, k - 1);
        }
    }
}

/// Dropping a letter whose count is positive strictly lowers the score:
/// a repeated letter counts once, so a word that covers strictly fewer
/// distinct letters than another scores strictly less, as long as the
/// missing letter has a positive frequency.
pub proof fn lemma_score_strict_subset(t: FrequencyTable, v: Seq<char>, w: Seq<char>, c0: char)
    requires
        forall|c: char| v.contains(c) ==> w.contains(c),
        w.contains(c0),
        !v.contains(c0),
        t.count_code(char_code(c0)) > 0,
        0 <= char_code(c0) < 128,
    ensures
        word_score(t, v) < word_score(t, w),
{
    lemma_score_sum_strict(t, v, w, c0, 128);
}

/// For two words sharing no letters at all, the pair score is exactly the
/// sum of the two single-word scores: no penalty applies.
pub proof fn lemma_pair_score_disjoint(t: FrequencyTable, w1: Seq<char>, w2: Seq<char>)
    requires
        w1.len() == w2.len(),
        forall|i: int| 0 <= i < w2.len() ==> !w1.contains(#[trigger] w2[i]),
    ensures
        pair_score(t, w1, w2) == word_score(t, w1) + word_score(t, w2),
{
    lemma_penalties_disjoint(t, w1, w2, w2.len() as int);
}

proof fn lemma_penalties_disjoint(t: FrequencyTable, w1: Seq<char>, w2: Seq<char>, k: int)
    requires
        w1.len() == w2.len(),
        forall|i: int| 0 <= i < w2.len() ==> !w1.contains(#[trigger] w2[i]),
        0 <= k <= w2.len(),
    ensures
        penalties(t, w1, w2, k) == 0,
    decreases k,
{
    if k > 0 {
        lemma_penalties_disjoint(t, w1, w2, k - 1);
        if w1[k - 1] == w2[k - 1] {
            assert(w1.contains(w2[k - 1]));
        }
        assert(penalty_at(t, w1, w2, k - 1) == 0);
    }
}

/// The sum of each position's count of the second word: half the largest
/// penalty that the pair scorer can ever charge over those positions.
pub open spec fn pos_counts(t: FrequencyTable, w: Seq<char>, k: int) -> int
    decreases k,
{
    if k <= 0 {
        0
    } else {
        pos_counts(t, w, k - 1) + t.count_code(char_code(w[k - 1])) as int
    }
}

/// The penalty never exceeds twice the positional count sum: the full
/// penalty at every position is the worst case.
pub proof fn lemma_penalties_le_max(t: FrequencyTable, w1: Seq<char>, w2: Seq<char>, k: int)
    requires
        0 <= k,
    ensures
        penalties(t, w1, w2, k) <= 2 * pos_counts(t, w2, k),
    decreases k,
{
    if k > 0 {
        lemma_penalties_le_max(t, w1, w2, k - 1);
    }
}

/// A word paired with itself is charged the maximal penalty: every position
/// matches, so the pair score is twice the single score minus twice the
/// positional count sum. (Such self pairs never reach the library's results:
/// the pair scorers store only pairs of words at different candidate
/// positions.)
pub proof fn lemma_pair_score_self(t: FrequencyTable, w: Seq<char>)
    ensures
        penalties(t, w, w, w.len() as int) == 2 * pos_counts(t, w, w.len() as int),
        pair_score(t, w, w) == 2 * word_score(t, w) - 2 * pos_counts(t, w, w.len() as int),
{
    lemma_penalties_self(t, w, w.len() as int);
}

proof fn lemma_penalties_self(t: FrequencyTable, w: Seq<char>, k: int)
    requires
        0 <= k,
    ensures
        penalties(t, w, w, k) == 2 * pos_counts(t, w, k),
    decreases k,
{
    if k > 0 {
        lemma_penalties_self(t, w, k - 1);
    }
}

proof fn lemma_word_index_injective(words: Seq<Seq<char>>, x: int, y: int)
    requires
        distinct_words(words),
        0 <= x < words.len(),
        0 <= y < words.len(),
        words[x] == words[y],
    ensures
        x == y,
{
    if x < y {
        assert(words[x] != words[y]);
    }
    if y < x {
        assert(words[y] != words[x]);
    }
}

/// Canonical results never pair a word with itself, and a pair of words
/// appears in exactly one orientation: never as both (A, B) and (B, A).
/// Together with `distinct_keys`, each unordered pair appears at most once.
pub proof fn lemma_pairs_stored_once(
    t: FrequencyTable,
    words: Seq<Seq<char>>,
    s: Seq<((Seq<char>, Seq<char>), int)>,
)
    requires
        distinct_words(words),
        canonical_entries(t, words, 0, words.len() as int, s),
    ensures
        forall|k: int| 0 <= k < s.len() ==> (#[trigger] s[k]).0.0 != s[k].0.1,
        forall|k1: int, k2: int|
            #![trigger s[k1], s[k2]]
            0 <= k1 < s.len() && 0 <= k2 < s.len() ==> !(s[k1].0.0 == s[k2].0.1 && s[k1].0.1
                == s[k2].0.0),
{
    let n = words.len() as int;
    assert forall|k: int| 0 <= k < s.len() implies (#[trigger] s[k]).0.0 != s[k].0.1 by {
        assert(pair_rows(t, words, 0, n).contains(s[k]));
        lemma_pair_rows_membership(t, words, 0, n, s[k]);
        let (a, b) = choose|a: int, b: int|
            0 <= a < n && a < b < words.len() && s[k] == pair_entry(t, words, a, b);
        assert(words[a] != words[b]);
    }
    assert forall|k1: int, k2: int|
        #![trigger s[k1], s[k2]]
        0 <= k1 < s.len() && 0 <= k2 < s.len() implies !(s[k1].0.0 == s[k2].0.1 && s[k1].0.1
        == s[k2].0.0) by {
        if s[k1].0.0 == s[k2].0.1 && s[k1].0.1 == s[k2].0.0 {
            assert(pair_rows(t, words, 0, n).contains(s[k1]));
            assert(pair_rows(t, words, 0, n).contains(s[k2]));
            lemma_pair_rows_membership(t, words, 0, n, s[k1]);
            lemma_pair_rows_membership(t, words, 0, n, s[k2]);
            let (a1, b1) = choose|a: int, b: int|
                0 <= a < n && a < b < words.len() && s[k1] == pair_entry(t, words, a, b);
            let (a2, b2) = choose|a: int, b: int|
                0 <= a < n && a < b < words.len() && s[k2] == pair_entry(t, words, a, b);
            assert(words[a1] == words[b2]);
            assert(words[b1] == words[a2]);
            lemma_word_index_injective(words, a1, b2);
            lemma_word_index_injective(words, b1, a2);
            assert(a1 < b1 && a2 < b2);
            assert(false);
        }
    }
}

} // verus!
