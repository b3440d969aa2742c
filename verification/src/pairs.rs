//! Pair scoring over a candidate list: contiguous sharding, per-shard
//! scoring with an approximate top-`SHARD_KEEP` reduction, and the merged
//! sequential driver.
//!
//! A pair is identified by its two words regardless of order; the library
//! stores the orientation whose first word comes earlier in the candidate
//! list, scores each unordered pair exactly once, and never pairs a word
//! with itself.
use vstd::prelude::*;

use crate::freq::{FrequencyTable, ScoreError};
use crate::imap::{pair_map_entries, pair_map_entry_at, pair_map_insert, pair_map_len,
    pair_map_new};
use crate::rank::{pairs_sorted_desc, pairs_view, top_pairs};
use crate::score::{all_present, pair_score, score_word_pair, ScoredPair};

verus! {

/// How many pairs each shard keeps: the approximate top-K bound per worker.
pub const SHARD_KEEP: usize = 100;

/// How many workers the pair scorer shards across by default.
pub const DEFAULT_WORKERS: usize = 24;

/// Pairwise-distinct words, as a uniqueness-preserving set gives them.
pub open spec fn distinct_words(words: Seq<Seq<char>>) -> bool {
    forall|a: int, b: int|
        #![trigger words[a], words[b]]
        0 <= a < b < words.len() ==> words[a] != words[b]
}

/// Every word has exactly five characters.
pub open spec fn all_len5(words: Seq<Seq<char>>) -> bool {
    forall|i: int| 0 <= i < words.len() ==> (#[trigger] words[i]).len() == 5
}

/// Every word with index in `lo..hi` has all its letters in the table.
pub open spec fn present_range(t: FrequencyTable, words: Seq<Seq<char>>, lo: int, hi: int) -> bool {
    forall|k: int| lo <= k < hi ==> all_present(t, #[trigger] words[k])
}

/// The scored entry of the ordered index pair `(i, j)`.
pub open spec fn pair_entry(t: FrequencyTable, words: Seq<Seq<char>>, i: int, j: int) -> (
    (Seq<char>, Seq<char>),
    int,
) {
    ((words[i], words[j]), pair_score(t, words[i], words[j]))
}

/// All entries whose first word is `words[i]`: the second ranges over the
/// words after it.
pub open spec fn pair_row(t: FrequencyTable, words: Seq<Seq<char>>, i: int) -> Seq<
    ((Seq<char>, Seq<char>), int),
> {
    if 0 <= i && i + 1 <= words.len() {
        Seq::new((words.len() - i - 1) as nat, |k: int| pair_entry(t, words, i, i + 1 + k))
    } else {
        Seq::empty()
    }
}

/// All entries of the shard whose first-word indices lie in `lo..hi`, in
/// iteration order.
pub open spec fn pair_rows(t: FrequencyTable, words: Seq<Seq<char>>, lo: int, hi: int) -> Seq<
    ((Seq<char>, Seq<char>), int),
>
    decreases hi - lo,
{
    if lo >= hi {
        Seq::empty()
    } else {
        pair_rows(t, words, lo, hi - 1) + pair_row(t, words, hi - 1)
    }
}

/// Every entry of `s` is the scored canonical pair of some indices `(a, b)`
/// with `a` in `lo..hi` and `b` after `a`: each stored pair is oriented by
/// candidate-list order, and no word is paired with itself.
pub open spec fn canonical_entries(
    t: FrequencyTable,
    words: Seq<Seq<char>>,
    lo: int,
    hi: int,
    s: Seq<((Seq<char>, Seq<char>), int)>,
) -> bool {
    forall|k: int|
        #![trigger s[k]]
        0 <= k < s.len() ==> pair_rows(t, words, lo, hi).contains(s[k])
}

/// No two entries of `s` hold the same word pair.
pub open spec fn distinct_keys(s: Seq<((Seq<char>, Seq<char>), int)>) -> bool {
    forall|k1: int, k2: int|
        #![trigger s[k1], s[k2]]
        0 <= k1 < k2 < s.len() ==> s[k1].0 != s[k2].0
}

/// A shard's entries are exactly the scored canonical index pairs of its range.
pub proof fn lemma_pair_rows_membership(
    t: FrequencyTable,
    words: Seq<Seq<char>>,
    lo: int,
    hi: int,
    x: ((Seq<char>, Seq<char>), int),
)
    requires
        0 <= lo <= hi <= words.len(),
    ensures
        pair_rows(t, words, lo, hi).contains(x) <==> exists|a: int, b: int|
            #![trigger pair_entry(t, words, a, b)]
            lo <= a < hi && a < b < words.len() && x == pair_entry(t, words, a, b),
    decreases hi - lo,
{
    if lo >= hi {
        assert(pair_rows(t, words, lo, hi) =~= Seq::<((Seq<char>, Seq<char>), int)>::empty());
        assert(!pair_rows(t, words, lo, hi).contains(x));
    } else {
        lemma_pair_rows_membership(t, words, lo, hi - 1, x);
        let pre = pair_rows(t, words, lo, hi - 1);
        let row = pair_row(t, words, hi - 1);
        assert(pair_rows(t, words, lo, hi) == pre + row);
        if pair_rows(t, words, lo, hi).contains(x) {
            let idx = choose|idx: int| 0 <= idx < (pre + row).len() && (pre + row)[idx] == x;
            if idx < pre.len() {
                assert(pre[idx] == x);
                assert(pre.contains(x));
            } else {
                let k = idx - pre.len();
                assert(row[k] == x);
                assert(x == pair_entry(t, words, hi - 1, hi + k));
                assert(lo <= hi - 1 < hi && hi - 1 < hi + k < words.len() && x == pair_entry(
                    t,
                    words,
                    hi - 1,
                    hi + k,
                ));
            }
        }
        if exists|a: int, b: int|
            lo <= a < hi && a < b < words.len() && x == pair_entry(t, words, a, b) {
            let (a, b) = choose|a: int, b: int|
                lo <= a < hi && a < b < words.len() && x == pair_entry(t, words, a, b);
            if a < hi - 1 {
                assert(pre.contains(x));
                let pi = choose|pi: int| 0 <= pi < pre.len() && pre[pi] == x;
                assert((pre + row)[pi] == x);
                assert(pair_rows(t, words, lo, hi).contains(x));
            } else {
                let k = b - hi;
                assert(row[k] == pair_entry(t, words, hi - 1, b));
                assert((pre + row)[pre.len() + k] == x);
                assert(pair_rows(t, words, lo, hi).contains(x));
            }
        }
    }
}

/// With distinct words, no two shard entries share the same word pair.
pub proof fn lemma_pair_rows_distinct(t: FrequencyTable, words: Seq<Seq<char>>, lo: int, hi: int)
    requires
        0 <= lo <= hi <= words.len(),
        distinct_words(words),
    ensures
        distinct_keys(pair_rows(t, words, lo, hi)),
    decreases hi - lo,
{
    if lo >= hi {
        assert(pair_rows(t, words, lo, hi) =~= Seq::<((Seq<char>, Seq<char>), int)>::empty());
    } else {
        lemma_pair_rows_distinct(t, words, lo, hi - 1);
        let pre = pair_rows(t, words, lo, hi - 1);
        let row = pair_row(t, words, hi - 1);
        let whole = pair_rows(t, words, lo, hi);
        assert(whole == pre + row);
        assert forall|k1: int, k2: int|
            #![trigger whole[k1], whole[k2]]
            0 <= k1 < k2 < whole.len() implies whole[k1].0 != whole[k2].0 by {
            if k2 < pre.len() {
                assert(whole[k1] == pre[k1] && whole[k2] == pre[k2]);
                assert(pre[k1].0 != pre[k2].0);
            } else if k1 >= pre.len() {
                let b1 = hi + (k1 - pre.len());
                let b2 = hi + (k2 - pre.len());
                assert(whole[k1] == pair_entry(t, words, hi - 1, b1));
                assert(whole[k2] == pair_entry(t, words, hi - 1, b2));
                assert(words[b1] != words[b2]);
            } else {
                assert(whole[k1] == pre[k1]);
                assert(pre.contains(pre[k1]));
                lemma_pair_rows_membership(t, words, lo, hi - 1, pre[k1]);
                let (a, b) = choose|a: int, b: int|
                    lo <= a < hi - 1 && a < b < words.len() && pre[k1] == pair_entry(t, words, a, b);
                assert(whole[k2] == pair_entry(t, words, hi - 1, hi + (k2 - pre.len())));
                assert(words[a] != words[hi - 1]);
            }
        }
    }
}

/// Entries drawn from a shard's rows are all canonical scored pairs.
pub proof fn lemma_canonical_from_subset(
    t: FrequencyTable,
    words: Seq<Seq<char>>,
    lo: int,
    hi: int,
    s: Seq<((Seq<char>, Seq<char>), int)>,
)
    requires
        0 <= lo <= hi <= words.len(),
        s.to_multiset().subset_of(pair_rows(t, words, lo, hi).to_multiset()),
    ensures
        canonical_entries(t, words, lo, hi, s),
{
    let rows = pair_rows(t, words, lo, hi);
    s.to_multiset_ensures();
    rows.to_multiset_ensures();
    assert forall|k: int|
        #![trigger s[k]]
        0 <= k < s.len() implies rows.contains(s[k]) by {
        assert(s.contains(s[k]));
        assert(s.to_multiset().count(s[k]) > 0);
        assert(rows.to_multiset().count(s[k]) > 0);
    }
}

/// Entries drawn without repetition from a shard's rows hold pairwise
/// different word pairs.
pub proof fn lemma_distinct_from_subset(
    t: FrequencyTable,
    words: Seq<Seq<char>>,
    lo: int,
    hi: int,
    s: Seq<((Seq<char>, Seq<char>), int)>,
)
    requires
        0 <= lo <= hi <= words.len(),
        distinct_words(words),
        s.to_multiset().subset_of(pair_rows(t, words, lo, hi).to_multiset()),
    ensures
        distinct_keys(s),
{
    broadcast use vstd::multiset::group_multiset_axioms;

    let rows = pair_rows(t, words, lo, hi);
    s.to_multiset_ensures();
    rows.to_multiset_ensures();
    lemma_canonical_from_subset(t, words, lo, hi, s);
    lemma_pair_rows_distinct(t, words, lo, hi);
    assert forall|k1: int, k2: int|
        #![trigger s[k1], s[k2]]
        0 <= k1 < k2 < s.len() implies s[k1].0 != s[k2].0 by {
        if s[k1].0 == s[k2].0 {
            assert(rows.contains(s[k1]));
            assert(rows.contains(s[k2]));
            lemma_pair_rows_membership(t, words, lo, hi, s[k1]);
            lemma_pair_rows_membership(t, words, lo, hi, s[k2]);
            let (a1, b1) = choose|a: int, b: int|
                lo <= a < hi && a < b < words.len() && s[k1] == pair_entry(t, words, a, b);
            let (a2, b2) = choose|a: int, b: int|
                lo <= a < hi && a < b < words.len() && s[k2] == pair_entry(t, words, a, b);
            if a1 != a2 {
                assert(words[a1] != words[a2]);
            }
            if b1 != b2 {
                assert(words[b1] != words[b2]);
            }
            assert(s[k1] == s[k2]);
            assert forall|p1: int, p2: int|
                #![trigger rows[p1], rows[p2]]
                0 <= p1 < rows.len() && 0 <= p2 < rows.len() && p1 != p2 implies rows[p1]
                != rows[p2] by {
                if p1 < p2 {
                    assert(rows[p1].0 != rows[p2].0);
                } else {
                    assert(rows[p2].0 != rows[p1].0);
                }
            }
            assert(rows.no_duplicates());
            rows.lemma_multiset_has_no_duplicates();
            let s0 = s.subrange(0, k2);
            let s1 = s.subrange(k2, s.len() as int);
            assert(s =~= s0 + s1);
            vstd::seq_lib::lemma_multiset_commutative(s0, s1);
            s0.to_multiset_ensures();
            s1.to_multiset_ensures();
            assert(s0[k1] == s[k1]);
            assert(s0.contains(s[k1]));
            assert(s1[0] == s[k2]);
            assert(s1.contains(s[k2]));
            assert(s.to_multiset().count(s[k1]) >= 2);
            assert(rows.to_multiset().count(s[k1]) >= 2);
            assert(rows.to_multiset().contains(s[k1]));
            assert(false);
        }
    }
}

/// Every letter of every word the shard's pairs touch is present in the
/// table: the condition under which the shard scorer is owed success. A
/// shard with no pairs at all (an empty range, or one starting at the last
/// word) touches nothing.
pub open spec fn shard_ok(t: FrequencyTable, words: Seq<Seq<char>>, lo: int, hi: int) -> bool {
    lo < hi && lo + 1 < words.len() ==> present_range(t, words, lo, words.len() as int)
}

/// Scores one shard: every pair whose first word's index lies in `lo..hi`
/// and whose second word comes later in the list, accumulated into an
/// `indexmap::IndexMap` keyed by the word pair, then reduced to the shard's
/// `SHARD_KEEP` best entries, sorted descending. Errs with
/// `InvariantViolation` exactly when a touched word has a letter absent from
/// the table.
pub fn score_word_pairs_shard(
    words: &Vec<String>,
    lo: usize,
    hi: usize,
    letter_frequencies: &FrequencyTable,
) -> (r: Result<Vec<ScoredPair>, ScoreError>)
    requires
        letter_frequencies.wf(),
        lo <= hi <= words@.len(),
        all_len5(words.deep_view()),
        distinct_words(words.deep_view()),
    ensures
        match r {
            Ok(v) => {
                &&& shard_ok(*letter_frequencies, words.deep_view(), lo as int, hi as int)
                &&& pairs_sorted_desc(v@)
                &&& v@.len() == if SHARD_KEEP as int <= pair_rows(
                    *letter_frequencies,
                    words.deep_view(),
                    lo as int,
                    hi as int,
                ).len() {
                    SHARD_KEEP as int
                } else {
                    pair_rows(
                        *letter_frequencies,
                        words.deep_view(),
                        lo as int,
                        hi as int,
                    ).len() as int
                }
                &&& pairs_view(v@).to_multiset().subset_of(
                    pair_rows(
                        *letter_frequencies,
                        words.deep_view(),
                        lo as int,
                        hi as int,
                    ).to_multiset(),
                )
                &&& (forall|x: ((Seq<char>, Seq<char>), int)|
                    pair_rows(
                        *letter_frequencies,
                        words.deep_view(),
                        lo as int,
                        hi as int,
                    ).to_multiset().count(x) > pairs_view(v@).to_multiset().count(x)
                        ==> forall|j: int| 0 <= j < v@.len() ==> x.1 <= (#[trigger] v@[j]).score)
                &&& canonical_entries(
                    *letter_frequencies,
                    words.deep_view(),
                    lo as int,
                    hi as int,
                    pairs_view(v@),
                )
                &&& distinct_keys(pairs_view(v@))
            },
            Err(e) => e == ScoreError::InvariantViolation && !shard_ok(
                *letter_frequencies,
                words.deep_view(),
                lo as int,
                hi as int,
            ),
        },
{
    broadcast use vstd::seq_lib::group_to_multiset_ensures;
    broadcast use vstd::multiset::group_multiset_axioms;

    let ghost dv = words.deep_view();
    let ghost t = *letter_frequencies;
    proof {
        assert(dv.len() == words@.len());
        assert(forall|k: int| 0 <= k < words@.len() ==> dv[k] == #[trigger] words@[k]@);
    }
    let n = words.len();
    let mut map = pair_map_new();
    let mut i: usize = lo;
    while i < hi
        invariant
            lo <= i <= hi <= n,
            n == words@.len(),
            dv == words.deep_view(),
            dv.len() == words@.len(),
            forall|k: int| 0 <= k < words@.len() ==> dv[k] == #[trigger] words@[k]@,
            letter_frequencies.wf(),
            t == *letter_frequencies,
            all_len5(dv),
            distinct_words(dv),
            pair_map_entries(map) == pair_rows(t, dv, lo as int, i as int),
            i > lo && lo + 1 < n ==> present_range(t, dv, lo as int, n as int),
        decreases hi - i,
    {
        let mut j: usize = i + 1;
        proof {
            assert(pair_row(t, dv, i as int).take(0) =~= Seq::<
                ((Seq<char>, Seq<char>), int),
            >::empty());
            assert(pair_map_entries(map) =~= pair_rows(t, dv, lo as int, i as int) + pair_row(
                t,
                dv,
                i as int,
            ).take(0));
        }
        while j < n
            invariant
                lo <= i < hi <= n,
                i < j <= n,
                n == words@.len(),
                dv == words.deep_view(),
                dv.len() == words@.len(),
                forall|k: int| 0 <= k < words@.len() ==> dv[k] == #[trigger] words@[k]@,
                letter_frequencies.wf(),
                t == *letter_frequencies,
                all_len5(dv),
                distinct_words(dv),
                pair_map_entries(map) == pair_rows(t, dv, lo as int, i as int) + pair_row(
                    t,
                    dv,
                    i as int,
                ).take(j - i - 1),
                i > lo && lo + 1 < n ==> present_range(t, dv, lo as int, n as int),
                i == lo && j > i + 1 ==> all_present(t, dv[i as int]) && present_range(
                    t,
                    dv,
                    i + 1,
                    j as int,
                ),
            decreases n - j,
        {
            let s = match score_word_pair(&words[i], &words[j], letter_frequencies) {
                Ok(s) => s,
                Err(e) => {
                    proof {
                        assert(!(all_present(t, dv[i as int]) && all_present(t, dv[j as int])));
                        assert(lo < hi && lo + 1 < n);
                        if shard_ok(t, dv, lo as int, hi as int) {
                            assert(present_range(t, dv, lo as int, n as int));
                            assert(all_present(t, dv[i as int]));
                            assert(all_present(t, dv[j as int]));
                        }
                    }
                    return Err(e);
                },
            };
            let ghost key = (dv[i as int], dv[j as int]);
            proof {
                let es = pair_map_entries(map);
                let pre = pair_rows(t, dv, lo as int, i as int);
                let row = pair_row(t, dv, i as int);
                assert forall|k: int| 0 <= k < es.len() implies (#[trigger] es[k]).0 != key by {
                    if k < pre.len() {
                        assert(es[k] == pre[k]);
                        assert(pre.contains(pre[k]));
                        lemma_pair_rows_membership(t, dv, lo as int, i as int, pre[k]);
                        let (a, b) = choose|a: int, b: int|
                            lo <= a < i && a < b < dv.len() && pre[k] == pair_entry(t, dv, a, b);
                        assert(dv[a] != dv[i as int]);
                    } else {
                        let kk = k - pre.len();
                        assert(es[k] == row.take(j - i - 1)[kk]);
                        assert(es[k] == pair_entry(t, dv, i as int, i + 1 + kk));
                        assert(i + 1 + kk < j);
                        assert(dv[i + 1 + kk] != dv[j as int]);
                    }
                }
            }
            let ghost pre_entries = pair_map_entries(map);
            pair_map_insert(&mut map, (words[i].clone(), words[j].clone()), s);
            proof {
                assert(pair_map_entries(map) === pre_entries.push((key, s as int)));
                assert((key, s as int) == pair_entry(t, dv, i as int, j as int));
                let row = pair_row(t, dv, i as int);
                assert(row[j - i - 1] == pair_entry(t, dv, i as int, j as int));
                assert(row.take(j - i - 1).push(row[j - i - 1]) =~= row.take(j - i));
                assert(pair_map_entries(map) =~= pair_rows(t, dv, lo as int, i as int) + row.take(
                    j - i,
                ));
                if i == lo {
                    assert forall|k: int| i + 1 <= k < j + 1 implies all_present(
                        t,
                        #[trigger] dv[k],
                    ) by {
                        if k < j {
                            assert(present_range(t, dv, i + 1, j as int));
                        } else {
                            assert(k == j);
                        }
                    }
                    assert(present_range(t, dv, i + 1, j + 1));
                }
            }
            j += 1;
        }
        proof {
            let row = pair_row(t, dv, i as int);
            assert(row.take(n - i - 1) =~= row);
            assert(pair_map_entries(map) =~= pair_rows(t, dv, lo as int, i as int) + row);
            assert(pair_map_entries(map) =~= pair_rows(t, dv, lo as int, i + 1));
            if lo + 1 < n && i == lo {
                assert(j == n && j > i + 1);
                assert(all_present(t, dv[lo as int]) && present_range(t, dv, lo + 1, n as int));
                assert forall|k: int| lo <= k < n implies all_present(t, #[trigger] dv[k]) by {
                    if k > lo {
                        assert(present_range(t, dv, lo + 1, n as int));
                    }
                }
                assert(present_range(t, dv, lo as int, n as int));
            }
        }
        i += 1;
    }
    let ghost all_entries = pair_map_entries(map);
    proof {
        assert(all_entries == pair_rows(t, dv, lo as int, hi as int));
        assert(shard_ok(t, dv, lo as int, hi as int));
    }
    let m = pair_map_len(&map);
    let mut flat: Vec<ScoredPair> = Vec::new();
    let mut k: usize = 0;
    proof {
        assert(pairs_view(flat@) =~= all_entries.take(0));
    }
    while k < m
        invariant
            0 <= k <= m,
            m == all_entries.len(),
            all_entries == pair_map_entries(map),
            flat@.len() == k as int,
            pairs_view(flat@) == all_entries.take(k as int),
        decreases m - k,
    {
        let ghost pre_flat = flat@;
        let e = pair_map_entry_at(&map, k);
        flat.push(ScoredPair { word1: e.0.0, word2: e.0.1, score: e.1 });
        proof {
            assert(pairs_view(flat@) =~= pairs_view(pre_flat).push(all_entries[k as int]));
            assert(all_entries.take(k as int).push(all_entries[k as int]) =~= all_entries.take(
                k + 1,
            ));
        }
        k += 1;
    }
    proof {
        assert(all_entries.take(m as int) =~= all_entries);
        assert(pairs_view(flat@) == all_entries);
    }
    let kept = top_pairs(flat, SHARD_KEEP);
    proof {
        let rows = pair_rows(t, dv, lo as int, hi as int);
        assert(pairs_view(flat@) == rows);
        lemma_canonical_from_subset(t, dv, lo as int, hi as int, pairs_view(kept@));
        lemma_distinct_from_subset(t, dv, lo as int, hi as int, pairs_view(kept@));
    }
    Ok(kept)
}

/// Widening the index range keeps entries canonical.
pub proof fn lemma_canonical_widen(
    t: FrequencyTable,
    words: Seq<Seq<char>>,
    lo1: int,
    hi1: int,
    lo2: int,
    hi2: int,
    s: Seq<((Seq<char>, Seq<char>), int)>,
)
    requires
        0 <= lo2 <= lo1 <= hi1 <= hi2 <= words.len(),
        canonical_entries(t, words, lo1, hi1, s),
    ensures
        canonical_entries(t, words, lo2, hi2, s),
{
    assert forall|k: int|
        #![trigger s[k]]
        0 <= k < s.len() implies pair_rows(t, words, lo2, hi2).contains(s[k]) by {
        assert(pair_rows(t, words, lo1, hi1).contains(s[k]));
        lemma_pair_rows_membership(t, words, lo1, hi1, s[k]);
        lemma_pair_rows_membership(t, words, lo2, hi2, s[k]);
    }
}

/// Sum of the sizes of the first `k` ranges.
pub open spec fn ranges_size_sum(r: Seq<(usize, usize)>, k: int) -> int
    decreases k,
{
    if k <= 0 {
        0
    } else {
        ranges_size_sum(r, k - 1) + ((r[k - 1]).1 - (r[k - 1]).0)
    }
}

proof fn lemma_ranges_telescope(r: Seq<(usize, usize)>, k: int)
    requires
        1 <= k <= r.len(),
        forall|i: int| 0 <= i < r.len() ==> (#[trigger] r[i]).0 <= (r[i]).1,
        forall|i: int| 0 <= i < r.len() - 1 ==> ((#[trigger] r[i]).1) == (r[i + 1]).0,
    ensures
        ranges_size_sum(r, k) == (r[k - 1]).1 - (r[0]).0,
    decreases k,
{
    if k > 1 {
        lemma_ranges_telescope(r, k - 1);
        assert((r[k - 2]).1 == (r[k - 1]).0);
    } else {
        assert(ranges_size_sum(r, 0) == 0);
    }
}

/// Sharding partitions the candidate list: the contiguous, disjoint ranges'
/// sizes sum exactly to the list's length, so no candidate is lost or
/// duplicated.
pub proof fn lemma_shard_sizes(r: Seq<(usize, usize)>, n: int)
    requires
        r.len() >= 1,
        (r[0]).0 == 0,
        (r[r.len() - 1]).1 == n,
        forall|i: int| 0 <= i < r.len() ==> (#[trigger] r[i]).0 <= (r[i]).1,
        forall|i: int| 0 <= i < r.len() - 1 ==> ((#[trigger] r[i]).1) == (r[i + 1]).0,
    ensures
        ranges_size_sum(r, r.len() as int) == n,
{
    lemma_ranges_telescope(r, r.len() as int);
}

/// Where the `i`-th of `workers` contiguous near-equal shards of `0..n`
/// begins: the first `n % workers` shards get one element more.
pub open spec fn shard_start(n: int, workers: int, i: int) -> int {
    let q = n / workers;
    let rem = n % workers;
    i * q + if i <= rem {
        i
    } else {
        rem
    }
}

/// Splits `0..n` into `workers` contiguous ranges of near-equal size: the
/// first `n % workers` ranges get one extra element, so the division
/// remainder is absorbed and every index lies in exactly one range.
pub fn shard_ranges(n: usize, workers: usize) -> (r: Vec<(usize, usize)>)
    requires
        1 <= workers,
    ensures
        r@.len() == workers as int,
        (r@[0]).0 == 0,
        (r@[workers as int - 1]).1 == n,
        forall|i: int| 0 <= i < workers ==> (#[trigger] r@[i]).0 <= (r@[i]).1 <= n,
        forall|i: int| 0 <= i < workers as int - 1 ==> ((#[trigger] r@[i]).1) == (r@[i + 1]).0,
        forall|i: int|
            0 <= i < workers ==> ((#[trigger] r@[i]).0 == shard_start(n as int, workers as int, i)
                && (r@[i]).1 == shard_start(n as int, workers as int, i + 1)),
{
    let q = n / workers;
    let rem = n % workers;
    proof {
        vstd::arithmetic::div_mod::lemma_fundamental_div_mod(n as int, workers as int);
    }
    let mut out: Vec<(usize, usize)> = Vec::new();
    let mut start: usize = 0;
    let mut i: usize = 0;
    while i < workers
        invariant
            0 <= i <= workers,
            1 <= workers,
            q == n as int / workers as int,
            rem == n as int % workers as int,
            n as int == workers as int * q as int + rem as int,
            0 <= rem < workers,
            out@.len() == i as int,
            start as int == i as int * q as int + if i as int <= rem as int {
                i as int
            } else {
                rem as int
            },
            start <= n,
            i > 0 ==> (out@[0]).0 == 0,
            forall|k: int| 0 <= k < i ==> (#[trigger] out@[k]).0 <= (out@[k]).1 <= n,
            forall|k: int| 0 <= k < i as int - 1 ==> ((#[trigger] out@[k]).1) == (out@[k + 1]).0,
            i > 0 ==> (out@[i as int - 1]).1 == start,
            forall|k: int|
                0 <= k < i ==> ((#[trigger] out@[k]).0 == shard_start(n as int, workers as int, k)
                    && (out@[k]).1 == shard_start(n as int, workers as int, k + 1)),
        decreases workers - i,
    {
        proof {
            assert((i + 1) as int * q as int == i as int * q as int + q as int)
                by (nonlinear_arith);
            assert((i + 1) as int * q as int <= workers as int * q as int) by (nonlinear_arith)
                requires
                    0 <= q,
                    i + 1 <= workers,
            ;
        }
        let size = if i < rem {
            q + 1
        } else {
            q
        };
        let end = start + size;
        out.push((start, end));
        start = end;
        i += 1;
    }
    out
}

/// How many entries the shards up to the `k`-th keep in all: each shard
/// keeps its row count, capped at `SHARD_KEEP`.
pub open spec fn kept_len_sum(
    t: FrequencyTable,
    words: Seq<Seq<char>>,
    workers: int,
    k: int,
) -> int
    decreases k,
{
    if k <= 0 {
        0
    } else {
        kept_len_sum(t, words, workers, k - 1) + ({
            let rows_len = pair_rows(
                t,
                words,
                shard_start(words.len() as int, workers, k - 1),
                shard_start(words.len() as int, workers, k),
            ).len() as int;
            if SHARD_KEEP as int <= rows_len {
                SHARD_KEEP as int
            } else {
                rows_len
            }
        })
    }
}

/// Scores every unordered pair of candidate words, sequentially over the
/// default shard layout, and merges the shards' kept entries in shard
/// order. Every entry of the result is a canonical scored pair (first word
/// earlier in the list, so no pair appears twice and no word pairs with
/// itself). Errs with `InvariantViolation` exactly when some word has a
/// letter absent from the table while there are at least two words.
pub fn score_word_pairs(all_words: &Vec<String>, letter_frequencies: &FrequencyTable) -> (r: Result<
    Vec<ScoredPair>,
    ScoreError,
>)
    requires
        letter_frequencies.wf(),
        all_len5(all_words.deep_view()),
        distinct_words(all_words.deep_view()),
    ensures
        match r {
            Ok(v) => {
                &&& canonical_entries(
                    *letter_frequencies,
                    all_words.deep_view(),
                    0,
                    all_words.deep_view().len() as int,
                    pairs_view(v@),
                )
                &&& distinct_keys(pairs_view(v@))
                &&& v@.len() == kept_len_sum(
                    *letter_frequencies,
                    all_words.deep_view(),
                    DEFAULT_WORKERS as int,
                    DEFAULT_WORKERS as int,
                )
                &&& (all_words.deep_view().len() >= 2 ==> present_range(
                    *letter_frequencies,
                    all_words.deep_view(),
                    0,
                    all_words.deep_view().len() as int,
                ))
            },
            Err(e) => {
                &&& e == ScoreError::InvariantViolation
                &&& all_words.deep_view().len() >= 2
                &&& !present_range(
                    *letter_frequencies,
                    all_words.deep_view(),
                    0,
                    all_words.deep_view().len() as int,
                )
            },
        },
{
    let ghost dv = all_words.deep_view();
    let ghost t = *letter_frequencies;
    proof {
        assert(dv.len() == all_words@.len());
    }
    let n = all_words.len();
    let ranges = shard_ranges(n, DEFAULT_WORKERS);
    let mut acc: Vec<ScoredPair> = Vec::new();
    let mut idx: usize = 0;
    let ghost mut bound: int = 0;
    proof {
        assert(pairs_view(acc@) =~= Seq::<((Seq<char>, Seq<char>), int)>::empty());
    }
    while idx < ranges.len()
        invariant
            0 <= idx <= ranges@.len(),
            ranges@.len() == DEFAULT_WORKERS as int,
            n == all_words@.len(),
            dv == all_words.deep_view(),
            dv.len() == all_words@.len(),
            letter_frequencies.wf(),
            t == *letter_frequencies,
            all_len5(dv),
            distinct_words(dv),
            (ranges@[0]).0 == 0,
            (ranges@[ranges@.len() - 1]).1 == n,
            forall|i: int| 0 <= i < ranges@.len() ==> (#[trigger] ranges@[i]).0 <= (ranges@[i]).1
                <= n,
            forall|i: int|
                0 <= i < ranges@.len() - 1 ==> ((#[trigger] ranges@[i]).1) == (ranges@[i + 1]).0,
            idx < ranges@.len() ==> bound == (ranges@[idx as int]).0 as int,
            idx == ranges@.len() ==> bound == n as int,
            0 <= bound <= n,
            forall|i: int|
                0 <= i < ranges@.len() ==> ((#[trigger] ranges@[i]).0 == shard_start(
                    n as int,
                    DEFAULT_WORKERS as int,
                    i,
                ) && (ranges@[i]).1 == shard_start(n as int, DEFAULT_WORKERS as int, i + 1)),
            acc@.len() == kept_len_sum(t, dv, DEFAULT_WORKERS as int, idx as int),
            canonical_entries(t, dv, 0, bound, pairs_view(acc@)),
            distinct_keys(pairs_view(acc@)),
            bound >= 1 && n >= 2 ==> present_range(t, dv, 0, n as int),
        decreases ranges@.len() - idx,
    {
        let r = ranges[idx];
        let mut part = match score_word_pairs_shard(all_words, r.0, r.1, letter_frequencies) {
            Ok(p) => p,
            Err(e) => {
                proof {
                    assert(r.0 < r.1 && r.0 + 1 < n);
                    assert(!present_range(t, dv, r.0 as int, n as int));
                    if present_range(t, dv, 0, n as int) {
                        assert forall|k: int| r.0 as int <= k < n implies all_present(
                            t,
                            #[trigger] dv[k],
                        ) by {
                            assert(present_range(t, dv, 0, n as int));
                        }
                        assert(present_range(t, dv, r.0 as int, n as int));
                    }
                }
                return Err(e);
            },
        };
        let ghost acc_pre = acc@;
        let ghost part_view = pairs_view(part@);
        acc.append(&mut part);
        proof {
            let p = pairs_view(acc_pre);
            let q = part_view;
            let av = pairs_view(acc@);
            assert(av =~= p + q);
            lemma_canonical_widen(t, dv, 0, bound, 0, r.1 as int, p);
            lemma_canonical_widen(t, dv, r.0 as int, r.1 as int, 0, r.1 as int, q);
            assert forall|k: int|
                #![trigger av[k]]
                0 <= k < av.len() implies pair_rows(t, dv, 0, r.1 as int).contains(av[k]) by {
                if k < p.len() {
                    assert(av[k] == p[k]);
                } else {
                    assert(av[k] == q[k - p.len()]);
                }
            }
            assert(canonical_entries(t, dv, 0, r.1 as int, av));
            assert forall|k1: int, k2: int|
                #![trigger av[k1], av[k2]]
                0 <= k1 < k2 < av.len() implies av[k1].0 != av[k2].0 by {
                if k2 < p.len() {
                    assert(av[k1] == p[k1] && av[k2] == p[k2]);
                    assert(p[k1].0 != p[k2].0);
                } else if k1 >= p.len() {
                    assert(av[k1] == q[k1 - p.len()] && av[k2] == q[k2 - p.len()]);
                    assert(q[k1 - p.len()].0 != q[k2 - p.len()].0);
                } else {
                    assert(av[k1] == p[k1] && av[k2] == q[k2 - p.len()]);
                    if av[k1].0 == av[k2].0 {
                        assert(pair_rows(t, dv, 0, bound).contains(p[k1]));
                        lemma_pair_rows_membership(t, dv, 0, bound, p[k1]);
                        let (a1, b1) = choose|a: int, b: int|
                            0 <= a < bound && a < b < dv.len() && p[k1] == pair_entry(t, dv, a, b);
                        assert(pair_rows(t, dv, r.0 as int, r.1 as int).contains(q[k2 - p.len()]));
                        lemma_pair_rows_membership(
                            t,
                            dv,
                            r.0 as int,
                            r.1 as int,
                            q[k2 - p.len()],
                        );
                        let (a2, b2) = choose|a: int, b: int|
                            r.0 as int <= a < r.1 as int && a < b < dv.len() && q[k2 - p.len()]
                                == pair_entry(t, dv, a, b);
                        assert(dv[a1] == dv[a2]);
                        if a1 != a2 {
                            assert(dv[a1] != dv[a2]);
                        }
                        assert(false);
                    }
                }
            }
            assert(distinct_keys(av));
            if bound == 0 && r.1 >= 1 && n >= 2 {
                assert(present_range(t, dv, 0, n as int));
            }
            assert(acc@.len() == kept_len_sum(t, dv, DEFAULT_WORKERS as int, idx + 1));
            bound = r.1 as int;
        }
        idx += 1;
    }
    proof {
        assert(bound == n as int);
    }
    Ok(acc)
}

} // verus!
