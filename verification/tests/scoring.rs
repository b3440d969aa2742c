use starting_words::freq::{letter_frequencies, ScoreError};
use starting_words::pairs::{score_word_pairs, score_word_pairs_shard, shard_ranges};
use starting_words::rank::{top_pairs, top_words};
use starting_words::score::{score_single_words, score_word_pair, single_word_score, ScoredPair,
    ScoredWord};
use starting_words::words::{filter_starting_words, is_possible_starting_word, un_pluralize};

fn words(list: &[&str]) -> Vec<String> {
    list.iter().map(|w| w.to_string()).collect()
}

#[test]
fn filter_rejects_wrong_length() {
    assert!(!is_possible_starting_word(&"cat".to_string()));
    assert!(!is_possible_starting_word(&"apples".to_string()));
    assert!(!is_possible_starting_word(&"".to_string()));
    assert!(is_possible_starting_word(&"apple".to_string()));
    assert!(is_possible_starting_word(&"ab1de".to_string()));
}

#[test]
fn filter_rejects_special_characters() {
    assert!(!is_possible_starting_word(&"cat's".to_string()));
    assert!(!is_possible_starting_word(&"ab-de".to_string()));
    assert!(!is_possible_starting_word(&"na\u{ef}ve".to_string()));
    assert!(!is_possible_starting_word(&"ab de".to_string()));
}

#[test]
fn un_pluralize_strips_one_trailing_s() {
    assert_eq!(un_pluralize(&"cats".to_string()), "cat");
    assert_eq!(un_pluralize(&"cat".to_string()), "cat");
    assert_eq!(un_pluralize(&"boss".to_string()), "bos");
    assert_eq!(un_pluralize(&"".to_string()), "");
}

#[test]
fn frequencies_skip_possessives_and_plural_duplicates() {
    let set = words(&["cat", "cats", "cat's"]);
    let table = letter_frequencies(&set).unwrap();
    assert_eq!(table.total_letters_counted(), 3);
    assert_eq!(table.count_of('c'), Some(1));
    assert_eq!(table.count_of('a'), Some(1));
    assert_eq!(table.count_of('t'), Some(1));
    assert_eq!(table.count_of('s'), None);
}

#[test]
fn frequencies_count_plural_without_singular() {
    let set = words(&["dogs"]);
    let table = letter_frequencies(&set).unwrap();
    assert_eq!(table.total_letters_counted(), 4);
    assert_eq!(table.count_of('s'), Some(1));
}

#[test]
fn frequencies_fail_fast_on_empty_input() {
    let set: Vec<String> = Vec::new();
    assert_eq!(letter_frequencies(&set).unwrap_err(), ScoreError::EmptyInput);
    let only_skipped = words(&["it's"]);
    assert_eq!(
        letter_frequencies(&only_skipped).unwrap_err(),
        ScoreError::EmptyInput
    );
}

#[test]
fn single_score_counts_distinct_letters_once() {
    let set = words(&["cat"]);
    let table = letter_frequencies(&set).unwrap();
    assert_eq!(single_word_score(&"cat".to_string(), &table), Ok(6));
    assert_eq!(single_word_score(&"tac".to_string(), &table), Ok(6));
    assert_eq!(single_word_score(&"tact".to_string(), &table), Ok(6));
    assert_eq!(single_word_score(&"at".to_string(), &table), Ok(4));
}

#[test]
fn single_score_fails_on_missing_letter() {
    let set = words(&["cat"]);
    let table = letter_frequencies(&set).unwrap();
    assert_eq!(
        single_word_score(&"cab".to_string(), &table),
        Err(ScoreError::InvariantViolation)
    );
}

#[test]
fn missing_letter_from_excluded_plural() {
    // "lions" is skipped as the plural of "lion", so 's' is absent from the
    // table although "lions" itself is a five-letter candidate.
    let set = words(&["lion", "lions"]);
    let table = letter_frequencies(&set).unwrap();
    assert_eq!(table.count_of('s'), None);
    assert_eq!(
        single_word_score(&"lions".to_string(), &table),
        Err(ScoreError::InvariantViolation)
    );
    let candidates = words(&["lions", "nsoil"]);
    assert_eq!(
        score_word_pairs(&candidates, &table).unwrap_err(),
        ScoreError::InvariantViolation
    );
}

#[test]
fn pair_score_of_disjoint_words_is_sum_of_singles() {
    let set = words(&["abcde", "fghij"]);
    let table = letter_frequencies(&set).unwrap();
    let w1 = "abcde".to_string();
    let w2 = "fghij".to_string();
    assert_eq!(single_word_score(&w1, &table), Ok(10));
    assert_eq!(single_word_score(&w2, &table), Ok(10));
    assert_eq!(score_word_pair(&w1, &w2, &table), Ok(20));
}

#[test]
fn pair_score_penalties() {
    let set = words(&["abcde", "edcba"]);
    let table = letter_frequencies(&set).unwrap();
    let w1 = "abcde".to_string();
    let w2 = "edcba".to_string();
    // Every letter has count 2 and the total is 10: singles are 20 each.
    assert_eq!(single_word_score(&w1, &table), Ok(20));
    // Four half penalties (2 each) and one full penalty at the middle (4).
    assert_eq!(score_word_pair(&w1, &w2, &table), Ok(28));
}

#[test]
fn pair_score_of_identical_words_has_maximal_penalty() {
    let set = words(&["abcde", "fghij"]);
    let table = letter_frequencies(&set).unwrap();
    let w = "abcde".to_string();
    // base 10 + 10, minus a full penalty (2 per position) at all five.
    assert_eq!(score_word_pair(&w, &w, &table), Ok(10));
}

#[test]
fn scored_words_preserve_input_order() {
    let set = words(&["abcde", "fghij"]);
    let table = letter_frequencies(&set).unwrap();
    let scored = score_single_words(&set, &table).unwrap();
    assert_eq!(scored.len(), 2);
    assert_eq!(scored[0].word, "abcde");
    assert_eq!(scored[0].score, 10);
    assert_eq!(scored[1].word, "fghij");
    assert_eq!(scored[1].score, 10);
}

#[test]
fn sharding_partitions_without_loss() {
    let ranges = shard_ranges(10, 3);
    assert_eq!(ranges, vec![(0, 4), (4, 7), (7, 10)]);
    let sum: usize = ranges.iter().map(|r| r.1 - r.0).sum();
    assert_eq!(sum, 10);
    for w in ranges.windows(2) {
        assert_eq!(w[0].1, w[1].0);
    }
    let ranges = shard_ranges(3, 24);
    assert_eq!(ranges.len(), 24);
    assert_eq!(ranges[0], (0, 1));
    assert_eq!(ranges[23].1, 3);
    let sum: usize = ranges.iter().map(|r| r.1 - r.0).sum();
    assert_eq!(sum, 3);
}

#[test]
fn shard_keeps_sorted_best_pairs() {
    let set = words(&["abcde", "fghij", "kabcd"]);
    let table = letter_frequencies(&set).unwrap();
    let kept = score_word_pairs_shard(&set, 0, 3, &table).unwrap();
    // Three candidate words give three canonical pairs, all kept.
    assert_eq!(kept.len(), 3);
    for w in kept.windows(2) {
        assert!(w[0].score >= w[1].score);
    }
}

#[test]
fn pairs_are_stored_once_and_never_reversed() {
    let set = words(&["abcde", "fghij", "kabcd"]);
    let table = letter_frequencies(&set).unwrap();
    let pairs = score_word_pairs(&set, &table).unwrap();
    assert_eq!(pairs.len(), 3);
    for p in &pairs {
        assert_ne!(p.word1, p.word2);
    }
    for a in &pairs {
        for b in &pairs {
            assert!(!(a.word1 == b.word2 && a.word2 == b.word1));
        }
    }
    // Reproducible: the same input gives the same stored orientations.
    let again = score_word_pairs(&set, &table).unwrap();
    let key = |p: &ScoredPair| (p.word1.clone(), p.word2.clone(), p.score);
    let mut k1: Vec<_> = pairs.iter().map(key).collect();
    let mut k2: Vec<_> = again.iter().map(key).collect();
    k1.sort();
    k2.sort();
    assert_eq!(k1, k2);
}

#[test]
fn pair_of_disjoint_words_through_the_driver() {
    let set = words(&["abcde", "fghij"]);
    let table = letter_frequencies(&set).unwrap();
    let pairs = score_word_pairs(&set, &table).unwrap();
    assert_eq!(pairs.len(), 1);
    assert_eq!(pairs[0].word1, "abcde");
    assert_eq!(pairs[0].word2, "fghij");
    assert_eq!(pairs[0].score, 20);
}

#[test]
fn ranking_sorts_descending_and_keeps_k() {
    let v = vec![
        ScoredWord { word: "aaaaa".to_string(), score: 3 },
        ScoredWord { word: "bbbbb".to_string(), score: 9 },
        ScoredWord { word: "ccccc".to_string(), score: 5 },
    ];
    let top = top_words(v, 2);
    assert_eq!(top.len(), 2);
    assert_eq!(top[0].word, "bbbbb");
    assert_eq!(top[0].score, 9);
    assert_eq!(top[1].word, "ccccc");
    assert_eq!(top[1].score, 5);

    let p = vec![
        ScoredPair { word1: "aaaaa".to_string(), word2: "bbbbb".to_string(), score: 1 },
        ScoredPair { word1: "aaaaa".to_string(), word2: "ccccc".to_string(), score: 7 },
    ];
    let top = top_pairs(p, 5);
    assert_eq!(top.len(), 2);
    assert_eq!(top[0].score, 7);
    assert_eq!(top[1].score, 1);
}

#[test]
fn end_to_end_apple_scenario() {
    let set = words(&["apple", "apply", "grape", "apple's", "apples"]);
    let candidates = filter_starting_words(&set);
    assert_eq!(candidates, vec!["apple", "apply", "grape"]);
    let table = letter_frequencies(&set).unwrap();
    // "apple's" (possessive) and "apples" (plural of "apple") are excluded:
    // letters come from {"apple", "apply", "grape"} only.
    assert_eq!(table.total_letters_counted(), 15);
    assert_eq!(table.count_of('a'), Some(3));
    assert_eq!(table.count_of('p'), Some(5));
    assert_eq!(table.count_of('l'), Some(2));
    assert_eq!(table.count_of('e'), Some(2));
    assert_eq!(table.count_of('y'), Some(1));
    assert_eq!(table.count_of('g'), Some(1));
    assert_eq!(table.count_of('r'), Some(1));
    assert_eq!(table.count_of('s'), None);
    assert_eq!(table.count_of('\''), None);
    let scored = score_single_words(&candidates, &table).unwrap();
    assert_eq!(scored.len(), 3);
    // apple: a,p,l,e distinct -> 2*(3+5+2+2) = 24
    assert_eq!(scored[0].score, 24);
    // apply: a,p,l,y -> 2*(3+5+2+1) = 22
    assert_eq!(scored[1].score, 22);
    // grape: g,r,a,p,e -> 2*(1+1+3+5+2) = 24
    assert_eq!(scored[2].score, 24);
}

#[test]
fn shard_truncates_to_the_best_hundred() {
    // Fifteen words give 105 canonical pairs; one shard over all of them
    // keeps only its 100 best, sorted descending.
    let list: Vec<String> = ('a'..='o').map(|c| format!("aaaa{}", c)).collect();
    let table = letter_frequencies(&list).unwrap();
    let kept = score_word_pairs_shard(&list, 0, list.len(), &table).unwrap();
    assert_eq!(kept.len(), 100);
    for w in kept.windows(2) {
        assert!(w[0].score >= w[1].score);
    }
    // Brute force: the kept scores are exactly the 100 greatest pair scores.
    let mut all_scores: Vec<i64> = Vec::new();
    for i in 0..list.len() {
        for j in (i + 1)..list.len() {
            all_scores.push(score_word_pair(&list[i], &list[j], &table).unwrap());
        }
    }
    assert_eq!(all_scores.len(), 105);
    all_scores.sort_by(|x, y| y.cmp(x));
    all_scores.truncate(100);
    let kept_scores: Vec<i64> = kept.iter().map(|p| p.score).collect();
    assert_eq!(kept_scores, all_scores);
}
