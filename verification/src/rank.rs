//! Ranking: sorting scored collections descending by score and keeping the
//! best `k`, with the guarantee that nothing kept scores below anything
//! dropped.
use vstd::multiset::Multiset;
use vstd::prelude::*;

use crate::score::{ScoredPair, ScoredWord};

verus! {

/// The view sequence of a sequence of scored pairs.
pub open spec fn pairs_view(s: Seq<ScoredPair>) -> Seq<((Seq<char>, Seq<char>), int)> {
    s.map_values(|p: ScoredPair| p@)
}

/// The view sequence of a sequence of scored words.
pub open spec fn words_view(s: Seq<ScoredWord>) -> Seq<(Seq<char>, int)> {
    s.map_values(|w: ScoredWord| w@)
}

/// Descending order by score.
pub open spec fn pairs_sorted_desc(s: Seq<ScoredPair>) -> bool {
    forall|a: int, b: int| 0 <= a <= b < s.len() ==> (#[trigger] s[a]).score >= (#[trigger] s[b]).score
}

/// Descending order by score.
pub open spec fn words_sorted_desc(s: Seq<ScoredWord>) -> bool {
    forall|a: int, b: int| 0 <= a <= b < s.len() ==> (#[trigger] s[a]).score >= (#[trigger] s[b]).score
}

/// Sorts scored pairs descending by score. The result holds exactly the
/// entries of the input (as a multiset of views).
pub fn sort_pairs_desc(v: Vec<ScoredPair>) -> (r: Vec<ScoredPair>)
    ensures
        r@.len() == v@.len(),
        pairs_sorted_desc(r@),
        pairs_view(r@).to_multiset() == pairs_view(v@).to_multiset(),
{
    broadcast use vstd::seq_lib::group_to_multiset_ensures;
    broadcast use vstd::multiset::group_multiset_axioms;

    let ghost orig = pairs_view(v@).to_multiset();
    let mut rest = v;
    let mut out: Vec<ScoredPair> = Vec::new();
    proof {
        assert(pairs_view(out@) =~= Seq::<((Seq<char>, Seq<char>), int)>::empty());
        assert(pairs_view(out@).to_multiset().add(pairs_view(rest@).to_multiset()) =~= orig);
    }
    while rest.len() > 0
        invariant
            pairs_view(out@).to_multiset().add(pairs_view(rest@).to_multiset()) == orig,
            out@.len() + rest@.len() == v@.len(),
            pairs_sorted_desc(out@),
            forall|a: int, b: int|
                0 <= a < out@.len() && 0 <= b < rest@.len() ==> (#[trigger] out@[a]).score >= (
                #[trigger] rest@[b]).score,
        decreases rest@.len(),
    {
        let mut mi: usize = 0;
        let mut j: usize = 1;
        while j < rest.len()
            invariant
                0 <= mi < rest@.len(),
                1 <= j <= rest@.len(),
                forall|k: int| 0 <= k < j ==> rest@[mi as int].score >= (#[trigger] rest@[k]).score,
            decreases rest@.len() - j,
        {
            if rest[j].score > rest[mi].score {
                mi = j;
            }
            j += 1;
        }
        let ghost pre_out = out@;
        let ghost pre_rest = rest@;
        let e = rest.remove(mi);
        out.push(e);
        proof {
            assert(pairs_view(out@) =~= pairs_view(pre_out).push(e@));
            assert(pairs_view(rest@) =~= pairs_view(pre_rest).remove(mi as int));
            assert(pairs_view(pre_rest)[mi as int] == e@);
            pairs_view(pre_out).to_multiset_ensures();
            pairs_view(pre_rest).to_multiset_ensures();
            vstd::seq_lib::to_multiset_build(pairs_view(pre_out), e@);
            vstd::seq_lib::to_multiset_remove(pairs_view(pre_rest), mi as int);
            assert(pairs_view(out@).to_multiset() =~= pairs_view(pre_out).to_multiset().insert(e@));
            assert(pairs_view(rest@).to_multiset() =~= pairs_view(pre_rest).to_multiset().remove(
                e@,
            ));
            assert(pairs_view(pre_rest).contains(e@));
            assert(pairs_view(pre_rest).to_multiset().count(e@) > 0);
            assert(pairs_view(out@).to_multiset().add(pairs_view(rest@).to_multiset()) =~= orig);
        }
    }
    proof {
        assert(pairs_view(rest@) =~= Seq::<((Seq<char>, Seq<char>), int)>::empty());
        assert(pairs_view(out@).to_multiset().add(Multiset::empty()) =~= pairs_view(
            out@,
        ).to_multiset());
        assert(pairs_view(out@).to_multiset().len() == orig.len());
        assert(pairs_view(out@).len() == out@.len());
        assert(pairs_view(v@).len() == v@.len());
    }
    out
}

/// Sorts scored pairs descending and keeps the best `k`: the approximate
/// top-`k` reduction. Everything kept comes from the input, and nothing
/// dropped scores above anything kept.
pub fn top_pairs(v: Vec<ScoredPair>, k: usize) -> (r: Vec<ScoredPair>)
    ensures
        r@.len() == if k as int <= v@.len() {
            k as int
        } else {
            v@.len() as int
        },
        pairs_sorted_desc(r@),
        pairs_view(r@).to_multiset().subset_of(pairs_view(v@).to_multiset()),
        forall|x: ((Seq<char>, Seq<char>), int)|
            pairs_view(v@).to_multiset().count(x) > pairs_view(r@).to_multiset().count(x)
                ==> forall|j: int| 0 <= j < r@.len() ==> x.1 <= (#[trigger] r@[j]).score,
{
    broadcast use vstd::seq_lib::group_to_multiset_ensures;
    broadcast use vstd::multiset::group_multiset_axioms;

    let ghost origv = pairs_view(v@).to_multiset();
    let mut s = sort_pairs_desc(v);
    let ghost sorted = s@;
    s.truncate(k);
    proof {
        if k as int <= sorted.len() {
            let kept = pairs_view(sorted.subrange(0, k as int));
            let dropped = pairs_view(sorted.subrange(k as int, sorted.len() as int));
            assert(pairs_view(sorted) =~= kept + dropped);
            vstd::seq_lib::lemma_multiset_commutative(kept, dropped);
            assert(pairs_view(s@) =~= kept);
            assert forall|x: ((Seq<char>, Seq<char>), int)|
                pairs_view(v@).to_multiset().count(x) > pairs_view(s@).to_multiset().count(
                    x,
                ) implies forall|j: int| 0 <= j < s@.len() ==> x.1 <= (#[trigger] s@[j]).score by {
                assert(kept.to_multiset().add(dropped.to_multiset()).count(x) == kept.to_multiset().count(x) + dropped.to_multiset().count(x));
                assert(dropped.to_multiset().count(x) > 0);
                assert(dropped.to_multiset().contains(x));
                assert(dropped.contains(x));
                let di = choose|di: int| 0 <= di < dropped.len() && dropped[di] == x;
                assert(sorted[k as int + di]@ == x);
                assert forall|j: int| 0 <= j < s@.len() implies x.1 <= (#[trigger] s@[j]).score by {
                    assert(sorted[j].score >= sorted[k as int + di].score);
                }
            }
        } else {
            assert(pairs_view(s@) =~= pairs_view(sorted));
        }
    }
    s
}

/// Sorts scored words descending by score. The result holds exactly the
/// entries of the input (as a multiset of views).
pub fn sort_words_desc(v: Vec<ScoredWord>) -> (r: Vec<ScoredWord>)
    ensures
        r@.len() == v@.len(),
        words_sorted_desc(r@),
        words_view(r@).to_multiset() == words_view(v@).to_multiset(),
{
    broadcast use vstd::seq_lib::group_to_multiset_ensures;
    broadcast use vstd::multiset::group_multiset_axioms;

    let ghost orig = words_view(v@).to_multiset();
    let mut rest = v;
    let mut out: Vec<ScoredWord> = Vec::new();
    proof {
        assert(words_view(out@) =~= Seq::<(Seq<char>, int)>::empty());
        assert(words_view(out@).to_multiset().add(words_view(rest@).to_multiset()) =~= orig);
    }
    while rest.len() > 0
        invariant
            words_view(out@).to_multiset().add(words_view(rest@).to_multiset()) == orig,
            out@.len() + rest@.len() == v@.len(),
            words_sorted_desc(out@),
            forall|a: int, b: int|
                0 <= a < out@.len() && 0 <= b < rest@.len() ==> (#[trigger] out@[a]).score >= (
                #[trigger] rest@[b]).score,
        decreases rest@.len(),
    {
        let mut mi: usize = 0;
        let mut j: usize = 1;
        while j < rest.len()
            invariant
                0 <= mi < rest@.len(),
                1 <= j <= rest@.len(),
                forall|k: int| 0 <= k < j ==> rest@[mi as int].score >= (#[trigger] rest@[k]).score,
            decreases rest@.len() - j,
        {
            if rest[j].score > rest[mi].score {
                mi = j;
            }
            j += 1;
        }
        let ghost pre_out = out@;
        let ghost pre_rest = rest@;
        let e = rest.remove(mi);
        out.push(e);
        proof {
            assert(words_view(out@) =~= words_view(pre_out).push(e@));
            assert(words_view(rest@) =~= words_view(pre_rest).remove(mi as int));
            assert(words_view(pre_rest)[mi as int] == e@);
            words_view(pre_out).to_multiset_ensures();
            words_view(pre_rest).to_multiset_ensures();
            vstd::seq_lib::to_multiset_build(words_view(pre_out), e@);
            vstd::seq_lib::to_multiset_remove(words_view(pre_rest), mi as int);
            assert(words_view(out@).to_multiset() =~= words_view(pre_out).to_multiset().insert(e@));
            assert(words_view(rest@).to_multiset() =~= words_view(pre_rest).to_multiset().remove(
                e@,
            ));
            assert(words_view(pre_rest).contains(e@));
            assert(words_view(pre_rest).to_multiset().count(e@) > 0);
            assert(words_view(out@).to_multiset().add(words_view(rest@).to_multiset()) =~= orig);
        }
    }
    proof {
        assert(words_view(rest@) =~= Seq::<(Seq<char>, int)>::empty());
        assert(words_view(out@).to_multiset().add(Multiset::empty()) =~= words_view(
            out@,
        ).to_multiset());
        assert(words_view(out@).to_multiset().len() == orig.len());
        assert(words_view(out@).len() == out@.len());
        assert(words_view(v@).len() == v@.len());
    }
    out
}

/// Sorts scored words descending and keeps the best `k`. Everything kept
/// comes from the input, and nothing dropped scores above anything kept.
pub fn top_words(v: Vec<ScoredWord>, k: usize) -> (r: Vec<ScoredWord>)
    ensures
        r@.len() == if k as int <= v@.len() {
            k as int
        } else {
            v@.len() as int
        },
        words_sorted_desc(r@),
        words_view(r@).to_multiset().subset_of(words_view(v@).to_multiset()),
        forall|x: (Seq<char>, int)|
            words_view(v@).to_multiset().count(x) > words_view(r@).to_multiset().count(x)
                ==> forall|j: int| 0 <= j < r@.len() ==> x.1 <= (#[trigger] r@[j]).score,
{
    broadcast use vstd::seq_lib::group_to_multiset_ensures;
    broadcast use vstd::multiset::group_multiset_axioms;

    let mut s = sort_words_desc(v);
    let ghost sorted = s@;
    s.truncate(k);
    proof {
        if k as int <= sorted.len() {
            let kept = words_view(sorted.subrange(0, k as int));
            let dropped = words_view(sorted.subrange(k as int, sorted.len() as int));
            assert(words_view(sorted) =~= kept + dropped);
            vstd::seq_lib::lemma_multiset_commutative(kept, dropped);
            assert(words_view(s@) =~= kept);
            assert forall|x: (Seq<char>, int)|
                words_view(v@).to_multiset().count(x) > words_view(s@).to_multiset().count(
                    x,
                ) implies forall|j: int| 0 <= j < s@.len() ==> x.1 <= (#[trigger] s@[j]).score by {
                assert(kept.to_multiset().add(dropped.to_multiset()).count(x) == kept.to_multiset().count(x) + dropped.to_multiset().count(x));
                assert(dropped.to_multiset().count(x) > 0);
                assert(dropped.to_multiset().contains(x));
                assert(dropped.contains(x));
                let di = choose|di: int| 0 <= di < dropped.len() && dropped[di] == x;
                assert(sorted[k as int + di]@ == x);
                assert forall|j: int| 0 <= j < s@.len() implies x.1 <= (#[trigger] s@[j]).score by {
                    assert(sorted[j].score >= sorted[k as int + di].score);
                }
            }
        } else {
            assert(words_view(s@) =~= words_view(sorted));
        }
    }
    s
}

} // verus!
