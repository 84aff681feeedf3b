//! Ranking scored choices: best score first, and among equal scores the
//! choice that came first in the input.

use vstd::multiset::lemma_multiset_empty_len;
use vstd::prelude::*;
use vstd::seq_lib::{lemma_multiset_commutative, to_multiset_build, to_multiset_len};
use crate::score::{lemma_order_transitive, Rating, Score};
use crate::subsequence::positions;

verus! {

/// A choice, named by its index in the input, paired with its score.
#[derive(Clone, Copy, Debug, PartialEq, Eq, Structural)]
pub struct ScoredChoice {
    pub idx: usize,
    pub score: Score,
}

impl ScoredChoice {
    /// `self` is displayed before `other`: its score is greater, or the
    /// scores tie and it came earlier in the input.
    pub open spec fn precedes(self, other: ScoredChoice) -> bool {
        self.score@.exceeds(other.score@) || (self.score@.ties(other.score@) && self.idx
            < other.idx)
    }

    /// Whether `self` is displayed before `other`.
    pub fn ranks_before(&self, other: &ScoredChoice) -> (r: bool)
        ensures
            r == self.precedes(*other),
    {
        self.score.greater_than(&other.score) || (self.score.equal_to(&other.score) && self.idx
            < other.idx)
    }
}

/// Every score in `v` is well formed.
pub open spec fn all_wf(v: Seq<ScoredChoice>) -> bool {
    forall|k: int| 0 <= k < v.len() ==> (#[trigger] v[k]).score@.wf()
}

/// No element of `v` has to be displayed before an earlier one.
pub open spec fn is_sorted(v: Seq<ScoredChoice>) -> bool {
    forall|i: int, j: int| 0 <= i < j < v.len() ==> !(#[trigger] v[j]).precedes(#[trigger] v[i])
}

/// Where `b` does not precede `a` and `c` does not precede `b`, `c` does not
/// precede `a`.
pub proof fn lemma_not_preceding_transitive(a: ScoredChoice, b: ScoredChoice, c: ScoredChoice)
    requires
        a.score@.wf(),
        b.score@.wf(),
        c.score@.wf(),
        !b.precedes(a),
        !c.precedes(b),
    ensures
        !c.precedes(a),
{
    lemma_order_transitive(a.score@, b.score@, c.score@);
}

/// The elements of `left` and `right`, both sorted, as one sorted vector.
fn merge(left: &Vec<ScoredChoice>, right: &Vec<ScoredChoice>) -> (out: Vec<ScoredChoice>)
    requires
        all_wf(left@),
        all_wf(right@),
        is_sorted(left@),
        is_sorted(right@),
    ensures
        is_sorted(out@),
        out@.to_multiset() == left@.to_multiset().add(right@.to_multiset()),
{
    broadcast use vstd::multiset::group_multiset_axioms;

    let mut out: Vec<ScoredChoice> = Vec::new();
    let mut i: usize = 0;
    let mut j: usize = 0;
    proof {
        assert(left@.take(0) == Seq::<ScoredChoice>::empty());
        assert(right@.take(0) == Seq::<ScoredChoice>::empty());
        to_multiset_len(out@);
        lemma_multiset_empty_len(out@.to_multiset());
        assert(out@.to_multiset() =~= left@.take(0).to_multiset().add(
            right@.take(0).to_multiset(),
        ));
    }
    while i < left.len() || j < right.len()
        invariant
            i <= left@.len(),
            j <= right@.len(),
            all_wf(left@),
            all_wf(right@),
            all_wf(out@),
            is_sorted(left@),
            is_sorted(right@),
            is_sorted(out@),
            out@.to_multiset() == left@.take(i as int).to_multiset().add(
                right@.take(j as int).to_multiset(),
            ),
            forall|k: int|
                0 <= k < out@.len() && i < left@.len() ==> !left@[i as int].precedes(
                    #[trigger] out@[k],
                ),
            forall|k: int|
                0 <= k < out@.len() && j < right@.len() ==> !right@[j as int].precedes(
                    #[trigger] out@[k],
                ),
        decreases left@.len() - i + right@.len() - j,
    {
        let take_left = if i == left.len() {
            false
        } else if j == right.len() {
            true
        } else {
            !right[j].ranks_before(&left[i])
        };
        let ghost before = out@;
        if take_left {
            let x = left[i];
            out.push(x);
            proof {
                assert(left@.take(i + 1) == left@.take(i as int).push(x));
                to_multiset_build(before, x);
                to_multiset_build(left@.take(i as int), x);
                assert(out@.to_multiset() =~= left@.take(i + 1).to_multiset().add(
                    right@.take(j as int).to_multiset(),
                ));
                assert forall|k: int| 0 <= k < out@.len() && i + 1 < left@.len() implies !left@[i
                    + 1].precedes(#[trigger] out@[k]) by {
                    if k < before.len() {
                        lemma_not_preceding_transitive(before[k], x, left@[i + 1]);
                    }
                }
            }
            i += 1;
        } else {
            let y = right[j];
            out.push(y);
            proof {
                assert(right@.take(j + 1) == right@.take(j as int).push(y));
                to_multiset_build(before, y);
                to_multiset_build(right@.take(j as int), y);
                assert(out@.to_multiset() =~= left@.take(i as int).to_multiset().add(
                    right@.take(j + 1).to_multiset(),
                ));
                assert forall|k: int|
                    0 <= k < out@.len() && j + 1 < right@.len() implies !right@[j + 1].precedes(
                    #[trigger] out@[k],
                ) by {
                    if k < before.len() {
                        lemma_not_preceding_transitive(before[k], y, right@[j + 1]);
                    }
                }
            }
            j += 1;
        }
    }
    proof {
        assert(left@.take(i as int) == left@);
        assert(right@.take(j as int) == right@);
    }
    out
}

/// Sorts `v` into display order. The result holds the same elements, each as
/// often as `v` does.
pub fn sort_scored(v: Vec<ScoredChoice>) -> (out: Vec<ScoredChoice>)
    requires
        all_wf(v@),
    ensures
        is_sorted(out@),
        out@.to_multiset() == v@.to_multiset(),
    decreases v@.len(),
{
    if v.len() <= 1 {
        return v;
    }
    let ghost whole = v@;
    let mut left = v;
    let right = left.split_off(left.len() / 2);
    proof {
        assert(whole == left@ + right@);
        lemma_multiset_commutative(left@, right@);
        assert(all_wf(left@)) by {
            assert forall|k: int| 0 <= k < left@.len() implies (#[trigger] left@[k]).score@.wf() by {
                assert(left@[k] == whole[k]);
            }
        }
        assert(all_wf(right@)) by {
            assert forall|k: int| 0 <= k < right@.len() implies (
            #[trigger] right@[k]).score@.wf() by {
                assert(right@[k] == whole[k + left@.len()]);
            }
        }
    }
    let ghost left_before = left@;
    let ghost right_before = right@;
    let left = sort_scored(left);
    let right = sort_scored(right);
    proof {
        lemma_permutation_keeps_wf(left_before, left@);
        lemma_permutation_keeps_wf(right_before, right@);
    }
    merge(&left, &right)
}

/// A rearrangement of well-formed scores holds well-formed scores.
proof fn lemma_permutation_keeps_wf(a: Seq<ScoredChoice>, b: Seq<ScoredChoice>)
    requires
        all_wf(a),
        a.to_multiset() == b.to_multiset(),
    ensures
        all_wf(b),
{
    a.to_multiset_ensures();
    b.to_multiset_ensures();
    assert forall|k: int| 0 <= k < b.len() implies (#[trigger] b[k]).score@.wf() by {
        assert(b.contains(b[k]));
        assert(b.to_multiset().count(b[k]) > 0);
        assert(a.contains(b[k]));
    }
}

/// The choice at index `i` is ranked before the one at index `j`: its score
/// is greater, or the scores tie and `i` comes first.
pub open spec fn outranks(scores: Seq<Rating>, i: int, j: int) -> bool {
    scores[i].exceeds(scores[j]) || (scores[i].ties(scores[j]) && i < j)
}

/// `order` ranks the choices whose scores are `scores`: it lists the indices
/// of exactly the positive scores, each before all those that it outranks.
pub open spec fn is_ranking(scores: Seq<Rating>, order: Seq<int>) -> bool {
    &&& forall|k: int|
        0 <= k < order.len() ==> 0 <= #[trigger] order[k] < scores.len()
            && scores[order[k]].is_positive()
    &&& forall|i: int|
        0 <= i < scores.len() && (#[trigger] scores[i]).is_positive() ==> order.contains(i)
    &&& forall|a: int, b: int|
        0 <= a < b < order.len() ==> outranks(scores, #[trigger] order[a], #[trigger] order[b])
}

/// The ranking of the choices whose scores are `scores`.
pub open spec fn ranking(scores: Seq<Rating>) -> Seq<int> {
    choose|order: Seq<int>| is_ranking(scores, order)
}

/// Two rankings of the same scores agree at every index of the first.
proof fn lemma_ranking_agrees(scores: Seq<Rating>, a: Seq<int>, b: Seq<int>, k: int)
    requires
        is_ranking(scores, a),
        is_ranking(scores, b),
        0 <= k < a.len(),
    ensures
        k < b.len(),
        a[k] == b[k],
    decreases k,
{
    let x = a[k];
    assert(scores[x].is_positive());
    assert(b.contains(x));
    let p = choose|p: int| 0 <= p < b.len() && b[p] == x;
    if p < k {
        lemma_ranking_agrees(scores, a, b, p);
        assert(outranks(scores, a[p], a[k]));
    }
    let y = b[k];
    assert(scores[y].is_positive());
    assert(a.contains(y));
    let q = choose|q: int| 0 <= q < a.len() && a[q] == y;
    if q < k {
        lemma_ranking_agrees(scores, a, b, q);
        assert(outranks(scores, b[q], b[k]));
    }
    if p > k {
        assert(outranks(scores, b[k], b[p]));
        if q > k {
            assert(outranks(scores, a[k], a[q]));
        }
    }
}

/// The ranking of given scores is unique: the display order is determined by
/// the scores and the input order alone.
pub proof fn lemma_ranking_unique(scores: Seq<Rating>, a: Seq<int>, b: Seq<int>)
    requires
        is_ranking(scores, a),
        is_ranking(scores, b),
    ensures
        a == b,
        a == ranking(scores),
{
    if a.len() > 0 {
        lemma_ranking_agrees(scores, a, b, a.len() - 1);
    }
    if b.len() > 0 {
        lemma_ranking_agrees(scores, b, a, b.len() - 1);
    }
    assert forall|k: int| 0 <= k < a.len() implies a[k] == b[k] by {
        lemma_ranking_agrees(scores, a, b, k);
    }
    assert(a =~= b);
    let c = ranking(scores);
    if a.len() > 0 {
        lemma_ranking_agrees(scores, a, c, a.len() - 1);
    }
    if c.len() > 0 {
        lemma_ranking_agrees(scores, c, a, c.len() - 1);
    }
    assert forall|k: int| 0 <= k < a.len() implies a[k] == c[k] by {
        lemma_ranking_agrees(scores, a, c, k);
    }
    assert(a =~= c);
}

/// A ranking is stable: of two choices with equal scores, the one that came
/// first in the input is listed first.
pub proof fn lemma_ranking_stable(scores: Seq<Rating>, order: Seq<int>, a: int, b: int)
    requires
        is_ranking(scores, order),
        0 <= a < order.len(),
        0 <= b < order.len(),
        scores[order[a]].ties(scores[order[b]]),
        order[a] < order[b],
    ensures
        a < b,
{
    if b < a {
        assert(outranks(scores, order[b], order[a]));
    }
}

/// The ratings of a sequence of scores.
pub open spec fn ratings(v: Seq<Score>) -> Seq<Rating> {
    Seq::new(v.len(), |i: int| v[i]@)
}

/// The indices of the positive scores, ranked: best score first, and among
/// equal scores the lower index first.
pub fn rank_scores(scores: &Vec<Score>) -> (order: Vec<usize>)
    requires
        forall|i: int| 0 <= i < scores@.len() ==> (#[trigger] scores@[i])@.wf(),
    ensures
        is_ranking(ratings(scores@), positions(order@)),
        positions(order@) == ranking(ratings(scores@)),
{
    let ghost sc = scores@;
    let ghost rt = ratings(scores@);
    let mut scored: Vec<ScoredChoice> = Vec::new();
    let mut i: usize = 0;
    while i < scores.len()
        invariant
            sc == scores@,
            i <= sc.len(),
            forall|m: int| 0 <= m < sc.len() ==> (#[trigger] sc[m])@.wf(),
            forall|k: int|
                0 <= k < scored@.len() ==> (#[trigger] scored@[k]).idx < i && scored@[k].score
                    == sc[scored@[k].idx as int] && scored@[k].score@.is_positive(),
            forall|j: int, k: int|
                0 <= j < k < scored@.len() ==> (#[trigger] scored@[j]).idx < (
                #[trigger] scored@[k]).idx,
            forall|m: int|
                0 <= m < i && (#[trigger] sc[m])@.is_positive() ==> scored@.contains(
                    ScoredChoice { idx: m as usize, score: sc[m] },
                ),
        decreases sc.len() - i,
    {
        if scores[i].positive() {
            let ghost before = scored@;
            let item = ScoredChoice { idx: i, score: scores[i] };
            scored.push(item);
            proof {
                assert forall|m: int|
                    0 <= m < i + 1 && (#[trigger] sc[m])@.is_positive() implies scored@.contains(
                    ScoredChoice { idx: m as usize, score: sc[m] },
                ) by {
                    if m < i {
                        let x = ScoredChoice { idx: m as usize, score: sc[m] };
                        let k = choose|k: int| 0 <= k < before.len() && before[k] == x;
                        assert(scored@[k] == x);
                    } else {
                        assert(scored@[before.len() as int] == item);
                    }
                }
            }
        }
        i += 1;
    }
    let ghost unsorted = scored@;
    let sorted = sort_scored(scored);
    proof {
        unsorted.to_multiset_ensures();
        sorted@.to_multiset_ensures();
        assert(unsorted.no_duplicates());
        unsorted.lemma_multiset_has_no_duplicates();
        sorted@.lemma_multiset_has_no_duplicates_conv();
    }
    let mut order: Vec<usize> = Vec::new();
    let mut k: usize = 0;
    while k < sorted.len()
        invariant
            k <= sorted@.len(),
            order@.len() == k,
            forall|m: int| 0 <= m < k ==> (#[trigger] order@[m]) == sorted@[m].idx,
        decreases sorted@.len() - k,
    {
        order.push(sorted[k].idx);
        k += 1;
    }
    proof {
        let pos = positions(order@);
        assert forall|m: int| 0 <= m < sorted@.len() implies unsorted.contains(
            #[trigger] sorted@[m],
        ) by {
            assert(sorted@.contains(sorted@[m]));
            assert(sorted@.to_multiset().count(sorted@[m]) > 0);
        }
        assert forall|m: int| 0 <= m < pos.len() implies 0 <= #[trigger] pos[m] < rt.len()
            && rt[pos[m]].is_positive() && sorted@[m] == (ScoredChoice {
            idx: pos[m] as usize,
            score: sc[pos[m]],
        }) by {
            let x = sorted@[m];
            assert(unsorted.contains(x));
            let j = choose|j: int| 0 <= j < unsorted.len() && unsorted[j] == x;
            assert(unsorted[j].idx < sc.len());
        }
        assert forall|m: int| 0 <= m < rt.len() && (#[trigger] rt[m]).is_positive() implies pos.contains(
            m,
        ) by {
            let x = ScoredChoice { idx: m as usize, score: sc[m] };
            assert(sc[m]@.is_positive());
            assert(unsorted.contains(x));
            assert(unsorted.to_multiset().count(x) > 0);
            assert(sorted@.contains(x));
            let j = choose|j: int| 0 <= j < sorted@.len() && sorted@[j] == x;
            assert(pos[j] == m);
        }
        assert forall|a: int, b: int| 0 <= a < b < pos.len() implies outranks(
            rt,
            #[trigger] pos[a],
            #[trigger] pos[b],
        ) by {
            assert(!sorted@[b].precedes(sorted@[a]));
            assert(sorted@[a] != sorted@[b]);
            assert(sorted@[a] == (ScoredChoice { idx: pos[a] as usize, score: sc[pos[a]] }));
            assert(sorted@[b] == (ScoredChoice { idx: pos[b] as usize, score: sc[pos[b]] }));
        }
        lemma_ranking_unique(rt, pos, pos);
    }
    order
}

} // verus!
