//! Ranking by scores that fade with age.
//!
//! Scores are single-precision numbers, held as bit patterns. Here they are only compared.
use vstd::prelude::*;

use crate::order::{
    all_indices, every, is_taken, lemma_count_agree, lemma_count_below, lemma_places,
    lemma_sorted_place, lists_all, place, rearrange, sort_indices, strict_total, IndexOrder,
};
use crate::text::as_ints;
use crate::tokens::number_ranks;
use crate::types::{Binary32, SearchHit};

verus! {

/// A bit pattern without its sign bit.
pub open spec fn magnitude(x: Binary32) -> int {
    if x.bits >= 0x8000_0000 {
        x.bits - 0x8000_0000
    } else {
        x.bits as int
    }
}

/// Whether a bit pattern stands for no number.
pub open spec fn is_nan(x: Binary32) -> bool {
    magnitude(x) > 0x7f80_0000
}

/// Whether a bit pattern stands for a finite number.
pub open spec fn is_finite(x: Binary32) -> bool {
    magnitude(x) < 0x7f80_0000
}

/// An integer that stands among such integers as the number stands among the numbers: bit patterns
/// ascend with the magnitude of the number, and the two zeros are equal.
pub open spec fn order_value(x: Binary32) -> int {
    if x.bits >= 0x8000_0000 {
        -magnitude(x)
    } else {
        magnitude(x)
    }
}

/// Whether one number is greater than another. Nothing is greater than what is no number, or less.
pub open spec fn greater(a: Binary32, b: Binary32) -> bool {
    !is_nan(a) && !is_nan(b) && order_value(a) > order_value(b)
}

impl Binary32 {
    /// The bit pattern without its sign bit.
    fn unsigned_bits(self) -> (res: u32)
        ensures
            res == magnitude(self),
    {
        if self.bits >= 0x8000_0000 {
            self.bits - 0x8000_0000
        } else {
            self.bits
        }
    }

    /// Whether the bit pattern stands for no number.
    pub fn is_nan(self) -> (res: bool)
        ensures
            res == is_nan(self),
            res == (0x7f80_0000 < self.bits < 0x8000_0000 || 0xff80_0000 < self.bits),
    {
        self.unsigned_bits() > 0x7f80_0000
    }

    /// Whether the bit pattern stands for a finite number.
    pub fn is_finite(self) -> (res: bool)
        ensures
            res == is_finite(self),
            res == (self.bits < 0x7f80_0000 || 0x8000_0000 <= self.bits < 0xff80_0000),
    {
        self.unsigned_bits() < 0x7f80_0000
    }

    /// Whether the number is greater than another.
    pub fn is_greater_than(self, other: Binary32) -> (res: bool)
        ensures
            res == greater(self, other),
    {
        if self.is_nan() || other.is_nan() {
            return false;
        }
        let a: u32 = self.unsigned_bits();
        let b: u32 = other.unsigned_bits();
        if self.bits < 0x8000_0000 {
            if other.bits < 0x8000_0000 {
                a > b
            } else {
                a > 0 || b > 0
            }
        } else {
            if other.bits < 0x8000_0000 {
                false
            } else {
                a < b
            }
        }
    }
}

/// Whether scores fade with a half-life: only one that is finite and positive makes them.
pub fn half_life_decays(half_life: Binary32) -> (res: bool)
    ensures
        res == (is_finite(half_life) && order_value(half_life) > 0),
        res == (0 < half_life.bits < 0x7f80_0000),
{
    half_life.is_finite() && half_life.bits < 0x8000_0000 && half_life.bits > 0
}

/// The timestamps of candidates.
pub open spec fn timestamps(candidates: Seq<(i64, SearchHit)>) -> Seq<int> {
    candidates.map_values(|c: (i64, SearchHit)| c.0 as int)
}

/// How old each candidate is, in seconds, when the latest one counts as new.
pub fn candidate_ages(candidates: &[(i64, SearchHit)]) -> (res: Vec<i64>)
    requires
        forall|i: int, j: int|
            0 <= i < candidates@.len() && 0 <= j < candidates@.len() ==> (
            #[trigger] candidates@[i]).0 - (#[trigger] candidates@[j]).0 <= i64::MAX,
    ensures
        res@.len() == candidates@.len(),
        forall|i: int|
            0 <= i < res@.len() ==> #[trigger] res@[i] == timestamps(candidates@).max()
                - candidates@[i].0 && res@[i] >= 0,
        forall|i: int, j: int|
            0 <= i < res@.len() && 0 <= j < res@.len() ==> (#[trigger] res@[i]) - (
            #[trigger] res@[j]) == candidates@[j].0 - candidates@[i].0,
        candidates@.len() > 0 ==> exists|i: int| 0 <= i < res@.len() && #[trigger] res@[i] == 0,
{
    let mut res: Vec<i64> = Vec::new();
    if candidates.len() == 0 {
        return res;
    }
    let ghost all = timestamps(candidates@);
    let mut latest: i64 = candidates[0].0;
    let mut i: usize = 1;
    assert(all[0] == latest);
    while i < candidates.len()
        invariant
            1 <= i <= candidates@.len(),
            all == timestamps(candidates@),
            all.contains(latest as int),
            forall|k: int| 0 <= k < i ==> #[trigger] all[k] <= latest,
        decreases candidates@.len() - i,
    {
        assert(all[i as int] == candidates@[i as int].0);
        if candidates[i].0 > latest {
            latest = candidates[i].0;
        }
        i += 1;
    }
    proof {
        all.max_ensures();
        let a = choose|a: int| 0 <= a < all.len() && all[a] == all.max();
        assert(all[a] <= latest);
        let b = choose|b: int| 0 <= b < all.len() && all[b] == latest as int;
        assert(all[b] <= all.max());
        assert(candidates@[b].0 == latest);
    }
    let mut k: usize = 0;
    while k < candidates.len()
        invariant
            k <= candidates@.len(),
            latest == timestamps(candidates@).max(),
            exists|b: int| 0 <= b < candidates@.len() && (#[trigger] candidates@[b]).0 == latest,
            forall|i: int, j: int|
                0 <= i < candidates@.len() && 0 <= j < candidates@.len() ==> (
                #[trigger] candidates@[i]).0 - (#[trigger] candidates@[j]).0 <= i64::MAX,
            all == timestamps(candidates@),
            forall|a: int| 0 <= a < all.len() ==> #[trigger] all[a] <= latest,
            res@.len() == k,
            forall|i: int|
                0 <= i < k ==> #[trigger] res@[i] == timestamps(candidates@).max()
                    - candidates@[i].0 && res@[i] >= 0,
        decreases candidates@.len() - k,
    {
        proof {
            let b = choose|b: int|
                0 <= b < candidates@.len() && (#[trigger] candidates@[b]).0 == latest;
            assert(candidates@[b].0 - candidates@[k as int].0 <= i64::MAX);
            assert(all[k as int] == candidates@[k as int].0);
        }
        res.push(latest - candidates[k].0);
        k += 1;
    }
    proof {
        let b = choose|b: int|
            0 <= b < candidates@.len() && (#[trigger] candidates@[b]).0 == latest;
        assert(res@[b] == 0);
    }
    res
}

/// Whether the candidate with score `i` comes before the one with score `j`: by the greater score,
/// and by position where neither is greater.
pub open spec fn scores_better(scores: Seq<Binary32>, i: int, j: int) -> bool {
    greater(scores[i], scores[j]) || (!greater(scores[j], scores[i]) && i < j)
}

/// The order of candidates by score.
pub open spec fn score_order(scores: Seq<Binary32>) -> spec_fn(int, int) -> bool {
    |i: int, j: int| scores_better(scores, i, j)
}

/// Whether no score is greater than another.
pub open spec fn level(scores: Seq<Binary32>) -> bool {
    forall|i: int, j: int|
        0 <= i < scores.len() && 0 <= j < scores.len() ==> !greater(
            #[trigger] scores[i],
            #[trigger] scores[j],
        )
}

/// Whether scores can be ordered: what is no number is neither greater nor less than any score, so
/// it may only stand among scores that are all equal.
pub open spec fn orderable(scores: Seq<Binary32>) -> bool {
    ||| forall|i: int| 0 <= i < scores.len() ==> !is_nan(#[trigger] scores[i])
    ||| level(scores)
}

/// Whether `ranked` holds the candidates in the order of their scores, each with its score and with
/// ranks that count from one.
pub open spec fn ranked_by_score(
    candidates: Seq<(i64, SearchHit)>,
    scores: Seq<Binary32>,
    ranked: Seq<SearchHit>,
) -> bool {
    &&& ranked.len() == candidates.len()
    &&& forall|i: int|
        0 <= i < candidates.len() ==> {
            let k = place(candidates.len(), score_order(scores), i);
            &&& k < ranked.len()
            &&& ranked[k as int] == (SearchHit {
                score: Some(scores[i]),
                rank: (k + 1) as usize,
                ..(#[trigger] candidates[i]).1
            })
        }
}

/// Whether `ranked` holds the candidates that `source` lists, each with its score and with ranks
/// that count from one.
pub open spec fn ranked_from(
    candidates: Seq<(i64, SearchHit)>,
    scores: Seq<Binary32>,
    source: Seq<int>,
    ranked: Seq<SearchHit>,
) -> bool {
    &&& ranked.len() == source.len()
    &&& forall|k: int|
        0 <= k < ranked.len() ==> #[trigger] ranked[k] == (SearchHit {
            score: Some(scores[source[k]]),
            rank: (k + 1) as usize,
            ..candidates[source[k]].1
        })
}

/// Whether `ranked` holds every candidate once, each with its score and with ranks that count from
/// one.
pub open spec fn ranked_in_some_order(
    candidates: Seq<(i64, SearchHit)>,
    scores: Seq<Binary32>,
    ranked: Seq<SearchHit>,
) -> bool {
    exists|source: Seq<int>|
        lists_all(source, candidates.len()) && #[trigger] ranked_from(
            candidates,
            scores,
            source,
            ranked,
        )
}

/// Whether one score comes before another when what is no number comes last.
spec fn numbers_first(scores: Seq<Binary32>, i: int, j: int) -> bool {
    if is_nan(scores[i]) || is_nan(scores[j]) {
        if is_nan(scores[i]) && is_nan(scores[j]) {
            i < j
        } else {
            is_nan(scores[j])
        }
    } else {
        scores_better(scores, i, j)
    }
}

/// Decides the order of candidates by score, with what is no number last.
struct ScoreOrder<'a> {
    scores: &'a Vec<Binary32>,
}

impl<'a> IndexOrder for ScoreOrder<'a> {
    closed spec fn covers(&self, i: int) -> bool {
        0 <= i < self.scores@.len()
    }

    closed spec fn before(&self, i: int, j: int) -> bool {
        numbers_first(self.scores@, i, j)
    }

    proof fn lemma_strict(&self, i: int, j: int) {
    }

    proof fn lemma_transitive(&self, i: int, j: int, k: int) {
    }

    fn precedes(&self, i: usize, j: usize) -> (b: bool) {
        let a: Binary32 = self.scores[i];
        let b: Binary32 = self.scores[j];
        if a.is_nan() || b.is_nan() {
            if a.is_nan() && b.is_nan() {
                i < j
            } else {
                b.is_nan()
            }
        } else {
            a.is_greater_than(b) || (!b.is_greater_than(a) && i < j)
        }
    }
}

/// Decides whether no score is greater than another.
fn are_level(scores: &Vec<Binary32>) -> (res: bool)
    ensures
        res == level(scores@),
{
    let mut number: Option<Binary32> = None;
    let mut k: usize = 0;
    while k < scores.len()
        invariant
            k <= scores@.len(),
            match number {
                None => forall|i: int| 0 <= i < k ==> is_nan(#[trigger] scores@[i]),
                Some(x) => !is_nan(x) && scores@.contains(x) && forall|i: int|
                    0 <= i < k ==> is_nan(#[trigger] scores@[i]) || order_value(scores@[i])
                        == order_value(x),
            },
        decreases scores@.len() - k,
    {
        let score: Binary32 = scores[k];
        assert(scores@[k as int] == score);
        if !score.is_nan() {
            match number {
                None => {
                    number = Some(score);
                },
                Some(x) => {
                    if x.is_greater_than(score) || score.is_greater_than(x) {
                        return false;
                    }
                },
            }
        }
        k += 1;
    }
    true
}

/// The indices of the candidates in the order of their scores.
fn score_ranking(scores: &Vec<Binary32>) -> (res: Vec<usize>)
    ensures
        lists_all(as_ints(res@), scores@.len()),
        orderable(scores@) ==> forall|i: int|
            0 <= i < scores@.len() ==> {
                let k = #[trigger] place(scores@.len(), score_order(scores@), i);
                k < res@.len() && res@[k as int] == i
            },
{
    let n: usize = scores.len();
    let all = all_indices(n);
    if are_level(scores) {
        proof {
            assert forall|i: int| 0 <= i < n implies #[trigger] place(
                n as nat,
                score_order(scores@),
                i,
            ) == i by {
                let before = score_order(scores@);
                assert forall|j: int| 0 <= j < n implies #[trigger] before(j, i) == (j < i) by {
                    assert(!greater(scores@[i], scores@[j]) && !greater(scores@[j], scores@[i]));
                }
                lemma_count_agree(n as nat, |j: int| before(j, i), |j: int| j < i);
                lemma_count_below(n as nat, i);
            }
        }
        return all;
    }
    let order = ScoreOrder { scores };
    let sorted = sort_indices(all, &order);
    proof {
        assert forall|a: int, b: int| 0 <= a < b < sorted@.len() implies #[trigger] sorted@[a]
            != #[trigger] sorted@[b] by {
            order.lemma_strict(sorted@[a] as int, sorted@[b] as int);
        }
        assert forall|k: int| 0 <= k < n implies #[trigger] sorted@[k] < n by {
            assert(sorted@.contains(sorted@[k]));
        }
        if orderable(scores@) {
            assert forall|i: int| 0 <= i < n implies ({
                let k = #[trigger] place(n as nat, score_order(scores@), i);
                k < sorted@.len() && sorted@[k as int] == i
            }) by {
                lemma_sorted_place(&order, n as nat, score_order(scores@), sorted@, i);
            }
        }
    }
    sorted
}

/// Ranks candidates by the scores that are left of them when their age is taken into account.
///
/// A single candidate keeps its score and its rank. Where scores cannot be ordered, the candidates
/// whose score is no number come last, which the contract leaves open.
pub fn apply_recency_decay(candidates: Vec<(i64, SearchHit)>, decayed: Vec<Binary32>) -> (res: Vec<
    SearchHit,
>)
    requires
        candidates@.len() >= 2 ==> decayed@.len() == candidates@.len(),
    ensures
        candidates@.len() <= 1 ==> res@ == candidates@.map_values(|c: (i64, SearchHit)| c.1),
        candidates@.len() >= 2 ==> ranked_in_some_order(candidates@, decayed@, res@),
        candidates@.len() >= 2 && orderable(decayed@) ==> ranked_by_score(
            candidates@,
            decayed@,
            res@,
        ),
        candidates@.len() >= 2 && (forall|i: int|
            0 <= i < decayed@.len() ==> (#[trigger] decayed@[i]).bits <= 0x7f80_0000 || 0x8000_0000
                <= decayed@[i].bits <= 0xff80_0000) ==> ranked_by_score(
            candidates@,
            decayed@,
            res@,
        ),
        candidates@.len() >= 2 && (forall|i: int, j: int|
            0 <= i < decayed@.len() && 0 <= j < decayed@.len() ==> !greater(
                #[trigger] decayed@[i],
                #[trigger] decayed@[j],
            )) ==> ranked_by_score(candidates@, decayed@, res@),
{
    let ghost all = candidates@;
    let n: usize = candidates.len();
    let mut hits: Vec<SearchHit> = Vec::new();
    for candidate in it: candidates
        invariant
            it.seq() == all,
            all.len() == n,
            n >= 2 ==> decayed@.len() == n,
            hits@.len() == it.index(),
            forall|k: int|
                0 <= k < hits@.len() ==> #[trigger] hits@[k] == (if n >= 2 {
                    SearchHit { score: Some(decayed@[k]), ..all[k].1 }
                } else {
                    all[k].1
                }),
    {
        let (_, mut hit) = candidate;
        if n >= 2 {
            hit.score = Some(decayed[hits.len()]);
        }
        hits.push(hit);
    }
    if n <= 1 {
        assert(hits@ =~= all.map_values(|c: (i64, SearchHit)| c.1));
        return hits;
    }
    let ranking = score_ranking(&decayed);
    proof {
        let source = as_ints(ranking@);
        assert forall|a: int, b: int| 0 <= a < b < ranking@.len() implies #[trigger] ranking@[a]
            != #[trigger] ranking@[b] by {
            assert(source[a] != source[b]);
        }
        assert forall|k: int| 0 <= k < ranking@.len() implies #[trigger] ranking@[k] < n by {
            assert(source[k] < n);
        }
    }
    let mut res = rearrange(hits, &ranking);
    number_ranks(&mut res);
    proof {
        assert(ranked_from(all, decayed@, as_ints(ranking@), res@));
        if orderable(decayed@) {
            assert forall|i: int| 0 <= i < n implies ({
                let k = place(n as nat, score_order(decayed@), i);
                &&& k < res@.len()
                &&& res@[k as int] == (SearchHit {
                    score: Some(decayed@[i]),
                    rank: (k + 1) as usize,
                    ..(#[trigger] all[i]).1
                })
            }) by {
                let k = place(n as nat, score_order(decayed@), i);
                assert(ranking@[k as int] == i);
            }
        }
    }
    res
}

/// Scores that can be ordered order the candidates strictly and totally.
pub proof fn lemma_score_order(scores: Seq<Binary32>)
    requires
        orderable(scores),
    ensures
        strict_total(scores.len(), every(), score_order(scores)),
{
}

/// In a ranking by scores that can be ordered, no score is greater than one that stands before it.
pub proof fn lemma_scores_descend(
    candidates: Seq<(i64, SearchHit)>,
    scores: Seq<Binary32>,
    ranked: Seq<SearchHit>,
    k: int,
    l: int,
)
    requires
        ranked_by_score(candidates, scores, ranked),
        orderable(scores),
        scores.len() == candidates.len(),
        0 <= k < l < ranked.len(),
    ensures
        ranked[k].score matches Some(a) && ranked[l].score matches Some(b) && !greater(b, a),
{
    let n = scores.len();
    let order = score_order(scores);
    lemma_score_order(scores);
    lemma_places(n, order);
    assert(is_taken(n, order, k) && is_taken(n, order, l));
    let i = choose|i: int| 0 <= i < n && #[trigger] place(n, order, i) == k;
    let j = choose|j: int| 0 <= j < n && #[trigger] place(n, order, j) == l;
    assert(order(i, j));
    assert(candidates[i] == candidates[i] && candidates[j] == candidates[j]);
}

/// A candidate that was given earlier stays ahead of those whose score is not greater. So
/// candidates with equal scores keep the order in which they were given.
pub proof fn lemma_earlier_stays_ahead(scores: Seq<Binary32>, i: int, j: int)
    requires
        orderable(scores),
        0 <= i < j < scores.len(),
        !greater(scores[j], scores[i]),
    ensures
        place(scores.len(), score_order(scores), i) < place(scores.len(), score_order(scores), j),
{
    lemma_score_order(scores);
    lemma_places(scores.len(), score_order(scores));
    assert(score_order(scores)(i, j));
}

/// Numbers compare as their bit patterns do where both are positive, and the other way round where
/// both are negative. A positive number is greater than a negative one, but the two zeros are
/// equal. What is no number is neither greater nor less than anything.
pub proof fn lemma_greater_by_bits(a: Binary32, b: Binary32)
    ensures
        a.bits <= 0x7f80_0000 && b.bits <= 0x7f80_0000 ==> (greater(a, b) <==> a.bits > b.bits),
        0x8000_0000 <= a.bits <= 0xff80_0000 && 0x8000_0000 <= b.bits <= 0xff80_0000 ==> (greater(
            a,
            b,
        ) <==> a.bits < b.bits),
        a.bits <= 0x7f80_0000 && 0x8000_0000 <= b.bits <= 0xff80_0000 ==> !greater(b, a) && (
        greater(a, b) <==> !(a.bits == 0 && b.bits == 0x8000_0000)),
        0x7f80_0000 < a.bits < 0x8000_0000 || 0xff80_0000 < a.bits ==> !greater(a, b) && !greater(
            b,
            a,
        ),
{
}

/// Of two different numbers one is greater, unless they are the two zeros.
pub proof fn lemma_neither_greater(a: Binary32, b: Binary32)
    requires
        a.bits <= 0x7f80_0000 || 0x8000_0000 <= a.bits <= 0xff80_0000,
        b.bits <= 0x7f80_0000 || 0x8000_0000 <= b.bits <= 0xff80_0000,
        !greater(a, b),
        !greater(b, a),
    ensures
        a.bits == b.bits || (a.bits == 0 && b.bits == 0x8000_0000) || (a.bits == 0x8000_0000
            && b.bits == 0),
{
}

/// A ranking lists every candidate once, with its score and with its place as its rank, and changes
/// nothing else of it.
pub proof fn lemma_ranking_keeps_candidates(
    candidates: Seq<(i64, SearchHit)>,
    scores: Seq<Binary32>,
    ranked: Seq<SearchHit>,
)
    requires
        ranked_in_some_order(candidates, scores, ranked),
    ensures
        ranked.len() == candidates.len(),
        exists|source: Seq<int>|
            {
                &&& #[trigger] source.no_duplicates()
                &&& source.len() == candidates.len()
                &&& forall|k: int|
                    0 <= k < source.len() ==> 0 <= #[trigger] source[k] < candidates.len()
                &&& forall|k: int|
                    0 <= k < source.len() ==> #[trigger] ranked[k] == (SearchHit {
                        score: Some(scores[source[k]]),
                        rank: (k + 1) as usize,
                        ..candidates[source[k]].1
                    })
            },
{
    let source = choose|source: Seq<int>|
        lists_all(source, candidates.len()) && #[trigger] ranked_from(
            candidates,
            scores,
            source,
            ranked,
        );
    assert(source.no_duplicates());
}

/// Where all scores are numbers, or none is greater than another, a ranking lists every candidate
/// once, with its score and its place as its rank. Of two candidates the one with the greater score
/// comes first, and the one given earlier where neither score is greater.
pub proof fn lemma_ranking_by_score(
    candidates: Seq<(i64, SearchHit)>,
    scores: Seq<Binary32>,
    ranked: Seq<SearchHit>,
)
    requires
        ranked_by_score(candidates, scores, ranked),
        scores.len() == candidates.len(),
        (forall|i: int|
            0 <= i < scores.len() ==> (#[trigger] scores[i]).bits <= 0x7f80_0000 || 0x8000_0000
                <= scores[i].bits <= 0xff80_0000) || (forall|i: int, j: int|
            0 <= i < scores.len() && 0 <= j < scores.len() ==> !greater(
                #[trigger] scores[i],
                #[trigger] scores[j],
            )),
    ensures
        ranked.len() == candidates.len(),
        exists|source: Seq<int>|
            {
                &&& #[trigger] source.no_duplicates()
                &&& source.len() == candidates.len()
                &&& forall|k: int|
                    0 <= k < source.len() ==> 0 <= #[trigger] source[k] < candidates.len()
                &&& forall|k: int|
                    0 <= k < source.len() ==> #[trigger] ranked[k] == (SearchHit {
                        score: Some(scores[source[k]]),
                        rank: (k + 1) as usize,
                        ..candidates[source[k]].1
                    })
                &&& forall|k: int, l: int|
                    0 <= k < l < source.len() ==> {
                        let (i, j) = (#[trigger] source[k], #[trigger] source[l]);
                        ||| greater(scores[i], scores[j])
                        ||| !greater(scores[j], scores[i]) && i < j
                    }
            },
{
    let n = scores.len();
    let order = score_order(scores);
    assert(orderable(scores));
    lemma_score_order(scores);
    lemma_places(n, order);
    let source = Seq::new(
        n,
        |k: int| choose|i: int| 0 <= i < n && #[trigger] place(n, order, i) == k,
    );
    assert forall|k: int| 0 <= k < n implies 0 <= #[trigger] source[k] < n && place(
        n,
        order,
        source[k],
    ) == k by {
        assert(is_taken(n, order, k));
    }
    assert forall|k: int| 0 <= k < n implies #[trigger] ranked[k] == (SearchHit {
        score: Some(scores[source[k]]),
        rank: (k + 1) as usize,
        ..candidates[source[k]].1
    }) by {
        assert(place(n, order, source[k]) == k);
        assert(candidates[source[k]] == candidates[source[k]]);
    }
    assert forall|k: int, l: int| 0 <= k < l < n implies {
        let (i, j) = (#[trigger] source[k], #[trigger] source[l]);
        ||| greater(scores[i], scores[j])
        ||| !greater(scores[j], scores[i]) && i < j
    } by {
        let (i, j) = (source[k], source[l]);
        assert(place(n, order, i) < place(n, order, j));
        assert(order(i, j));
    }
    assert(source.no_duplicates()) by {
        assert forall|k: int, l: int|
            0 <= k < source.len() && 0 <= l < source.len() && k != l implies source[k]
            != source[l] by {
            assert(place(n, order, source[k]) == k && place(n, order, source[l]) == l);
        }
    }
}

/// Scores that are not negative stand in a ranking by descending bit patterns, and strictly so
/// where no two of them are equal.
pub proof fn lemma_bit_patterns_descend(
    candidates: Seq<(i64, SearchHit)>,
    scores: Seq<Binary32>,
    ranked: Seq<SearchHit>,
    k: int,
    l: int,
)
    requires
        ranked_by_score(candidates, scores, ranked),
        scores.len() == candidates.len(),
        forall|i: int| 0 <= i < scores.len() ==> (#[trigger] scores[i]).bits <= 0x7f80_0000,
        0 <= k < l < ranked.len(),
    ensures
        ranked[k].score is Some && ranked[l].score is Some,
        ranked[k].score->0.bits >= ranked[l].score->0.bits,
        (forall|i: int, j: int|
            0 <= i < j < scores.len() ==> (#[trigger] scores[i]).bits != (
            #[trigger] scores[j]).bits) ==> ranked[k].score->0.bits > ranked[l].score->0.bits,
{
    lemma_ranking_by_score(candidates, scores, ranked);
    let source = choose|source: Seq<int>|
        {
            &&& #[trigger] source.no_duplicates()
            &&& source.len() == candidates.len()
            &&& forall|k: int|
                0 <= k < source.len() ==> 0 <= #[trigger] source[k] < candidates.len()
            &&& forall|k: int|
                0 <= k < source.len() ==> #[trigger] ranked[k] == (SearchHit {
                    score: Some(scores[source[k]]),
                    rank: (k + 1) as usize,
                    ..candidates[source[k]].1
                })
            &&& forall|k: int, l: int|
                0 <= k < l < source.len() ==> {
                    let (i, j) = (#[trigger] source[k], #[trigger] source[l]);
                    ||| greater(scores[i], scores[j])
                    ||| !greater(scores[j], scores[i]) && i < j
                }
        };
    let (i, j) = (source[k], source[l]);
    assert(i != j);
    lemma_greater_by_bits(scores[i], scores[j]);
    lemma_greater_by_bits(scores[j], scores[i]);
}

} // verus!
