//! Query tokens in texts: where they stand, and how well a hit matches them.
use vstd::prelude::*;
use vstd::utf8::{
    encode_utf8, encode_utf8_decode_utf8, encode_utf8_valid_utf8, is_char_boundary,
    is_char_boundary_iff_not_is_continuation_byte, is_char_boundary_start_end_of_seq,
    partial_valid_partial_invalid_utf8, valid_utf8, valid_utf8_split,
};

use crate::order::{
    all_indices, count, every, is_taken, lemma_count_agree, lemma_count_below,
    lemma_count_permuted, lemma_places, lemma_sorted_place, lists_all, place,
    rearrange, sort_indices, strict_total, IndexOrder,
};
use crate::text::{
    as_ints, ascii_lowercase, find_matches, lemma_match_rule, lemma_matches,
    lemma_matches_complete, lowercase_bytes, matches_from, occurs_at, trim, trim_str,
};
use crate::types::SearchHit;

verus! {

/// The bytes that a token is sought by where white space round it does not count.
pub open spec fn trimmed_token(token: String) -> Seq<u8> {
    encode_utf8(trim(token@))
}

/// Whether one of the tokens, trimmed, is found in `content` from byte `start` to byte `end`.
pub open spec fn is_occurrence(
    content: Seq<u8>,
    tokens: Seq<String>,
    start: int,
    end: int,
) -> bool {
    exists|t: int|
        0 <= t < tokens.len() && found_by(content, #[trigger] tokens[t], start, end)
}

/// Whether the token, trimmed, is found in `content` from byte `start` to byte `end`.
pub open spec fn found_by(content: Seq<u8>, token: String, start: int, end: int) -> bool {
    &&& matches_from(content, trimmed_token(token), 0).contains(start)
    &&& end == start + trimmed_token(token).len()
}

/// Whether one pair of offsets comes before another: by its start, then by its end.
pub open spec fn pair_less(a: (usize, usize), b: (usize, usize)) -> bool {
    a.0 < b.0 || (a.0 == b.0 && a.1 < b.1)
}

/// The order of pairs of offsets, and of positions where pairs are equal.
struct PairOrder<'a> {
    pairs: &'a Vec<(usize, usize)>,
}

impl<'a> IndexOrder for PairOrder<'a> {
    closed spec fn covers(&self, i: int) -> bool {
        0 <= i < self.pairs@.len()
    }

    closed spec fn before(&self, i: int, j: int) -> bool {
        pair_less(self.pairs@[i], self.pairs@[j]) || (self.pairs@[i] == self.pairs@[j] && i < j)
    }

    proof fn lemma_strict(&self, i: int, j: int) {
    }

    proof fn lemma_transitive(&self, i: int, j: int, k: int) {
    }

    fn precedes(&self, i: usize, j: usize) -> (b: bool) {
        let a: (usize, usize) = self.pairs[i];
        let b: (usize, usize) = self.pairs[j];
        if a.0 != b.0 {
            a.0 < b.0
        } else if a.1 != b.1 {
            a.1 < b.1
        } else {
            i < j
        }
    }
}

/// Sorts pairs of offsets and drops repetitions.
fn sort_and_dedup(pairs: Vec<(usize, usize)>) -> (res: Vec<(usize, usize)>)
    ensures
        forall|a: int, b: int|
            0 <= a < b < res@.len() ==> pair_less(#[trigger] res@[a], #[trigger] res@[b]),
        forall|p: (usize, usize)| #[trigger] res@.contains(p) <==> pairs@.contains(p),
{
    let order = PairOrder { pairs: &pairs };
    let sorted = sort_indices(all_indices(pairs.len()), &order);
    let mut res: Vec<(usize, usize)> = Vec::new();
    let mut k: usize = 0;
    proof {
        assert forall|a: int| 0 <= a < sorted@.len() implies #[trigger] sorted@[a]
            < pairs@.len() by {
            assert(order.covers(sorted@[a] as int));
        }
        assert forall|a: int, b: int| 0 <= a < b < sorted@.len() implies !pair_less(
            pairs@[#[trigger] sorted@[b] as int],
            pairs@[#[trigger] sorted@[a] as int],
        ) by {
            assert(order.before(sorted@[a] as int, sorted@[b] as int));
        }
    }
    while k < sorted.len()
        invariant
            k <= sorted@.len(),
            forall|a: int| 0 <= a < sorted@.len() ==> #[trigger] sorted@[a] < pairs@.len(),
            forall|a: int, b: int|
                0 <= a < b < sorted@.len() ==> !pair_less(
                    pairs@[#[trigger] sorted@[b] as int],
                    pairs@[#[trigger] sorted@[a] as int],
                ),
            forall|a: int, b: int|
                0 <= a < b < res@.len() ==> pair_less(#[trigger] res@[a], #[trigger] res@[b]),
            forall|a: int| 0 <= a < res@.len() ==> pairs@.contains(#[trigger] res@[a]),
            forall|a: int|
                0 <= a < k ==> res@.contains(pairs@[#[trigger] sorted@[a] as int]),
            k > 0 ==> res@.len() > 0 && res@.last() == pairs@[sorted@[k - 1] as int],
            res@.len() > 0 ==> k > 0,
        decreases sorted@.len() - k,
    {
        let p: (usize, usize) = pairs[sorted[k]];
        let ghost before = res@;
        let is_new = if res.len() == 0 {
            true
        } else {
            let q: (usize, usize) = res[res.len() - 1];
            q.0 != p.0 || q.1 != p.1
        };
        if is_new {
            proof {
                if before.len() > 0 {
                    assert(pair_less(before.last(), p)) by {
                        assert(!pair_less(
                            pairs@[sorted@[k as int] as int],
                            pairs@[sorted@[k - 1] as int],
                        ));
                    }
                }
            }
            res.push(p);
            proof {
                assert forall|a: int| 0 <= a < before.len() implies pair_less(
                    #[trigger] before[a],
                    p,
                ) by {
                    if a < before.len() - 1 {
                        assert(pair_less(before[a], before[before.len() - 1]));
                    }
                }
                assert(pairs@[sorted@[k as int] as int] == p);
            }
        }
        proof {
            assert(res@[res@.len() - 1] == p);
            assert forall|a: int| 0 <= a < k + 1 implies res@.contains(
                pairs@[#[trigger] sorted@[a] as int],
            ) by {
                if a < k {
                    assert(before.contains(pairs@[sorted@[a] as int]));
                    let c = choose|c: int|
                        0 <= c < before.len() && before[c] == pairs@[sorted@[a] as int];
                    assert(res@[c] == before[c]);
                }
            }
        }
        k += 1;
    }
    proof {
        assert forall|p: (usize, usize)| #[trigger] res@.contains(p) <==> pairs@.contains(p) by {
            if pairs@.contains(p) {
                let i = choose|i: int| 0 <= i < pairs@.len() && pairs@[i] == p;
                assert(pairs@.len() == pairs.len());
                assert(sorted@.contains(i as usize));
                let a = choose|a: int| 0 <= a < sorted@.len() && sorted@[a] == i as usize;
                assert(pairs@[sorted@[a] as int] == p);
            }
        }
    }
    res
}

/// Finds where the tokens stand in a text that is already in lower case.
///
/// Each token is trimmed, and an empty one is not sought. The result holds the byte range of each
/// occurrence once, in ascending order.
pub fn collect_token_occurrences(content_lower: &str, tokens: &[String]) -> (res: Vec<
    (usize, usize),
>)
    ensures
        forall|a: int, b: int|
            0 <= a < b < res@.len() ==> pair_less(#[trigger] res@[a], #[trigger] res@[b]),
        forall|a: int, b: int|
            0 <= a < b < res@.len() ==> (#[trigger] res@[a]).0 < (#[trigger] res@[b]).0 || (
            res@[a].0 == res@[b].0 && res@[a].1 < res@[b].1),
        forall|start: usize, end: usize| #[trigger]
            res@.contains((start, end)) <==> is_occurrence(
                encode_utf8(content_lower@),
                tokens@,
                start as int,
                end as int,
            ),
{
    let content = content_lower.as_bytes();
    let ghost bytes = encode_utf8(content_lower@);
    let mut pairs: Vec<(usize, usize)> = Vec::new();
    let mut t: usize = 0;
    while t < tokens.len()
        invariant
            t <= tokens@.len(),
            content@ == bytes,
            forall|start: usize, end: usize| #[trigger]
                pairs@.contains((start, end)) <==> is_occurrence(
                    bytes,
                    tokens@.take(t as int),
                    start as int,
                    end as int,
                ),
        decreases tokens@.len() - t,
    {
        let needle = trim_str(tokens[t].as_str()).as_bytes();
        let found = find_matches(content, needle);
        let ghost known = pairs@;
        let size: usize = content.len();
        proof {
            lemma_matches(bytes, needle@, 0);
            assert forall|a: int| 0 <= a < found@.len() implies #[trigger] found@[a]
                + needle@.len() <= size by {
                assert(as_ints(found@)[a] == found@[a]);
            }
        }
        let mut k: usize = 0;
        while k < found.len()
            invariant
                k <= found@.len(),
                size == bytes.len(),
                forall|a: int|
                    0 <= a < found@.len() ==> #[trigger] found@[a] + needle@.len() <= size,
                forall|start: usize, end: usize| #[trigger]
                    pairs@.contains((start, end)) <==> known.contains((start, end)) || (
                    end == start + needle@.len() && found@.take(k as int).contains(start)),
            decreases found@.len() - k,
        {
            let start: usize = found[k];
            let ghost before = pairs@;
            pairs.push((start, start + needle.len()));
            proof {
                assert(found@.take(k + 1) =~= found@.take(k as int).push(start));
                assert forall|s: usize, e: usize| #[trigger]
                    pairs@.contains((s, e)) <==> known.contains((s, e)) || (e == s
                        + needle@.len() && found@.take(k + 1).contains(s)) by {
                    lemma_push_contains(before, (start, (start + needle@.len()) as usize), (s, e));
                    lemma_push_contains(found@.take(k as int), start, s);
                }
            }
            k += 1;
        }
        proof {
            assert(found@.take(k as int) =~= found@);
            let now = tokens@.take(t as int);
            let next = tokens@.take(t + 1);
            assert forall|start: usize, end: usize| #[trigger]
                pairs@.contains((start, end)) <==> is_occurrence(
                    bytes,
                    next,
                    start as int,
                    end as int,
                ) by {
                lemma_as_ints_contains(found@, start);
                assert(found_by(bytes, tokens@[t as int], start as int, end as int) <==> (end
                    == start + needle@.len() && found@.contains(start)));
                if is_occurrence(bytes, now, start as int, end as int) {
                    let u = choose|u: int|
                        0 <= u < now.len() && found_by(
                            bytes,
                            #[trigger] now[u],
                            start as int,
                            end as int,
                        );
                    assert(next[u] == now[u]);
                }
                if found_by(bytes, tokens@[t as int], start as int, end as int) {
                    assert(next[t as int] == tokens@[t as int]);
                }
                if is_occurrence(bytes, next, start as int, end as int) {
                    let u = choose|u: int|
                        0 <= u < next.len() && found_by(
                            bytes,
                            #[trigger] next[u],
                            start as int,
                            end as int,
                        );
                    if u < t {
                        assert(now[u] == next[u]);
                    }
                }
            }
        }
        t += 1;
    }
    assert(tokens@.take(t as int) =~= tokens@);
    sort_and_dedup(pairs)
}

/// A sequence with one more entry holds what it held before, and the entry.
proof fn lemma_push_contains<A>(s: Seq<A>, a: A, x: A)
    ensures
        s.push(a).contains(x) <==> s.contains(x) || x == a,
{
    if s.contains(x) {
        let k = choose|k: int| 0 <= k < s.len() && s[k] == x;
        assert(s.push(a)[k] == x);
    }
    assert(s.push(a)[s.len() as int] == a);
    if s.push(a).contains(x) {
        let k = choose|k: int| 0 <= k < s.push(a).len() && s.push(a)[k] == x;
        if k < s.len() {
            assert(s[k] == x);
        }
    }
}

/// Offsets keep their places when they are taken as integers.
proof fn lemma_as_ints_contains(s: Seq<usize>, x: usize)
    ensures
        as_ints(s).contains(x as int) <==> s.contains(x),
{
    if s.contains(x) {
        let k = choose|k: int| 0 <= k < s.len() && s[k] == x;
        assert(as_ints(s)[k] == x as int);
    }
    if as_ints(s).contains(x as int) {
        let k = choose|k: int| 0 <= k < as_ints(s).len() && as_ints(s)[k] == x as int;
        assert(s[k] == x);
    }
}

/// How well a hit matches the tokens of a query.
#[derive(Debug, Clone, Copy, PartialEq, Eq)]
pub struct TokenMetrics {
    /// How many of the tokens occur.
    pub unique_tokens: usize,
    /// How often tokens occur in all.
    pub total_occurrences: usize,
    /// The distance from the first occurrence to the last, or the greatest number there is where
    /// there are fewer than two.
    pub tightest_span: usize,
}

/// The text that a hit is matched by: the chunk round it, or its own text if there is none.
pub open spec fn searched_text(hit: SearchHit) -> Seq<char> {
    match hit.chunk_text {
        Some(chunk) => chunk@,
        None => hit.text@,
    }
}

/// The bytes that tokens are sought in.
pub open spec fn haystack(hit: SearchHit) -> Seq<u8> {
    encode_utf8(ascii_lowercase(searched_text(hit)))
}

/// The positions of one token in `hay`.
pub open spec fn token_matches(hay: Seq<u8>, token: String) -> Seq<int> {
    matches_from(hay, encode_utf8(token@), 0)
}

/// The positions of all tokens in `hay`, token by token.
pub open spec fn token_positions(hay: Seq<u8>, tokens: Seq<String>) -> Seq<int>
    decreases tokens.len(),
{
    if tokens.len() == 0 {
        seq![]
    } else {
        token_positions(hay, tokens.drop_last()) + token_matches(hay, tokens.last())
    }
}

/// How many of the tokens occur in `hay`.
pub open spec fn tokens_found(hay: Seq<u8>, tokens: Seq<String>) -> nat {
    count(tokens.len(), |t: int| token_matches(hay, tokens[t]).len() > 0)
}

/// The distance from the least position to the greatest.
pub open spec fn span(positions: Seq<int>) -> int {
    if positions.len() >= 2 {
        positions.max() - positions.min()
    } else {
        usize::MAX as int
    }
}

/// Whether metrics are those of a hit.
pub open spec fn measures(metrics: TokenMetrics, hit: SearchHit, tokens: Seq<String>) -> bool {
    let positions = token_positions(haystack(hit), tokens);
    &&& metrics.unique_tokens == tokens_found(haystack(hit), tokens)
    &&& metrics.total_occurrences == positions.len()
    &&& metrics.tightest_span == span(positions)
}

/// Measures how well a hit matches the tokens, which are taken as they are; the text of the hit is
/// put in ASCII lower case.
pub fn token_match_metrics(hit: &SearchHit, tokens: &[String]) -> (res: TokenMetrics)
    requires
        forall|t: int| 0 <= t < tokens@.len() ==> (#[trigger] tokens@[t])@.len() > 0,
    ensures
        measures(res, *hit, tokens@),
{
    let hay = match &hit.chunk_text {
        Some(chunk) => lowercase_bytes(chunk.as_str()),
        None => lowercase_bytes(hit.text.as_str()),
    };
    let mut unique: usize = 0;
    let mut positions: Vec<usize> = Vec::new();
    let ghost found_at = |t: int| token_matches(hay@, tokens@[t]).len() > 0;
    let mut t: usize = 0;
    assert(as_ints(positions@) =~= token_positions(hay@, tokens@.take(0)));
    while t < tokens.len()
        invariant
            t <= tokens@.len(),
            unique <= t,
            found_at == (|t: int| token_matches(hay@, tokens@[t]).len() > 0),
            unique == count(t as nat, found_at),
            as_ints(positions@) == token_positions(hay@, tokens@.take(t as int)),
        decreases tokens@.len() - t,
    {
        let mut found = find_matches(hay.as_slice(), tokens[t].as_str().as_bytes());
        let ghost before = positions@;
        let ghost more = found@;
        if found.len() > 0 {
            unique += 1;
        }
        positions.append(&mut found);
        proof {
            let next = tokens@.take(t + 1);
            assert(next.drop_last() =~= tokens@.take(t as int));
            assert(next.last() == tokens@[t as int]);
            assert(as_ints(more).len() == more.len());
            assert(as_ints(positions@) =~= as_ints(before) + as_ints(more));
        }
        t += 1;
    }
    proof {
        assert(tokens@.take(t as int) =~= tokens@);
    }
    let span = if positions.len() >= 2 {
        let mut least: usize = positions[0];
        let mut greatest: usize = positions[0];
        let ghost all = as_ints(positions@);
        assert(all[0] == positions@[0]);
        let mut k: usize = 1;
        while k < positions.len()
            invariant
                1 <= k <= positions@.len(),
                all == as_ints(positions@),
                least <= greatest,
                all.contains(least as int),
                all.contains(greatest as int),
                forall|a: int| 0 <= a < k ==> least <= #[trigger] positions@[a] <= greatest,
            decreases positions@.len() - k,
        {
            let p: usize = positions[k];
            assert(all[k as int] == p as int);
            if p < least {
                least = p;
            }
            if p > greatest {
                greatest = p;
            }
            k += 1;
        }
        proof {
            all.max_ensures();
            all.min_ensures();
            assert(all.max() == greatest as int) by {
                let a = choose|a: int| 0 <= a < all.len() && all[a] == all.max();
                assert(positions@[a] == all.max());
                let b = choose|b: int| 0 <= b < all.len() && all[b] == greatest as int;
                assert(all[b] <= all.max());
            }
            assert(all.min() == least as int) by {
                let a = choose|a: int| 0 <= a < all.len() && all[a] == all.min();
                assert(positions@[a] == all.min());
                let b = choose|b: int| 0 <= b < all.len() && all[b] == least as int;
                assert(all.min() <= all[b]);
            }
        }
        greatest - least
    } else {
        usize::MAX
    };
    TokenMetrics {
        unique_tokens: unique,
        total_occurrences: positions.len(),
        tightest_span: span,
    }
}

/// Whether hit `i` comes before hit `j` in a list that is ordered by how well hits match: by more
/// tokens, then by more occurrences, then by the shorter span, then by rank, then by position.
pub open spec fn matches_better(
    hits: Seq<SearchHit>,
    tokens: Seq<String>,
    i: int,
    j: int,
) -> bool {
    let (a, b) = (haystack(hits[i]), haystack(hits[j]));
    let (p, q) = (token_positions(a, tokens), token_positions(b, tokens));
    if tokens_found(a, tokens) != tokens_found(b, tokens) {
        tokens_found(a, tokens) > tokens_found(b, tokens)
    } else if p.len() != q.len() {
        p.len() > q.len()
    } else if span(p) != span(q) {
        span(p) < span(q)
    } else if hits[i].rank != hits[j].rank {
        hits[i].rank < hits[j].rank
    } else {
        i < j
    }
}

/// The order of hits by how well they match.
pub open spec fn match_order(
    hits: Seq<SearchHit>,
    tokens: Seq<String>,
) -> spec_fn(int, int) -> bool {
    |i: int, j: int| matches_better(hits, tokens, i, j)
}

/// The place of hit `i` among hits that are ordered by how well they match.
pub open spec fn match_place(hits: Seq<SearchHit>, tokens: Seq<String>, i: int) -> nat {
    place(hits.len(), match_order(hits, tokens), i)
}

/// Whether `after` holds the hits of `before`, ordered by how well they match, with ranks that
/// count from one.
pub open spec fn reordered(
    before: Seq<SearchHit>,
    tokens: Seq<String>,
    after: Seq<SearchHit>,
) -> bool {
    &&& after.len() == before.len()
    &&& forall|i: int|
        0 <= i < before.len() ==> {
            let place = match_place(before, tokens, i);
            &&& place < after.len()
            &&& after[place as int] == (SearchHit {
                rank: (place + 1) as usize,
                ..#[trigger] before[i]
            })
        }
}

/// Decides the order of hits by how well they match.
struct MatchOrder<'a> {
    hits: &'a Vec<SearchHit>,
    tokens: &'a [String],
    metrics: &'a Vec<TokenMetrics>,
}

impl<'a> IndexOrder for MatchOrder<'a> {
    closed spec fn covers(&self, i: int) -> bool {
        &&& 0 <= i < self.hits@.len()
        &&& self.metrics@.len() == self.hits@.len()
        &&& measures(self.metrics@[i], self.hits@[i], self.tokens@)
    }

    closed spec fn before(&self, i: int, j: int) -> bool {
        matches_better(self.hits@, self.tokens@, i, j)
    }

    proof fn lemma_strict(&self, i: int, j: int) {
    }

    proof fn lemma_transitive(&self, i: int, j: int, k: int) {
    }

    fn precedes(&self, i: usize, j: usize) -> (b: bool) {
        let a: TokenMetrics = self.metrics[i];
        let b: TokenMetrics = self.metrics[j];
        if a.unique_tokens != b.unique_tokens {
            a.unique_tokens > b.unique_tokens
        } else if a.total_occurrences != b.total_occurrences {
            a.total_occurrences > b.total_occurrences
        } else if a.tightest_span != b.tightest_span {
            a.tightest_span < b.tightest_span
        } else if self.hits[i].rank != self.hits[j].rank {
            self.hits[i].rank < self.hits[j].rank
        } else {
            i < j
        }
    }
}

/// Gives the hits of a list ranks that count from one.
pub(crate) fn number_ranks(hits: &mut Vec<SearchHit>)
    ensures
        final(hits)@.len() == old(hits)@.len(),
        forall|k: int|
            0 <= k < final(hits)@.len() ==> #[trigger] final(hits)@[k] == (SearchHit {
                rank: (k + 1) as usize,
                ..old(hits)@[k]
            }),
{
    let ghost start = hits@;
    let n: usize = hits.len();
    let mut k: usize = 0;
    while k < n
        invariant
            k <= n,
            hits@.len() == n,
            start.len() == n,
            forall|a: int|
                0 <= a < k ==> #[trigger] hits@[a] == (SearchHit {
                    rank: (a + 1) as usize,
                    ..start[a]
                }),
            forall|a: int| k <= a < n ==> #[trigger] hits@[a] == start[a],
        decreases n - k,
    {
        let hit = &mut hits[k];
        hit.rank = k + 1;
        k += 1;
    }
}

/// Orders hits by how well they match the tokens, and numbers their ranks anew.
pub fn reorder_hits_by_token_matches(hits: &mut Vec<SearchHit>, tokens: &[String])
    requires
        old(hits)@.len() >= 2 ==> forall|t: int|
            0 <= t < tokens@.len() ==> (#[trigger] tokens@[t])@.len() > 0,
    ensures
        tokens@.len() == 0 ==> final(hits)@ == old(hits)@,
        tokens@.len() > 0 ==> reordered(old(hits)@, tokens@, final(hits)@),
{
    if hits.len() == 0 || tokens.len() == 0 {
        return;
    }
    let ghost start = hits@;
    let mut metrics: Vec<TokenMetrics> = Vec::new();
    let mut k: usize = 0;
    if hits.len() == 1 {
        number_ranks(hits);
        proof {
            reveal_with_fuel(count, 2);
            assert(!matches_better(start, tokens@, 0, 0));
        }
        return;
    }
    while k < hits.len()
        invariant
            k <= hits@.len(),
            metrics@.len() == k,
            forall|t: int| 0 <= t < tokens@.len() ==> (#[trigger] tokens@[t])@.len() > 0,
            forall|a: int|
                0 <= a < k ==> measures(#[trigger] metrics@[a], hits@[a], tokens@),
        decreases hits@.len() - k,
    {
        metrics.push(token_match_metrics(&hits[k], tokens));
        k += 1;
    }
    let order = MatchOrder { hits, tokens, metrics: &metrics };
    let indices = all_indices(hits.len());
    let sorted = sort_indices(indices, &order);
    proof {
        assert(sorted@.len() == start.len());
        assert forall|i: int| 0 <= i < start.len() implies match_place(start, tokens@, i)
            < sorted@.len() && sorted@[match_place(start, tokens@, i) as int]
            == i && #[trigger] start[i] == start[i] by {
            lemma_sorted_place(
                &order,
                start.len(),
                match_order(start, tokens@),
                sorted@,
                i,
            );
        }
    }
    let mut taken: Vec<SearchHit> = Vec::new();
    core::mem::swap(hits, &mut taken);
    let mut moved = rearrange(taken, &sorted);
    number_ranks(&mut moved);
    core::mem::swap(hits, &mut moved);
}

/// The order of hits by how well they match is strict and total.
pub proof fn lemma_match_order(hits: Seq<SearchHit>, tokens: Seq<String>)
    ensures
        strict_total(hits.len(), every(), match_order(hits, tokens)),
{
}

/// Reordering keeps each hit, but for its rank, once: each place holds a hit of the list before, no
/// two hits have the same place, and ranks count the places from one.
pub proof fn lemma_reordered_keeps_hits(
    before: Seq<SearchHit>,
    tokens: Seq<String>,
    after: Seq<SearchHit>,
)
    requires
        reordered(before, tokens, after),
        before.len() <= usize::MAX,
    ensures
        forall|k: int|
            0 <= k < after.len() ==> (#[trigger] after[k]).rank == k + 1 && exists|i: int|
                0 <= i < before.len() && #[trigger] match_place(before, tokens, i) == k && after[k]
                    == (SearchHit { rank: after[k].rank, ..before[i] }),
        forall|i: int, j: int|
            0 <= i < before.len() && 0 <= j < before.len() && i != j ==> #[trigger] match_place(
                before,
                tokens,
                i,
            ) != #[trigger] match_place(before, tokens, j),
{
    let n = before.len();
    let order = match_order(before, tokens);
    lemma_match_order(before, tokens);
    lemma_places(n, order);
    assert forall|k: int| 0 <= k < after.len() implies (#[trigger] after[k]).rank == k + 1
        && exists|i: int|
        0 <= i < before.len() && #[trigger] match_place(before, tokens, i) == k && after[k] == (
        SearchHit { rank: after[k].rank, ..before[i] }) by {
        assert(is_taken(n, order, k));
        let i = choose|i: int| 0 <= i < n && #[trigger] place(n, order, i) == k;
        assert(match_place(before, tokens, i) == k);
        assert(before[i] == before[i]);
    }
    assert forall|i: int, j: int|
        0 <= i < before.len() && 0 <= j < before.len() && i != j implies #[trigger] match_place(
        before,
        tokens,
        i,
    ) != #[trigger] match_place(before, tokens, j) by {
        assert(order(i, j) <==> !order(j, i));
        assert(order(i, j) <==> place(n, order, i) < place(n, order, j));
        assert(order(j, i) <==> place(n, order, j) < place(n, order, i));
    }
}

/// After reordering, hits stand in the order of how well they match.
pub proof fn lemma_reordered_is_sorted(
    before: Seq<SearchHit>,
    tokens: Seq<String>,
    after: Seq<SearchHit>,
    k: int,
    l: int,
)
    requires
        reordered(before, tokens, after),
        before.len() <= usize::MAX,
        0 <= k < l < after.len(),
    ensures
        matches_better(after, tokens, k, l),
{
    let n = before.len();
    let order = match_order(before, tokens);
    lemma_match_order(before, tokens);
    lemma_places(n, order);
    assert(is_taken(n, order, k));
    assert(is_taken(n, order, l));
    let i = choose|i: int| 0 <= i < n && #[trigger] place(n, order, i) == k;
    let j = choose|j: int| 0 <= j < n && #[trigger] place(n, order, j) == l;
    assert(order(i, j));
    assert(match_place(before, tokens, i) == k);
    assert(match_place(before, tokens, j) == l);
    assert(after[k] == (SearchHit { rank: (k + 1) as usize, ..before[i] }));
    assert(after[l] == (SearchHit { rank: (l + 1) as usize, ..before[j] }));
    assert(haystack(after[k]) == haystack(before[i]));
    assert(haystack(after[l]) == haystack(before[j]));
}

/// Hits that were reordered stay as they are when they are reordered by the same tokens again.
pub proof fn lemma_reorder_idempotent(
    before: Seq<SearchHit>,
    tokens: Seq<String>,
    after: Seq<SearchHit>,
    again: Seq<SearchHit>,
)
    requires
        reordered(before, tokens, after),
        reordered(after, tokens, again),
        before.len() <= usize::MAX,
    ensures
        again == after,
{
    let n = after.len();
    lemma_reordered_keeps_hits(before, tokens, after);
    assert forall|k: int| 0 <= k < n implies again[k] == #[trigger] after[k] by {
        let order = match_order(after, tokens);
        assert forall|j: int| 0 <= j < n implies #[trigger] order(j, k) == (j < k) by {
            if j < k {
                lemma_reordered_is_sorted(before, tokens, after, j, k);
            } else if k < j {
                lemma_reordered_is_sorted(before, tokens, after, k, j);
            }
        }
        lemma_count_agree(n, |j: int| order(j, k), |j: int| j < k);
        lemma_count_below(n, k);
        assert(match_place(after, tokens, k) == k);
        assert(after[k].rank == k + 1);
    }
    assert(again =~= after);
}

/// Where no two hits have the same rank, the order in which hits are given makes no difference.
pub proof fn lemma_given_order_is_ignored(
    hits: Seq<SearchHit>,
    others: Seq<SearchHit>,
    source: Seq<int>,
    tokens: Seq<String>,
    after: Seq<SearchHit>,
    others_after: Seq<SearchHit>,
)
    requires
        lists_all(source, hits.len()),
        others == source.map_values(|i: int| hits[i]),
        forall|i: int, j: int|
            0 <= i < j < hits.len() ==> (#[trigger] hits[i]).rank != (#[trigger] hits[j]).rank,
        reordered(hits, tokens, after),
        reordered(others, tokens, others_after),
    ensures
        others_after == after,
{
    let n = hits.len();
    let order = match_order(hits, tokens);
    let other_order = match_order(others, tokens);
    lemma_match_order(others, tokens);
    lemma_places(n, other_order);
    assert forall|p: int| 0 <= p < n implies #[trigger] others_after[p] == after[p] by {
        assert(is_taken(n, other_order, p));
        let k = choose|k: int| 0 <= k < n && #[trigger] place(n, other_order, k) == p;
        let i = source[k];
        assert(others[k] == hits[i]);
        assert forall|l: int| 0 <= l < n implies #[trigger] other_order(l, k) == order(
            source[l],
            i,
        ) by {
            assert(others[l] == hits[source[l]]);
            if l != k {
                assert(source[l] != i);
                assert(hits[source[l]].rank != hits[i].rank);
            }
        }
        lemma_count_agree(
            n,
            |l: int| other_order(l, k),
            |l: int| (|j: int| order(j, i))(source[l]),
        );
        lemma_count_permuted(n, source, |j: int| order(j, i));
        assert(match_place(others, tokens, k) == p);
        assert(match_place(hits, tokens, i) == p);
    }
    assert(others_after =~= after);
}

/// Tokens occur at least as often as there are tokens that occur, and no more tokens occur than
/// there are.
pub proof fn lemma_metrics_consistent(hay: Seq<u8>, tokens: Seq<String>)
    ensures
        tokens_found(hay, tokens) <= token_positions(hay, tokens).len(),
        tokens_found(hay, tokens) <= tokens.len(),
        tokens_found(hay, tokens) == 0 <==> token_positions(hay, tokens).len() == 0,
    decreases tokens.len(),
{
    if tokens.len() > 0 {
        let rest = tokens.drop_last();
        lemma_metrics_consistent(hay, rest);
        lemma_count_agree(
            rest.len(),
            |t: int| token_matches(hay, tokens[t]).len() > 0,
            |t: int| token_matches(hay, rest[t]).len() > 0,
        );
        assert(tokens.last() == tokens[tokens.len() - 1]);
    }
}

/// The case of ASCII letters in the text of a hit makes no difference to how it matches.
pub proof fn lemma_case_is_ignored(a: SearchHit, b: SearchHit)
    requires
        ascii_lowercase(searched_text(a)) == ascii_lowercase(searched_text(b)),
    ensures
        haystack(a) == haystack(b),
{
}

/// An occurrence lies inside the content, is not empty, and reads as one of the tokens, trimmed.
pub proof fn lemma_occurrence_reads_as_token(
    content: Seq<u8>,
    tokens: Seq<String>,
    start: int,
    end: int,
)
    requires
        is_occurrence(content, tokens, start, end),
    ensures
        0 <= start < end <= content.len(),
        exists|t: int|
            0 <= t < tokens.len() && content.subrange(start, end) == encode_utf8(
                trim((#[trigger] tokens[t])@),
            ),
{
    let t = choose|t: int|
        0 <= t < tokens.len() && found_by(content, #[trigger] tokens[t], start, end);
    let needle = trimmed_token(tokens[t]);
    lemma_matches(content, needle, 0);
    let m = matches_from(content, needle, 0);
    let k = choose|k: int| 0 <= k < m.len() && m[k] == start;
    assert(occurs_at(content, needle, m[k]));
}

/// Where a trimmed token stands in the content, it is found there, or an occurrence of the same
/// token that overlaps it is.
pub proof fn lemma_every_occurrence_is_covered(
    content: Seq<u8>,
    tokens: Seq<String>,
    t: int,
    at: int,
)
    requires
        0 <= t < tokens.len(),
        encode_utf8(trim(tokens[t]@)).len() > 0,
        0 <= at <= content.len() - encode_utf8(trim(tokens[t]@)).len(),
        content.subrange(at, at + encode_utf8(trim(tokens[t]@)).len()) == encode_utf8(
            trim(tokens[t]@),
        ),
    ensures
        exists|start: int|
            start <= at < start + encode_utf8(trim(tokens[t]@)).len() && #[trigger] is_occurrence(
                content,
                tokens,
                start,
                start + encode_utf8(trim(tokens[t]@)).len(),
            ),
{
    let needle = trimmed_token(tokens[t]);
    let m = matches_from(content, needle, 0);
    lemma_matches_complete(content, needle, 0, at);
    let k = choose|k: int| 0 <= k < m.len() && #[trigger] m[k] <= at < m[k] + needle.len();
    assert(m.contains(m[k]));
    assert(found_by(content, tokens[t], m[k], m[k] + needle.len()));
    assert(is_occurrence(content, tokens, m[k], m[k] + needle.len()));
}

/// One token occurs exactly where its characters, trimmed, stand in the content, unless an
/// occurrence that starts earlier reaches so far. A blank token does not occur.
pub proof fn lemma_one_token_occurs(content: Seq<u8>, token: String, start: int, end: int)
    ensures
        is_occurrence(content, seq![token], start, end) <==> {
            let needle = encode_utf8(trim(token@));
            &&& needle.len() > 0
            &&& end == start + needle.len()
            &&& 0 <= start
            &&& end <= content.len()
            &&& content.subrange(start, end) == needle
            &&& forall|s: int, e: int| #[trigger]
                is_occurrence(content, seq![token], s, e) && s < start ==> e <= start
        },
{
    let needle = trimmed_token(token);
    let m = matches_from(content, needle, 0);
    lemma_match_rule(content, needle, start);
    assert forall|s: int, e: int| #[trigger]
        is_occurrence(content, seq![token], s, e) <==> (m.contains(s) && e == s + needle.len()) by {
        assert(seq![token][0] == token);
        if m.contains(s) && e == s + needle.len() {
            assert(found_by(content, seq![token][0], s, e));
        }
    }
    assert(forall|earlier: int| #[trigger]
        m.contains(earlier) ==> is_occurrence(
            content,
            seq![token],
            earlier,
            earlier + needle.len(),
        ));
}

/// Tokens occur where one of them, taken by itself, occurs.
pub proof fn lemma_tokens_occur_apart(content: Seq<u8>, tokens: Seq<String>, start: int, end: int)
    ensures
        is_occurrence(content, tokens, start, end) <==> exists|t: int|
            0 <= t < tokens.len() && is_occurrence(
                content,
                seq![#[trigger] tokens[t]],
                start,
                end,
            ),
{
    assert forall|t: int| 0 <= t < tokens.len() implies is_occurrence(
        content,
        seq![#[trigger] tokens[t]],
        start,
        end,
    ) == found_by(content, tokens[t], start, end) by {
        assert(seq![tokens[t]][0] == tokens[t]);
    }
}

/// Whether every token of one list is, trimmed, a token of another.
pub open spec fn tokens_within(tokens: Seq<String>, others: Seq<String>) -> bool {
    forall|t: int| 0 <= t < tokens.len() ==> is_token_of(#[trigger] tokens[t], others)
}

/// Whether a token is, trimmed, one of a list.
pub open spec fn is_token_of(token: String, tokens: Seq<String>) -> bool {
    exists|t: int|
        0 <= t < tokens.len() && trimmed_token(#[trigger] tokens[t]) == trimmed_token(token)
}

/// Only the set of the trimmed tokens counts: more tokens find what fewer find, so lists with the
/// same tokens, in whatever order and however often, find the same.
pub proof fn lemma_token_set_counts(
    content: Seq<u8>,
    tokens: Seq<String>,
    others: Seq<String>,
    start: int,
    end: int,
)
    requires
        tokens_within(tokens, others),
        is_occurrence(content, tokens, start, end),
    ensures
        is_occurrence(content, others, start, end),
{
    let t = choose|t: int|
        0 <= t < tokens.len() && found_by(content, #[trigger] tokens[t], start, end);
    assert(is_token_of(tokens[t], others));
    let u = choose|u: int|
        0 <= u < others.len() && trimmed_token(#[trigger] others[u]) == trimmed_token(tokens[t]);
    assert(found_by(content, others[u], start, end));
}

/// An occurrence starts and ends between characters of the content, so the content can be cut
/// there.
pub proof fn lemma_occurrence_on_char_boundaries(
    content: Seq<char>,
    tokens: Seq<String>,
    start: int,
    end: int,
)
    requires
        is_occurrence(encode_utf8(content), tokens, start, end),
    ensures
        is_char_boundary(encode_utf8(content), start),
        is_char_boundary(encode_utf8(content), end),
{
    let bytes = encode_utf8(content);
    let t = choose|t: int|
        0 <= t < tokens.len() && found_by(bytes, #[trigger] tokens[t], start, end);
    let chars = trim(tokens[t]@);
    let needle = encode_utf8(chars);
    lemma_matches(bytes, needle, 0);
    let m = matches_from(bytes, needle, 0);
    let k = choose|k: int| 0 <= k < m.len() && m[k] == start;
    assert(occurs_at(bytes, needle, m[k]));
    encode_utf8_valid_utf8(content);
    encode_utf8_valid_utf8(chars);
    // The needle starts with the first byte of a character.
    assert(bytes[start] == needle[0]) by {
        assert(bytes.subrange(start, end)[0] == bytes[start]);
    }
    is_char_boundary_start_end_of_seq(needle);
    is_char_boundary_iff_not_is_continuation_byte(needle, 0);
    is_char_boundary_iff_not_is_continuation_byte(bytes, start);
    // What stands behind the needle is valid by itself.
    let tail = bytes.subrange(start, bytes.len() as int);
    valid_utf8_split(bytes, start);
    assert(valid_utf8(tail));
    assert(tail.subrange(0, needle.len() as int) =~= needle);
    let rest = tail.subrange(needle.len() as int, tail.len() as int);
    if !valid_utf8(rest) {
        partial_valid_partial_invalid_utf8(tail, needle.len() as int);
    }
    if end == bytes.len() {
        is_char_boundary_start_end_of_seq(bytes);
    } else {
        assert(rest[0] == bytes[end]);
        is_char_boundary_start_end_of_seq(rest);
        is_char_boundary_iff_not_is_continuation_byte(rest, 0);
        is_char_boundary_iff_not_is_continuation_byte(bytes, end);
    }
}

/// Without tokens there is nothing to measure.
pub proof fn lemma_metrics_without_tokens(metrics: TokenMetrics, hit: SearchHit)
    requires
        measures(metrics, hit, seq![]),
    ensures
        metrics.unique_tokens == 0,
        metrics.total_occurrences == 0,
        metrics.tightest_span == usize::MAX,
{
}

/// One more token adds the matches that it has in the text of the hit, in ASCII lower case, and one
/// token if it stands there at all. The text is that of the chunk, where there is one.
pub proof fn lemma_metrics_of_one_more_token(
    hit: SearchHit,
    text: Seq<char>,
    tokens: Seq<String>,
    token: String,
    fewer: TokenMetrics,
    more: TokenMetrics,
)
    requires
        hit.chunk_text matches Some(chunk) ==> text == chunk@,
        hit.chunk_text is None ==> text == hit.text@,
        measures(fewer, hit, tokens),
        measures(more, hit, tokens.push(token)),
        token@.len() > 0,
    ensures
        more.total_occurrences == fewer.total_occurrences + matches_from(
            encode_utf8(ascii_lowercase(text)),
            encode_utf8(token@),
            0,
        ).len(),
        more.unique_tokens == fewer.unique_tokens + if exists|at: int|
            0 <= at <= encode_utf8(ascii_lowercase(text)).len() - encode_utf8(token@).len()
                && #[trigger] encode_utf8(ascii_lowercase(text)).subrange(
                at,
                at + encode_utf8(token@).len(),
            ) == encode_utf8(token@) {
            1int
        } else {
            0int
        },
{
    let hay = encode_utf8(ascii_lowercase(text));
    let needle = encode_utf8(token@);
    let all = tokens.push(token);
    let m = matches_from(hay, needle, 0);
    assert(hay == haystack(hit));
    assert(all.drop_last() =~= tokens);
    assert(all.last() == token);
    lemma_count_agree(
        tokens.len(),
        |t: int| token_matches(hay, all[t]).len() > 0,
        |t: int| token_matches(hay, tokens[t]).len() > 0,
    );
    assert(token_matches(hay, all[tokens.len() as int]) == m);
    lemma_encoded_nonempty(token@);
    if m.len() > 0 {
        assert(m.contains(m[0]));
        lemma_match_rule(hay, needle, m[0]);
        assert(hay.subrange(m[0], m[0] + needle.len()) == needle);
    }
    if exists|at: int|
        0 <= at <= hay.len() - needle.len() && #[trigger] hay.subrange(at, at + needle.len())
            == needle {
        let at = choose|at: int|
            0 <= at <= hay.len() - needle.len() && #[trigger] hay.subrange(at, at + needle.len())
                == needle;
        lemma_matches_complete(hay, needle, 0, at);
    }
}

/// The encoding of a string that is not empty is not empty.
proof fn lemma_encoded_nonempty(s: Seq<char>)
    requires
        s.len() > 0,
    ensures
        encode_utf8(s).len() > 0,
{
    if encode_utf8(s).len() == 0 {
        encode_utf8_decode_utf8(s);
        encode_utf8_decode_utf8(Seq::<char>::empty());
        assert(encode_utf8(Seq::<char>::empty()).len() == 0);
        assert(encode_utf8(s) =~= encode_utf8(Seq::<char>::empty()));
    }
}

/// The positions of tokens are those where one of them is matched.
proof fn lemma_positions(hay: Seq<u8>, tokens: Seq<String>, p: int)
    ensures
        token_positions(hay, tokens).contains(p) <==> exists|t: int|
            0 <= t < tokens.len() && matches_from(
                hay,
                encode_utf8((#[trigger] tokens[t])@),
                0,
            ).contains(p),
    decreases tokens.len(),
{
    if tokens.len() > 0 {
        let rest = tokens.drop_last();
        let (a, b) = (token_positions(hay, rest), token_matches(hay, tokens.last()));
        lemma_positions(hay, rest, p);
        let last = tokens.len() - 1;
        assert(tokens[last] == tokens.last());
        if a.contains(p) {
            let k = choose|k: int| 0 <= k < a.len() && a[k] == p;
            assert((a + b)[k] == p);
            let t = choose|t: int|
                0 <= t < rest.len() && matches_from(
                    hay,
                    encode_utf8((#[trigger] rest[t])@),
                    0,
                ).contains(p);
            assert(tokens[t] == rest[t]);
        }
        if b.contains(p) {
            let k = choose|k: int| 0 <= k < b.len() && b[k] == p;
            assert((a + b)[a.len() + k] == p);
        }
        if (a + b).contains(p) {
            let k = choose|k: int| 0 <= k < (a + b).len() && (a + b)[k] == p;
            if k < a.len() {
                assert(a[k] == p);
            } else {
                assert(b[k - a.len()] == p);
                assert(b.contains(p));
            }
        }
        if exists|t: int|
            0 <= t < tokens.len() && matches_from(
                hay,
                encode_utf8((#[trigger] tokens[t])@),
                0,
            ).contains(p) {
            let t = choose|t: int|
                0 <= t < tokens.len() && matches_from(
                    hay,
                    encode_utf8((#[trigger] tokens[t])@),
                    0,
                ).contains(p);
            if t < last {
                assert(rest[t] == tokens[t]);
                assert(a.contains(p));
            } else {
                assert(b.contains(p));
            }
        }
    }
}

/// The span is the distance between two matches of tokens in the text of the hit, in ASCII lower
/// case, and no two lie further apart. Fewer than two matches have the greatest span there is.
pub proof fn lemma_metrics_span(
    hit: SearchHit,
    text: Seq<char>,
    tokens: Seq<String>,
    metrics: TokenMetrics,
)
    requires
        hit.chunk_text matches Some(chunk) ==> text == chunk@,
        hit.chunk_text is None ==> text == hit.text@,
        measures(metrics, hit, tokens),
    ensures
        metrics.total_occurrences < 2 ==> metrics.tightest_span == usize::MAX,
        metrics.total_occurrences >= 2 ==> {
            &&& forall|s: int, t: int, p: int, q: int|
                0 <= s < tokens.len() && 0 <= t < tokens.len() && #[trigger] matches_from(
                    encode_utf8(ascii_lowercase(text)),
                    encode_utf8(tokens[s]@),
                    0,
                ).contains(p) && #[trigger] matches_from(
                    encode_utf8(ascii_lowercase(text)),
                    encode_utf8(tokens[t]@),
                    0,
                ).contains(q) ==> q - p <= metrics.tightest_span
            &&& exists|s: int, t: int, p: int, q: int|
                0 <= s < tokens.len() && 0 <= t < tokens.len() && #[trigger] matches_from(
                    encode_utf8(ascii_lowercase(text)),
                    encode_utf8(tokens[s]@),
                    0,
                ).contains(p) && #[trigger] matches_from(
                    encode_utf8(ascii_lowercase(text)),
                    encode_utf8(tokens[t]@),
                    0,
                ).contains(q) && q - p == metrics.tightest_span
        },
{
    let hay = encode_utf8(ascii_lowercase(text));
    assert(hay == haystack(hit));
    let positions = token_positions(hay, tokens);
    if positions.len() >= 2 {
        positions.max_ensures();
        positions.min_ensures();
        assert forall|s: int, t: int, p: int, q: int|
            0 <= s < tokens.len() && 0 <= t < tokens.len() && #[trigger] matches_from(
                hay,
                encode_utf8(tokens[s]@),
                0,
            ).contains(p) && #[trigger] matches_from(
                hay,
                encode_utf8(tokens[t]@),
                0,
            ).contains(q) implies q - p <= metrics.tightest_span by {
            lemma_positions(hay, tokens, p);
            lemma_positions(hay, tokens, q);
            let a = choose|a: int| 0 <= a < positions.len() && positions[a] == p;
            let b = choose|b: int| 0 <= b < positions.len() && positions[b] == q;
            assert(positions.min() <= positions[a] && positions[b] <= positions.max());
        }
        lemma_positions(hay, tokens, positions.min());
        lemma_positions(hay, tokens, positions.max());
        let s = choose|s: int|
            0 <= s < tokens.len() && matches_from(
                hay,
                encode_utf8((#[trigger] tokens[s])@),
                0,
            ).contains(positions.min());
        let t = choose|t: int|
            0 <= t < tokens.len() && matches_from(
                hay,
                encode_utf8((#[trigger] tokens[t])@),
                0,
            ).contains(positions.max());
        let (p, q) = (positions.min(), positions.max());
        assert(matches_from(hay, encode_utf8(tokens[s]@), 0).contains(p) && matches_from(
            hay,
            encode_utf8(tokens[t]@),
            0,
        ).contains(q) && q - p == metrics.tightest_span);
    }
}

/// In a reordered list more tokens found come first, then more occurrences, then the tighter span.
pub proof fn lemma_better_metrics_first(
    before: Seq<SearchHit>,
    tokens: Seq<String>,
    after: Seq<SearchHit>,
    k: int,
    l: int,
    a: TokenMetrics,
    b: TokenMetrics,
)
    requires
        reordered(before, tokens, after),
        before.len() <= usize::MAX,
        0 <= k < l < after.len(),
        measures(a, after[k], tokens),
        measures(b, after[l], tokens),
    ensures
        a.unique_tokens >= b.unique_tokens,
        a.unique_tokens == b.unique_tokens ==> a.total_occurrences >= b.total_occurrences,
        a.unique_tokens == b.unique_tokens && a.total_occurrences == b.total_occurrences
            ==> a.tightest_span <= b.tightest_span,
{
    lemma_reordered_is_sorted(before, tokens, after, k, l);
}

/// Reordering lists every hit once, with its place as its new rank and nothing else changed. Of two
/// hits the one with more tokens found comes first, then the one with more occurrences, then the
/// one with the tighter span, then the one that was ranked better, then the one given earlier.
pub proof fn lemma_reordered_by_metrics(
    before: Seq<SearchHit>,
    tokens: Seq<String>,
    after: Seq<SearchHit>,
    metrics: Seq<TokenMetrics>,
)
    requires
        reordered(before, tokens, after),
        before.len() <= usize::MAX,
        metrics.len() == before.len(),
        forall|i: int|
            0 <= i < before.len() ==> measures(#[trigger] metrics[i], before[i], tokens),
    ensures
        after.len() == before.len(),
        exists|source: Seq<int>|
            {
                &&& #[trigger] source.no_duplicates()
                &&& source.len() == before.len()
                &&& forall|k: int|
                    0 <= k < source.len() ==> 0 <= #[trigger] source[k] < before.len()
                &&& forall|k: int|
                    0 <= k < source.len() ==> #[trigger] after[k] == (SearchHit {
                        rank: (k + 1) as usize,
                        ..before[source[k]]
                    })
                &&& forall|k: int, l: int|
                    0 <= k < l < source.len() ==> {
                        let (i, j) = (#[trigger] source[k], #[trigger] source[l]);
                        let (a, b) = (metrics[i], metrics[j]);
                        ||| a.unique_tokens > b.unique_tokens
                        ||| a.unique_tokens == b.unique_tokens && a.total_occurrences
                            > b.total_occurrences
                        ||| a.unique_tokens == b.unique_tokens && a.total_occurrences
                            == b.total_occurrences && a.tightest_span < b.tightest_span
                        ||| a == b && before[i].rank < before[j].rank
                        ||| a == b && before[i].rank == before[j].rank && i < j
                    }
            },
{
    let n = before.len();
    let order = match_order(before, tokens);
    lemma_match_order(before, tokens);
    lemma_places(n, order);
    let source = Seq::new(
        n,
        |k: int| choose|i: int| 0 <= i < n && #[trigger] place(n, order, i) == k,
    );
    assert forall|k: int| 0 <= k < n implies 0 <= #[trigger] source[k] < n && place(
        n,
        order,
        source[k],
    ) == k by {
        assert(is_taken(n, order, k));
    }
    assert forall|k: int| 0 <= k < n implies #[trigger] after[k] == (SearchHit {
        rank: (k + 1) as usize,
        ..before[source[k]]
    }) by {
        assert(match_place(before, tokens, source[k]) == k);
        assert(before[source[k]] == before[source[k]]);
    }
    assert forall|k: int, l: int| 0 <= k < l < n implies {
        let (i, j) = (#[trigger] source[k], #[trigger] source[l]);
        let (a, b) = (metrics[i], metrics[j]);
        ||| a.unique_tokens > b.unique_tokens
        ||| a.unique_tokens == b.unique_tokens && a.total_occurrences > b.total_occurrences
        ||| a.unique_tokens == b.unique_tokens && a.total_occurrences == b.total_occurrences
            && a.tightest_span < b.tightest_span
        ||| a == b && before[i].rank < before[j].rank
        ||| a == b && before[i].rank == before[j].rank && i < j
    } by {
        let (i, j) = (source[k], source[l]);
        assert(place(n, order, i) < place(n, order, j));
        assert(order(i, j));
        assert(measures(metrics[i], before[i], tokens) && measures(metrics[j], before[j], tokens));
    }
    assert(source.no_duplicates()) by {
        assert forall|k: int, l: int|
            0 <= k < source.len() && 0 <= l < source.len() && k != l implies source[k]
            != source[l] by {
            assert(place(n, order, source[k]) == k && place(n, order, source[l]) == l);
        }
    }
}

} // verus!
