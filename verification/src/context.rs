//! The context that a search hands to a language model: a bounded selection of hits, diverse in
//! the documents that they come from, rendered in the order in which the hits were given.
use vstd::prelude::*;
use vstd::utf8::{encode_utf8, encode_utf8_decode_utf8};

use crate::numeral::{decimal, push_decimal};
use crate::order::{
    all_covered, all_indices, count, every, holds, in_order, lemma_count_agree,
    lemma_count_complement, lemma_count_disjoint, lemma_count_every, lemma_count_less,
    lemma_count_listed, lemma_count_none, lemma_place, lemma_places_ascend, lemma_places_taken,
    lemma_select, lemma_select_agree, lemma_select_every, place_among, select, sort_indices,
    strict_total, IndexOrder,
};
use crate::text::{
    ascii_lower_char, ascii_lowercase, before_hash, bytes_equal, bytes_less, bytes_precede,
    lemma_ascii_lowercase, lemma_before_hash, lemma_bytes_less_strict, lemma_bytes_less_transitive,
    lowercase_bytes_before_hash,
};
use crate::types::SearchHit;

verus! {

/// The most hits that a context holds.
pub const MAX_CONTEXT_HITS: usize = 24;

/// The URI of the document that a hit comes from: the part before `#`, without regard to the case
/// of ASCII letters.
pub open spec fn base_uri(uri: Seq<char>) -> Seq<char> {
    ascii_lowercase(before_hash(uri))
}

/// The bytes of the base URI. Documents are told apart and ordered by them.
pub open spec fn document_key(hit: SearchHit) -> Seq<u8> {
    encode_utf8(base_uri(hit.uri@))
}

/// The number of matches in a document's hits, where a hit counts for one match at least.
pub open spec fn total_matches(hits: Seq<SearchHit>, key: Seq<u8>) -> nat
    decreases hits.len(),
{
    if hits.len() == 0 {
        0
    } else if document_key(hits.last()) == key {
        total_matches(hits.drop_last(), key) + if hits.last().matches == 0 {
            1nat
        } else {
            hits.last().matches as nat
        }
    } else {
        total_matches(hits.drop_last(), key)
    }
}

/// The least rank among a document's hits.
pub open spec fn best_rank(hits: Seq<SearchHit>, key: Seq<u8>) -> usize
    decreases hits.len(),
{
    if hits.len() == 0 {
        usize::MAX
    } else {
        let rest = best_rank(hits.drop_last(), key);
        if document_key(hits.last()) == key && hits.last().rank < rest {
            hits.last().rank
        } else {
            rest
        }
    }
}

/// Whether document `a` is taken before document `b`: the one with the better rank first, then
/// the one with more matches, then the one whose URI comes first.
pub open spec fn document_before(hits: Seq<SearchHit>, a: Seq<u8>, b: Seq<u8>) -> bool {
    ||| best_rank(hits, a) < best_rank(hits, b)
    ||| best_rank(hits, a) == best_rank(hits, b) && total_matches(hits, a) > total_matches(hits, b)
    ||| best_rank(hits, a) == best_rank(hits, b) && total_matches(hits, a) == total_matches(hits, b)
        && bytes_less(a, b)
}

/// Whether hit `i` comes before hit `j` by rank, or by position where the ranks are equal.
pub open spec fn rank_before(hits: Seq<SearchHit>, i: int, j: int) -> bool {
    hits[i].rank < hits[j].rank || (hits[i].rank == hits[j].rank && i < j)
}

/// Whether hit `i` stands for its document: no hit of the same document has a better rank, and none
/// of the same rank was given earlier.
pub open spec fn stands_for(hits: Seq<SearchHit>, i: int) -> bool {
    forall|j: int|
        0 <= j < hits.len() && document_key(#[trigger] hits[j]) == document_key(hits[i])
            ==> !rank_before(hits, j, i)
}

/// How many documents are taken before the one of hit `i`.
pub open spec fn documents_ahead(hits: Seq<SearchHit>, i: int) -> nat {
    count(
        hits.len(),
        |j: int|
            stands_for(hits, j) && document_before(
                hits,
                document_key(hits[j]),
                document_key(hits[i]),
            ),
    )
}

/// Whether hit `i` is in the context because it stands for its document.
pub open spec fn represents(hits: Seq<SearchHit>, i: int) -> bool {
    stands_for(hits, i) && documents_ahead(hits, i) < MAX_CONTEXT_HITS
}

/// How many hits that represent no document come before hit `i` by rank.
pub open spec fn hits_ahead(hits: Seq<SearchHit>, i: int) -> nat {
    count(hits.len(), |j: int| !represents(hits, j) && rank_before(hits, j, i))
}

/// How many hits represent their documents in the context.
pub open spec fn representatives(hits: Seq<SearchHit>) -> nat {
    count(hits.len(), |i: int| represents(hits, i))
}

/// Whether hit `i` fills a place of the context that the documents leave free.
pub open spec fn fills(hits: Seq<SearchHit>, i: int) -> bool {
    !represents(hits, i) && hits_ahead(hits, i) + representatives(hits) < MAX_CONTEXT_HITS
}

/// Whether hit `i` is in the context.
pub open spec fn in_context(hits: Seq<SearchHit>, i: int) -> bool {
    represents(hits, i) || fills(hits, i)
}

/// The hits of the context, in the order in which they were given.
pub open spec fn context_hits(hits: Seq<SearchHit>) -> Seq<int> {
    select(hits.len(), |i: int| in_context(hits, i))
}

/// A URI without the scheme `mv2://`.
pub open spec fn display_uri(uri: Seq<char>) -> Seq<char> {
    if "mv2://"@.is_prefix_of(uri) {
        uri.skip("mv2://"@.len() as int)
    } else {
        uri
    }
}

/// The title of a hit, or its URI if it has none.
pub open spec fn heading(hit: SearchHit) -> Seq<char> {
    match hit.title {
        Some(title) => title@,
        None => display_uri(hit.uri@),
    }
}

/// A hit as it stands in the context.
pub open spec fn rendered(hit: SearchHit) -> Seq<char> {
    "### ["@ + decimal(hit.rank as nat) + "] "@ + display_uri(hit.uri@) + " \u{2014} "@ + heading(
        hit,
    ) + "\n"@ + hit.text@ + "\n(matches: "@ + decimal(hit.matches as nat) + ")"@
}

/// Strings with a separator between each two of them.
pub open spec fn joined(parts: Seq<Seq<char>>, separator: Seq<char>) -> Seq<char>
    decreases parts.len(),
{
    if parts.len() == 0 {
        seq![]
    } else if parts.len() == 1 {
        parts[0]
    } else {
        joined(parts.drop_last(), separator) + separator + parts.last()
    }
}

/// The text of the context.
pub open spec fn context_text(hits: Seq<SearchHit>) -> Seq<char> {
    joined(context_hits(hits).map_values(|i: int| rendered(hits[i])), "\n\n"@)
}

/// What is known of one document's hits.
pub struct GroupSummary {
    /// The places of the hits, the best ranked one first.
    pub indices: Vec<usize>,
    pub total_matches: usize,
    pub best_rank: usize,
}

impl Default for GroupSummary {
    fn default() -> (res: Self)
        ensures
            res.indices@ == Seq::<usize>::empty(),
            res.total_matches == 0,
            res.best_rank == usize::MAX,
    {
        GroupSummary { indices: Vec::new(), total_matches: 0, best_rank: usize::MAX }
    }
}

impl GroupSummary {
    /// Takes one more hit into account.
    fn absorb(&mut self, index: usize, hit: &SearchHit)
        requires
            old(self).total_matches + (if hit.matches == 0 {
                1int
            } else {
                hit.matches as int
            }) <= usize::MAX,
        ensures
            final(self).indices@ == (if hit.rank < old(self).best_rank {
                old(self).indices@.insert(0, index)
            } else {
                old(self).indices@.push(index)
            }),
            final(self).total_matches == old(self).total_matches + (if hit.matches == 0 {
                1int
            } else {
                hit.matches as int
            }),
            final(self).best_rank == (if hit.rank < old(self).best_rank {
                hit.rank
            } else {
                old(self).best_rank
            }),
    {
        self.total_matches = self.total_matches + if hit.matches == 0 {
            1
        } else {
            hit.matches
        };
        if hit.rank < self.best_rank {
            self.indices.insert(0, index);
            self.best_rank = hit.rank;
        } else {
            self.indices.push(index);
        }
    }
}

/// A document among the hits.
struct Group {
    key: Vec<u8>,
    summary: GroupSummary,
}

/// Whether a group sums up the hits of a document.
spec fn sums_up(group: Group, hits: Seq<SearchHit>) -> bool {
    &&& group.summary.indices@.len() > 0
    &&& group.summary.indices@[0] < hits.len()
    &&& document_key(hits[group.summary.indices@[0] as int]) == group.key@
    &&& stands_for(hits, group.summary.indices@[0] as int)
    &&& hits[group.summary.indices@[0] as int].rank == group.summary.best_rank
    &&& group.summary.total_matches == total_matches(hits, group.key@)
    &&& group.summary.best_rank == best_rank(hits, group.key@)
}

/// Whether no two groups have the same key.
spec fn distinct_keys(groups: Seq<Group>) -> bool {
    forall|a: int, b: int|
        0 <= a < b < groups.len() ==> #[trigger] groups[a].key@ != #[trigger] groups[b].key@
}

/// Whether every hit's document has a group.
spec fn all_grouped(groups: Seq<Group>, hits: Seq<SearchHit>) -> bool {
    forall|i: int|
        0 <= i < hits.len() ==> exists|a: int|
            0 <= a < groups.len() && groups[a].key@ == document_key(#[trigger] hits[i])
}

/// A longer list of hits has at least as many matches of a document.
proof fn lemma_total_matches_prefix(hits: Seq<SearchHit>, n: int, key: Seq<u8>)
    requires
        0 <= n <= hits.len(),
    ensures
        total_matches(hits.take(n), key) <= total_matches(hits, key),
    decreases hits.len(),
{
    if n < hits.len() {
        lemma_total_matches_prefix(hits.drop_last(), n, key);
        assert(hits.drop_last().take(n) =~= hits.take(n));
    } else {
        assert(hits.take(n) =~= hits);
    }
}

/// A document without hits has no matches, and the rank that is worst of all.
proof fn lemma_no_hits(hits: Seq<SearchHit>, key: Seq<u8>)
    requires
        forall|i: int| 0 <= i < hits.len() ==> document_key(#[trigger] hits[i]) != key,
    ensures
        total_matches(hits, key) == 0,
        best_rank(hits, key) == usize::MAX,
    decreases hits.len(),
{
    if hits.len() > 0 {
        assert(document_key(hits[hits.len() - 1]) != key);
        assert forall|i: int| 0 <= i < hits.drop_last().len() implies document_key(
            #[trigger] hits.drop_last()[i],
        ) != key by {
            assert(document_key(hits[i]) != key);
        }
        lemma_no_hits(hits.drop_last(), key);
    }
}

/// Groups the hits by document.
fn group_hits(hits: &[SearchHit]) -> (groups: Vec<Group>)
    requires
        forall|i: int|
            0 <= i < hits@.len() ==> total_matches(hits@, document_key(#[trigger] hits@[i]))
                <= usize::MAX,
    ensures
        forall|a: int| 0 <= a < groups@.len() ==> sums_up(#[trigger] groups@[a], hits@),
        distinct_keys(groups@),
        all_grouped(groups@, hits@),
{
    let mut groups: Vec<Group> = Vec::new();
    let mut i: usize = 0;
    while i < hits.len()
        invariant
            i <= hits@.len(),
            forall|i: int|
                0 <= i < hits@.len() ==> total_matches(hits@, document_key(#[trigger] hits@[i]))
                    <= usize::MAX,
            forall|a: int|
                0 <= a < groups@.len() ==> sums_up(#[trigger] groups@[a], hits@.take(i as int)),
            distinct_keys(groups@),
            all_grouped(groups@, hits@.take(i as int)),
        decreases hits@.len() - i,
    {
        let hit = &hits[i];
        let key = lowercase_bytes_before_hash(hit.uri.as_str());
        let ghost now = hits@.take(i as int);
        let ghost next = hits@.take(i + 1);
        let ghost old_groups = groups@;
        proof {
            assert(next.drop_last() =~= now);
            assert(next.last() == *hit);
            lemma_total_matches_prefix(hits@, i + 1, key@);
            assert(key@ == document_key(hits@[i as int]));
        }
        let mut g: usize = 0;
        while g < groups.len() && !bytes_equal(&groups[g].key, &key)
            invariant
                g <= groups@.len(),
                forall|a: int| 0 <= a < g ==> (#[trigger] groups@[a]).key@ != key@,
            decreases groups@.len() - g,
        {
            g += 1;
        }
        if g < groups.len() {
            let group = &mut groups[g];
            group.summary.absorb(i, hit);
        } else {
            let mut summary = GroupSummary::default();
            proof {
                assert forall|k: int| 0 <= k < now.len() implies document_key(#[trigger] now[k])
                    != key@ by {
                    let a = choose|a: int|
                        0 <= a < old_groups.len() && old_groups[a].key@ == document_key(now[k]);
                    assert(old_groups[a].key@ != key@);
                }
                lemma_no_hits(now, key@);
            }
            summary.absorb(i, hit);
            groups.push(Group { key, summary });
        }
        proof {
            assert forall|a: int| 0 <= a < groups@.len() implies sums_up(
                #[trigger] groups@[a],
                next,
            ) by {
                let best = groups@[a].summary.indices@[0] as int;
                if a < old_groups.len() {
                    let old_best = old_groups[a].summary.indices@[0] as int;
                    assert(sums_up(old_groups[a], now));
                    assert(groups@[a].key@ == old_groups[a].key@);
                    assert(next[old_best] == now[old_best]);
                    if a != g {
                        assert(groups@[a] == old_groups[a]);
                        if g < old_groups.len() {
                            assert(old_groups[a].key@ != old_groups[g as int].key@);
                        } else {
                            assert(old_groups[a].key@ != key@);
                        }
                    }
                    assert forall|j: int|
                        0 <= j < next.len() && document_key(#[trigger] next[j]) == document_key(
                            next[best],
                        ) implies !rank_before(next, j, best) by {
                        if j < i {
                            assert(next[j] == now[j]);
                            assert(!rank_before(now, j, old_best));
                        }
                    }
                } else {
                    assert forall|j: int|
                        0 <= j < next.len() && document_key(#[trigger] next[j]) == document_key(
                            next[best],
                        ) implies !rank_before(next, j, best) by {
                        if j < i {
                            assert(next[j] == now[j]);
                        }
                    }
                }
            }
            assert forall|a: int, b: int|
                0 <= a < b < groups@.len() implies #[trigger] groups@[a].key@
                != #[trigger] groups@[b].key@ by {
                assert(groups@[a].key@ == old_groups[a].key@);
                if b < old_groups.len() {
                    assert(groups@[b].key@ == old_groups[b].key@);
                }
            }
            assert forall|k: int| 0 <= k < next.len() implies exists|a: int|
                0 <= a < groups@.len() && groups@[a].key@ == document_key(#[trigger] next[k]) by {
                if k < i {
                    assert(next[k] == now[k]);
                    let a = choose|a: int|
                        0 <= a < old_groups.len() && old_groups[a].key@ == document_key(now[k]);
                    assert(groups@[a].key@ == old_groups[a].key@);
                } else {
                    assert(groups@[g as int].key@ == document_key(next[k]));
                }
            }
        }
        i += 1;
    }
    assert(hits@.take(i as int) =~= hits@);
    groups
}

/// The order in which documents are taken.
struct GroupOrder<'a> {
    groups: &'a Vec<Group>,
}

impl<'a> IndexOrder for GroupOrder<'a> {
    closed spec fn covers(&self, i: int) -> bool {
        0 <= i < self.groups@.len() && distinct_keys(self.groups@)
    }

    closed spec fn before(&self, i: int, j: int) -> bool {
        let a = self.groups@[i];
        let b = self.groups@[j];
        ||| a.summary.best_rank < b.summary.best_rank
        ||| a.summary.best_rank == b.summary.best_rank && a.summary.total_matches
            > b.summary.total_matches
        ||| a.summary.best_rank == b.summary.best_rank && a.summary.total_matches
            == b.summary.total_matches && bytes_less(a.key@, b.key@)
    }

    proof fn lemma_strict(&self, i: int, j: int) {
        let a = self.groups@[i].key@;
        let b = self.groups@[j].key@;
        lemma_bytes_less_strict(a, a);
        lemma_bytes_less_strict(a, b);
    }

    proof fn lemma_transitive(&self, i: int, j: int, k: int) {
        let a = self.groups@[i].key@;
        let b = self.groups@[j].key@;
        let c = self.groups@[k].key@;
        if bytes_less(a, b) && bytes_less(b, c) {
            lemma_bytes_less_transitive(a, b, c);
        }
    }

    fn precedes(&self, i: usize, j: usize) -> (b: bool) {
        let a = &self.groups[i];
        let b = &self.groups[j];
        if a.summary.best_rank != b.summary.best_rank {
            a.summary.best_rank < b.summary.best_rank
        } else if a.summary.total_matches != b.summary.total_matches {
            a.summary.total_matches > b.summary.total_matches
        } else {
            bytes_precede(&a.key, &b.key)
        }
    }
}

/// The order of hits by rank, and by position where ranks are equal.
struct RankOrder<'a> {
    hits: &'a [SearchHit],
}

impl<'a> IndexOrder for RankOrder<'a> {
    closed spec fn covers(&self, i: int) -> bool {
        0 <= i < self.hits@.len()
    }

    closed spec fn before(&self, i: int, j: int) -> bool {
        rank_before(self.hits@, i, j)
    }

    proof fn lemma_strict(&self, i: int, j: int) {
    }

    proof fn lemma_transitive(&self, i: int, j: int, k: int) {
    }

    fn precedes(&self, i: usize, j: usize) -> (b: bool) {
        let a: usize = self.hits[i].rank;
        let b: usize = self.hits[j].rank;
        a < b || (a == b && i < j)
    }
}

/// Picks the best hit of each document, as many documents as the context has places.
fn pick_representatives(hits: &[SearchHit]) -> (picked: Vec<usize>)
    requires
        forall|i: int|
            0 <= i < hits@.len() ==> total_matches(hits@, document_key(#[trigger] hits@[i]))
                <= usize::MAX,
    ensures
        forall|x: usize| #[trigger]
            picked@.contains(x) <==> (x < hits@.len() && represents(hits@, x as int)),
        picked@.no_duplicates(),
        picked@.len() == representatives(hits@),
        picked@.len() <= MAX_CONTEXT_HITS,
{
    let groups = group_hits(hits);
    let order = GroupOrder { groups: &groups };
    let sorted = sort_indices(all_indices(groups.len()), &order);
    let ghost bests: Seq<int> = Seq::new(
        sorted@.len(),
        |k: int| groups@[sorted@[k] as int].summary.indices@[0] as int,
    );
    let mut picked: Vec<usize> = Vec::new();
    let mut k: usize = 0;
    proof {
        assert forall|a: int| 0 <= a < sorted@.len() implies #[trigger] sorted@[a]
            < groups@.len() by {
            assert(order.covers(sorted@[a] as int));
        }
    }
    while k < sorted.len() && picked.len() < MAX_CONTEXT_HITS
        invariant
            k <= sorted@.len(),
            k == picked@.len(),
            picked@.len() <= MAX_CONTEXT_HITS,
            bests.len() == sorted@.len(),
            forall|a: int| 0 <= a < sorted@.len() ==> #[trigger] sorted@[a] < groups@.len(),
            forall|a: int| 0 <= a < groups@.len() ==> sums_up(#[trigger] groups@[a], hits@),
            forall|a: int|
                0 <= a < sorted@.len() ==> bests[a]
                    == groups@[#[trigger] sorted@[a] as int].summary.indices@[0],
            forall|a: int| 0 <= a < k ==> #[trigger] picked@[a] == bests[a],
        decreases sorted@.len() - k,
    {
        let group = &groups[sorted[k]];
        assert(sums_up(groups@[sorted@[k as int] as int], hits@));
        picked.push(group.summary.indices[0]);
        k += 1;
    }
    proof {
        lemma_best_hits(hits@, groups, sorted@, bests);
        let n = hits@.len();
        assert forall|x: usize| #[trigger]
            picked@.contains(x) <==> (x < n && represents(hits@, x as int)) by {
            if picked@.contains(x) {
                let a = choose|a: int| 0 <= a < picked@.len() && picked@[a] == x;
                assert(bests[a] == x);
            }
            if x < n && represents(hits@, x as int) {
                assert(bests.contains(x as int));
                let a = choose|a: int| 0 <= a < bests.len() && bests[a] == x as int;
                assert(documents_ahead(hits@, bests[a]) == a);
                assert(picked@[a] == x);
            }
        }
        assert forall|a: int, b: int|
            0 <= a < picked@.len() && 0 <= b < picked@.len() && a != b implies picked@[a]
            != picked@[b] by {
            assert(documents_ahead(hits@, bests[a]) == a);
            assert(documents_ahead(hits@, bests[b]) == b);
        }
        assert(hits.len() == hits@.len());
        lemma_listed(hits@.len(), |i: int| represents(hits@, i), picked@);
    }
    picked
}

/// A list without repetitions is as long as the indices that it holds are many.
proof fn lemma_listed(n: nat, pred: spec_fn(int) -> bool, s: Seq<usize>)
    requires
        s.no_duplicates(),
        n <= usize::MAX,
        forall|x: usize| #[trigger] s.contains(x) <==> (x < n && pred(x as int)),
    ensures
        count(n, pred) == s.len(),
{
    let t = s.map_values(|x: usize| x as int);
    assert forall|x: int| #[trigger] t.contains(x) <==> (0 <= x < n && pred(x)) by {
        if t.contains(x) {
            let a = choose|a: int| 0 <= a < t.len() && t[a] == x;
            assert(s.contains(s[a]));
        }
        if 0 <= x < n && pred(x) {
            assert(s.contains(x as usize));
            let a = choose|a: int| 0 <= a < s.len() && s[a] == x as usize;
            assert(t[a] == x);
        }
    }
    lemma_count_listed(n, pred, t);
}

/// The best hits of the sorted groups are the hits that stand for a document, each behind those of
/// the documents that are taken before its own.
proof fn lemma_best_hits(
    hits: Seq<SearchHit>,
    groups: Vec<Group>,
    sorted: Seq<usize>,
    bests: Seq<int>,
)
    requires
        forall|a: int| 0 <= a < groups@.len() ==> sums_up(#[trigger] groups@[a], hits),
        distinct_keys(groups@),
        all_grouped(groups@, hits),
        all_covered(&GroupOrder { groups: &groups }, sorted),
        in_order(&GroupOrder { groups: &groups }, sorted),
        forall|x: usize| #[trigger] sorted.contains(x) <==> x < groups@.len(),
        bests.len() == sorted.len(),
        forall|k: int|
            0 <= k < sorted.len() ==> bests[k]
                == groups@[#[trigger] sorted[k] as int].summary.indices@[0],
    ensures
        forall|x: int| #[trigger]
            bests.contains(x) <==> (0 <= x < hits.len() && stands_for(hits, x)),
        forall|k: int|
            0 <= k < bests.len() ==> 0 <= #[trigger] bests[k] < hits.len() && stands_for(
                hits,
                bests[k],
            ) && documents_ahead(hits, bests[k]) == k,
{
    let order = GroupOrder { groups: &groups };
    let member = |i: int| stands_for(hits, i);
    let before = |i: int, j: int|
        document_before(hits, document_key(hits[i]), document_key(hits[j]));
    assert forall|k: int| 0 <= k < bests.len() implies sums_up(
        groups@[#[trigger] sorted[k] as int],
        hits,
    ) && document_key(hits[bests[k]]) == groups@[sorted[k] as int].key@ by {
        assert(order.covers(sorted[k] as int));
    }
    assert forall|x: int| #[trigger] bests.contains(x) <==> (0 <= x < hits.len() && member(
        x,
    )) by {
        if bests.contains(x) {
            let k = choose|k: int| 0 <= k < bests.len() && bests[k] == x;
            assert(sums_up(groups@[sorted[k] as int], hits));
        }
        if 0 <= x < hits.len() && stands_for(hits, x) {
            assert(document_key(hits[x]) == document_key(hits[x]));
            let a = choose|a: int|
                0 <= a < groups@.len() && groups@[a].key@ == document_key(hits[x]);
            assert(sums_up(groups@[a], hits));
            assert(groups@.len() == groups.len());
            assert(sorted.contains(a as usize));
            let k = choose|k: int| 0 <= k < sorted.len() && sorted[k] == a as usize;
            assert(bests[k] == x) by {
                let f = groups@[a].summary.indices@[0] as int;
                assert(sorted[k] as int == a);
                assert(document_key(hits[f]) == document_key(hits[x]));
                assert(!rank_before(hits, f, x));
                assert(!rank_before(hits, x, f));
            }
        }
    }
    assert forall|a: int, b: int| 0 <= a < b < bests.len() implies #[trigger] before(
        bests[a],
        bests[b],
    ) && !before(bests[b], bests[a]) by {
        assert(order.before(sorted[a] as int, sorted[b] as int));
        order.lemma_strict(sorted[a] as int, sorted[b] as int);
        order.lemma_strict(sorted[b] as int, sorted[a] as int);
    }
    assert forall|a: int| 0 <= a < bests.len() implies !before(
        #[trigger] bests[a],
        bests[a],
    ) by {
        order.lemma_strict(sorted[a] as int, sorted[a] as int);
    }
    assert forall|k: int| 0 <= k < bests.len() implies 0 <= #[trigger] bests[k] < hits.len()
        && stands_for(hits, bests[k]) && documents_ahead(hits, bests[k]) == k by {
        assert(bests.contains(bests[k]));
        lemma_place(hits.len(), member, before, bests, k);
        lemma_count_agree(
            hits.len(),
            |j: int| member(j) && before(j, bests[k]),
            |j: int|
                stands_for(hits, j) && document_before(
                    hits,
                    document_key(hits[j]),
                    document_key(hits[bests[k]]),
                ),
        );
    }
}

/// Picks the hits for the places that the documents leave free, the better ranked first.
fn pick_fillers(hits: &[SearchHit], representatives: &Vec<usize>) -> (picked: Vec<usize>)
    requires
        forall|x: usize| #[trigger]
            representatives@.contains(x) <==> (x < hits@.len() && represents(hits@, x as int)),
        representatives@.len() == self::representatives(hits@),
        representatives@.len() <= MAX_CONTEXT_HITS,
    ensures
        forall|x: usize| #[trigger]
            picked@.contains(x) <==> (x < hits@.len() && fills(hits@, x as int)),
{
    let mut rest: Vec<usize> = Vec::new();
    let mut i: usize = 0;
    while i < hits.len()
        invariant
            i <= hits@.len(),
            forall|x: usize| #[trigger]
                representatives@.contains(x) <==> (x < hits@.len() && represents(
                    hits@,
                    x as int,
                )),
            forall|k: int|
                0 <= k < rest@.len() ==> #[trigger] rest@[k] < i && !represents(
                    hits@,
                    rest@[k] as int,
                ),
            forall|a: int, b: int|
                0 <= a < b < rest@.len() ==> #[trigger] rest@[a] < #[trigger] rest@[b],
            forall|x: int|
                0 <= x < i && !represents(hits@, x) ==> #[trigger] rest@.contains(x as usize),
        decreases hits@.len() - i,
    {
        let ghost before = rest@;
        if !holds(representatives, i) {
            rest.push(i);
        }
        proof {
            assert forall|x: int|
                0 <= x < i + 1 && !represents(hits@, x) implies #[trigger] rest@.contains(
                x as usize,
            ) by {
                if x < i {
                    assert(before.contains(x as usize));
                    let k = choose|k: int| 0 <= k < before.len() && before[k] == x as usize;
                    assert(rest@[k] == x as usize);
                } else {
                    assert(rest@[before.len() as int] == x as usize);
                }
            }
        }
        i += 1;
    }
    let order = RankOrder { hits };
    let ghost unsorted = rest@;
    let sorted = sort_indices(rest, &order);
    let ghost ahead: Seq<int> = sorted@.map_values(|x: usize| x as int);
    proof {
        assert forall|x: int| #[trigger] ahead.contains(x) <==> (0 <= x < hits@.len()
            && !represents(hits@, x)) by {
            if ahead.contains(x) {
                let a = choose|a: int| 0 <= a < ahead.len() && ahead[a] == x;
                assert(sorted@.contains(sorted@[a]));
                assert(unsorted.contains(sorted@[a]));
            }
            if 0 <= x < hits@.len() && !represents(hits@, x) {
                assert(unsorted.contains(x as usize));
                assert(sorted@.contains(x as usize));
                let a = choose|a: int| 0 <= a < sorted@.len() && sorted@[a] == x as usize;
                assert(ahead[a] == x);
            }
        }
        let member = |j: int| !represents(hits@, j);
        let before = |i: int, j: int| rank_before(hits@, i, j);
        assert forall|a: int, b: int| 0 <= a < b < ahead.len() implies #[trigger] before(
            ahead[a],
            ahead[b],
        ) && !before(ahead[b], ahead[a]) by {
            assert(order.before(sorted@[a] as int, sorted@[b] as int));
        }
        assert forall|k: int| 0 <= k < ahead.len() implies hits_ahead(
            hits@,
            #[trigger] ahead[k],
        ) == k by {
            lemma_place(hits@.len(), member, before, ahead, k);
            lemma_count_agree(
                hits@.len(),
                |j: int| member(j) && before(j, ahead[k]),
                |j: int| !represents(hits@, j) && rank_before(hits@, j, ahead[k]),
            );
        }
    }
    let free: usize = MAX_CONTEXT_HITS - representatives.len();
    let mut picked: Vec<usize> = Vec::new();
    let mut k: usize = 0;
    while k < sorted.len() && k < free
        invariant
            k <= sorted@.len(),
            k <= free,
            picked@ == sorted@.take(k as int),
        decreases sorted@.len() - k,
    {
        picked.push(sorted[k]);
        k += 1;
        assert(picked@ =~= sorted@.take(k as int));
    }
    proof {
        assert forall|x: usize| #[trigger]
            picked@.contains(x) <==> (x < hits@.len() && fills(hits@, x as int)) by {
            if picked@.contains(x) {
                let a = choose|a: int| 0 <= a < picked@.len() && picked@[a] == x;
                assert(ahead[a] == x);
                assert(ahead.contains(x as int));
                assert(hits_ahead(hits@, ahead[a]) == a);
            }
            if x < hits@.len() && fills(hits@, x as int) {
                assert(ahead.contains(x as int));
                let a = choose|a: int| 0 <= a < ahead.len() && ahead[a] == x as int;
                assert(hits_ahead(hits@, ahead[a]) == a);
                assert(picked@[a] == x);
            }
        }
    }
    picked
}

/// A URI without the scheme `mv2://`.
fn without_scheme<'a>(uri: &'a str) -> (res: &'a str)
    ensures
        res@ == display_uri(uri@),
{
    let scheme = "mv2://";
    let n: usize = scheme.unicode_len();
    let total: usize = uri.unicode_len();
    if total < n {
        return uri;
    }
    let mut i: usize = 0;
    while i < n
        invariant
            i <= n,
            n <= total,
            n == scheme@.len(),
            total == uri@.len(),
            scheme@ == "mv2://"@,
            forall|k: int| 0 <= k < i ==> #[trigger] scheme@[k] == uri@[k],
        decreases n - i,
    {
        if uri.get_char(i) != scheme.get_char(i) {
            assert(uri@.subrange(0, n as int)[i as int] != scheme@[i as int]);
            return uri;
        }
        i += 1;
    }
    assert(scheme@ =~= uri@.subrange(0, n as int));
    let res = uri.substring_char(n, total);
    assert(res@ =~= uri@.skip(n as int));
    res
}

/// Renders a hit as it stands in the context.
pub fn render_hit(hit: &SearchHit) -> (res: String)
    ensures
        res@ == rendered(*hit),
{
    let display = without_scheme(hit.uri.as_str());
    let mut out = String::new();
    out.append("### [");
    push_decimal(&mut out, hit.rank as u64);
    out.append("] ");
    out.append(display);
    out.append(" \u{2014} ");
    match &hit.title {
        Some(title) => {
            out.append(title.as_str());
        },
        None => {
            out.append(display);
        },
    }
    out.append("\n");
    out.append(hit.text.as_str());
    out.append("\n(matches: ");
    push_decimal(&mut out, hit.matches as u64);
    out.append(")");
    assert(out@ =~= rendered(*hit));
    out
}

/// Builds the context of a search from its hits.
///
/// The context holds at most [`MAX_CONTEXT_HITS`] hits. Each document gives its best ranked hit,
/// the documents taken by that rank. The places that are then free go to the other hits by rank.
/// The hits stand in the order in which they were given.
pub fn build_context(hits: &[SearchHit]) -> (res: String)
    requires
        forall|i: int|
            0 <= i < hits@.len() ==> total_matches(hits@, document_key(#[trigger] hits@[i]))
                <= usize::MAX,
    ensures
        res@ == context_text(hits@),
{
    let representatives = pick_representatives(hits);
    let fillers = pick_fillers(hits, &representatives);
    let ghost chosen = |i: int| in_context(hits@, i);
    let ghost render = |i: int| rendered(hits@[i]);
    let mut out = String::new();
    let mut is_first = true;
    let mut i: usize = 0;
    assert(select(0, chosen).map_values(render) =~= seq![]);
    while i < hits.len()
        invariant
            i <= hits@.len(),
            chosen == (|i: int| in_context(hits@, i)),
            render == (|i: int| rendered(hits@[i])),
            forall|x: usize| #[trigger]
                representatives@.contains(x) <==> (x < hits@.len() && represents(
                    hits@,
                    x as int,
                )),
            forall|x: usize| #[trigger]
                fillers@.contains(x) <==> (x < hits@.len() && fills(hits@, x as int)),
            is_first == (select(i as nat, chosen).len() == 0),
            out@ == joined(select(i as nat, chosen).map_values(render), "\n\n"@),
        decreases hits@.len() - i,
    {
        let ghost before = select(i as nat, chosen);
        if holds(&representatives, i) || holds(&fillers, i) {
            if !is_first {
                out.append("\n\n");
            }
            let text = render_hit(&hits[i]);
            out.append(text.as_str());
            is_first = false;
            proof {
                assert(chosen(i as int));
                let after = select((i + 1) as nat, chosen);
                assert(after =~= before.push(i as int));
                assert(after.map_values(render).drop_last() =~= before.map_values(render));
                assert(after.map_values(render).last() == text@);
                assert(out@ =~= joined(after.map_values(render), "\n\n"@));
            }
        }
        i += 1;
    }
    out
}

/// Two hits have the same document key if and only if they have the same base URI.
pub proof fn lemma_document_key(a: SearchHit, b: SearchHit)
    ensures
        document_key(a) == document_key(b) <==> base_uri(a.uri@) == base_uri(b.uri@),
{
    encode_utf8_decode_utf8(base_uri(a.uri@));
    encode_utf8_decode_utf8(base_uri(b.uri@));
}

/// A fragment does not change the document that a URI names.
pub proof fn lemma_fragment_is_ignored(uri: Seq<char>, fragment: Seq<char>)
    ensures
        base_uri(uri + seq!['#'] + fragment) == base_uri(uri),
{
    lemma_before_hash_concat(uri, fragment);
}

/// Nothing behind a `#` is before it.
proof fn lemma_before_hash_concat(s: Seq<char>, t: Seq<char>)
    ensures
        before_hash(s + seq!['#'] + t) == before_hash(s),
    decreases s.len(),
{
    let whole = s + seq!['#'] + t;
    if s.len() > 0 {
        lemma_before_hash_concat(s.drop_first(), t);
        assert(whole.drop_first() =~= s.drop_first() + seq!['#'] + t);
        assert(whole[0] == s[0]);
    } else {
        assert(whole[0] == '#');
    }
}

/// The case of ASCII letters does not change the document that a URI names.
pub proof fn lemma_uri_case_is_ignored(uri: Seq<char>)
    ensures
        base_uri(ascii_lowercase(uri)) == base_uri(uri),
    decreases uri.len(),
{
    if uri.len() > 0 {
        let rest = uri.drop_first();
        lemma_uri_case_is_ignored(rest);
        assert(ascii_lowercase(uri).drop_first() =~= ascii_lowercase(rest));
        let c = uri[0];
        lemma_lower_char(c);
        assert(ascii_lowercase(uri)[0] == ascii_lower_char(c));
        if c != '#' {
            assert(base_uri(uri) =~= seq![ascii_lower_char(c)] + base_uri(rest));
            assert(base_uri(ascii_lowercase(uri)) =~= seq![ascii_lower_char(c)] + base_uri(
                ascii_lowercase(rest),
            ));
        }
    } else {
        assert(ascii_lowercase(uri) =~= uri);
    }
}

/// A small letter stays as it is, and no letter is made a `#`.
proof fn lemma_lower_char(c: char)
    ensures
        ascii_lower_char(ascii_lower_char(c)) == ascii_lower_char(c),
        ascii_lower_char(c) == '#' <==> c == '#',
{
}

/// The order in which documents are taken, between the hits that stand for them.
pub open spec fn document_order(hits: Seq<SearchHit>) -> spec_fn(int, int) -> bool {
    |i: int, j: int| document_before(hits, document_key(hits[i]), document_key(hits[j]))
}

/// The order in which documents are taken is strict and total.
pub proof fn lemma_document_order(hits: Seq<SearchHit>)
    ensures
        strict_total(hits.len(), |i: int| stands_for(hits, i), document_order(hits)),
{
    let before = document_order(hits);
    let n = hits.len();
    assert forall|i: int| 0 <= i < n && stands_for(hits, i) implies !#[trigger] before(i, i) by {
        lemma_bytes_less_strict(document_key(hits[i]), document_key(hits[i]));
    }
    assert forall|i: int, j: int|
        0 <= i < n && 0 <= j < n && stands_for(hits, i) && stands_for(hits, j) && i != j implies (
    #[trigger] before(i, j) <==> !before(j, i)) by {
        assert(document_key(hits[i]) != document_key(hits[j])) by {
            if document_key(hits[i]) == document_key(hits[j]) {
                assert(!rank_before(hits, i, j));
                assert(!rank_before(hits, j, i));
            }
        }
        lemma_bytes_less_strict(document_key(hits[i]), document_key(hits[j]));
    }
    assert forall|i: int, j: int, k: int|
        0 <= i < n && 0 <= j < n && 0 <= k < n && stands_for(hits, i) && stands_for(hits, j)
            && stands_for(hits, k) && #[trigger] before(i, j) && #[trigger] before(
            j,
            k,
        ) implies before(i, k) by {
        let (a, b, c) = (document_key(hits[i]), document_key(hits[j]), document_key(hits[k]));
        if bytes_less(a, b) && bytes_less(b, c) {
            lemma_bytes_less_transitive(a, b, c);
        }
    }
}

/// Every document has one hit that stands for it, and no other.
pub proof fn lemma_one_stands_for_document(hits: Seq<SearchHit>, i: int)
    requires
        0 <= i < hits.len(),
    ensures
        exists|k: int|
            0 <= k < hits.len() && #[trigger] stands_for(hits, k) && document_key(hits[k])
                == document_key(hits[i]),
        forall|k: int, l: int|
            0 <= k < hits.len() && 0 <= l < hits.len() && #[trigger] stands_for(hits, k)
                && #[trigger] stands_for(hits, l) && document_key(hits[k]) == document_key(hits[l])
                ==> k == l,
    decreases hits[i].rank, i,
{
    assert forall|k: int, l: int|
        0 <= k < hits.len() && 0 <= l < hits.len() && #[trigger] stands_for(hits, k)
            && #[trigger] stands_for(hits, l) && document_key(hits[k]) == document_key(
            hits[l],
        ) implies k == l by {
        assert(!rank_before(hits, k, l));
        assert(!rank_before(hits, l, k));
    }
    if !stands_for(hits, i) {
        let j = choose|j: int|
            0 <= j < hits.len() && document_key(#[trigger] hits[j]) == document_key(hits[i])
                && rank_before(hits, j, i);
        lemma_one_stands_for_document(hits, j);
    }
}

/// How many documents the hits come from.
pub open spec fn documents(hits: Seq<SearchHit>) -> nat {
    count(hits.len(), |i: int| stands_for(hits, i))
}

/// As many documents are represented in the context as it has places, and no fewer where there are
/// as many documents.
pub proof fn lemma_representatives(hits: Seq<SearchHit>)
    ensures
        representatives(hits) == if documents(hits) < MAX_CONTEXT_HITS {
            documents(hits)
        } else {
            MAX_CONTEXT_HITS as nat
        },
        forall|i: int|
            0 <= i < hits.len() && #[trigger] stands_for(hits, i) ==> documents_ahead(hits, i)
                < documents(hits),
{
    let n = hits.len();
    let member = |i: int| stands_for(hits, i);
    let before = document_order(hits);
    lemma_document_order(hits);
    assert forall|i: int| 0 <= i < n implies #[trigger] place_among(n, member, before, i)
        == documents_ahead(hits, i) by {
        lemma_count_agree(
            n,
            |j: int| member(j) && before(j, i),
            |j: int|
                stands_for(hits, j) && document_before(
                    hits,
                    document_key(hits[j]),
                    document_key(hits[i]),
                ),
        );
    }
    lemma_places_taken(n, member, before, MAX_CONTEXT_HITS as nat);
    lemma_count_agree(
        n,
        |i: int| member(i) && place_among(n, member, before, i) < MAX_CONTEXT_HITS as nat,
        |i: int| represents(hits, i),
    );
    assert forall|i: int| 0 <= i < n && #[trigger] stands_for(hits, i) implies documents_ahead(
        hits,
        i,
    ) < documents(hits) by {
        lemma_places_ascend(n, member, before, i, i);
        assert(place_among(n, member, before, i) == documents_ahead(hits, i));
    }
}

/// The context holds as many hits as it has places for, and all of them where there are no more.
pub proof fn lemma_context_size(hits: Seq<SearchHit>)
    ensures
        context_hits(hits).len() == if hits.len() < MAX_CONTEXT_HITS {
            hits.len()
        } else {
            MAX_CONTEXT_HITS as nat
        },
{
    let n = hits.len();
    let chosen = |i: int| represents(hits, i);
    let member = |i: int| !represents(hits, i);
    let before = |i: int, j: int| rank_before(hits, i, j);
    let free = (MAX_CONTEXT_HITS - representatives(hits)) as nat;
    lemma_representatives(hits);
    assert forall|i: int| 0 <= i < n implies #[trigger] place_among(n, member, before, i)
        == hits_ahead(hits, i) by {
        lemma_count_agree(
            n,
            |j: int| member(j) && before(j, i),
            |j: int| !represents(hits, j) && rank_before(hits, j, i),
        );
    }
    assert(strict_total(n, member, before));
    lemma_places_taken(n, member, before, free);
    let filled = |i: int| fills(hits, i);
    lemma_count_agree(
        n,
        |i: int| member(i) && place_among(n, member, before, i) < free,
        filled,
    );
    lemma_count_complement(n, chosen);
    lemma_count_agree(n, |i: int| !chosen(i), member);
    lemma_count_disjoint(n, chosen, filled);
    lemma_count_agree(
        n,
        |i: int| chosen(i) || filled(i),
        |i: int| in_context(hits, i),
    );
    lemma_select(n, |i: int| in_context(hits, i));
}

/// The hits of the context stand in the order in which they were given, each once.
pub proof fn lemma_context_order(hits: Seq<SearchHit>)
    ensures
        forall|a: int, b: int|
            0 <= a < b < context_hits(hits).len() ==> #[trigger] context_hits(hits)[a]
                < #[trigger] context_hits(hits)[b],
        forall|i: int| #[trigger]
            context_hits(hits).contains(i) <==> (0 <= i < hits.len() && in_context(hits, i)),
{
    lemma_select(hits.len(), |i: int| in_context(hits, i));
}

/// Where there are no more hits than places, the context holds every hit.
pub proof fn lemma_context_holds_all(hits: Seq<SearchHit>, i: int)
    requires
        hits.len() <= MAX_CONTEXT_HITS,
        0 <= i < hits.len(),
    ensures
        in_context(hits, i),
{
    let n = hits.len();
    let chosen = |i: int| in_context(hits, i);
    lemma_context_size(hits);
    lemma_select(n, chosen);
    if !in_context(hits, i) {
        lemma_count_less(n, chosen, every(), i);
        lemma_count_every(n);
    }
}

/// Where there are no more documents than places, every document is in the context, and no other
/// hit of a document is in the context before every document is.
pub proof fn lemma_context_diversity(hits: Seq<SearchHit>)
    ensures
        documents(hits) <= MAX_CONTEXT_HITS ==> forall|i: int|
            0 <= i < hits.len() && #[trigger] stands_for(hits, i) ==> represents(hits, i),
        forall|i: int, j: int|
            0 <= i < hits.len() && 0 <= j < hits.len() && #[trigger] fills(hits, i)
                && #[trigger] stands_for(hits, j) ==> represents(hits, j),
{
    lemma_representatives(hits);
}

/// A document that is in the context has no worse a rank than one that is not.
pub proof fn lemma_documents_by_rank(hits: Seq<SearchHit>, i: int, j: int)
    requires
        0 <= i < hits.len(),
        0 <= j < hits.len(),
        represents(hits, i),
        stands_for(hits, j),
        !represents(hits, j),
    ensures
        best_rank(hits, document_key(hits[i])) <= best_rank(hits, document_key(hits[j])),
{
    let n = hits.len();
    let member = |i: int| stands_for(hits, i);
    let before = document_order(hits);
    lemma_document_order(hits);
    if before(j, i) {
        lemma_places_ascend(n, member, before, j, i);
        lemma_count_agree(
            n,
            |x: int| member(x) && before(x, i),
            |x: int|
                stands_for(hits, x) && document_before(
                    hits,
                    document_key(hits[x]),
                    document_key(hits[i]),
                ),
        );
        lemma_count_agree(
            n,
            |x: int| member(x) && before(x, j),
            |x: int|
                stands_for(hits, x) && document_before(
                    hits,
                    document_key(hits[x]),
                    document_key(hits[j]),
                ),
        );
    }
    assert(i != j);
    assert(before(i, j) <==> !before(j, i));
}

/// A hit that fills a place has no worse a rank than one that is not in the context.
pub proof fn lemma_fillers_by_rank(hits: Seq<SearchHit>, i: int, j: int)
    requires
        0 <= i < hits.len(),
        0 <= j < hits.len(),
        fills(hits, i),
        !in_context(hits, j),
    ensures
        hits[i].rank <= hits[j].rank,
{
    if hits[j].rank < hits[i].rank {
        lemma_count_less(
            hits.len(),
            |x: int| !represents(hits, x) && rank_before(hits, x, j),
            |x: int| !represents(hits, x) && rank_before(hits, x, i),
            j,
        );
    }
}

/// The best rank of a document is the least one among its hits.
pub proof fn lemma_best_rank(hits: Seq<SearchHit>, key: Seq<u8>)
    ensures
        forall|i: int|
            0 <= i < hits.len() && document_key(#[trigger] hits[i]) == key ==> best_rank(hits, key)
                <= hits[i].rank,
        (exists|i: int| 0 <= i < hits.len() && document_key(#[trigger] hits[i]) == key)
            ==> exists|i: int|
            0 <= i < hits.len() && document_key(#[trigger] hits[i]) == key && hits[i].rank
                == best_rank(hits, key),
    decreases hits.len(),
{
    if hits.len() > 0 {
        let rest = hits.drop_last();
        let last = hits.len() - 1;
        lemma_best_rank(rest, key);
        assert forall|i: int|
            0 <= i < hits.len() && document_key(#[trigger] hits[i]) == key implies best_rank(
            hits,
            key,
        ) <= hits[i].rank by {
            if i < last {
                assert(rest[i] == hits[i]);
            }
        }
        if exists|i: int| 0 <= i < hits.len() && document_key(#[trigger] hits[i]) == key {
            if document_key(hits[last]) == key && hits[last].rank == best_rank(hits, key) {
            } else {
                if !exists|i: int| 0 <= i < rest.len() && document_key(#[trigger] rest[i]) == key {
                    let i = choose|i: int|
                        0 <= i < hits.len() && document_key(#[trigger] hits[i]) == key;
                    if i < last {
                        assert(document_key(rest[i]) == key);
                    }
                    lemma_no_hits(rest, key);
                }
                let i = choose|i: int|
                    0 <= i < rest.len() && document_key(#[trigger] rest[i]) == key
                        && rest[i].rank == best_rank(rest, key);
                assert(hits[i] == rest[i]);
            }
        }
    }
}

/// The hit that represents a document is its best ranked one, and the earliest of those.
pub proof fn lemma_representative_is_best(hits: Seq<SearchHit>, i: int)
    requires
        0 <= i < hits.len(),
        represents(hits, i),
    ensures
        hits[i].rank == best_rank(hits, document_key(hits[i])),
        forall|j: int|
            0 <= j < i && document_key(#[trigger] hits[j]) == document_key(hits[i]) ==> hits[j].rank
                > hits[i].rank,
{
    let key = document_key(hits[i]);
    lemma_best_rank(hits, key);
    let b = choose|b: int|
        0 <= b < hits.len() && document_key(#[trigger] hits[b]) == key && hits[b].rank
            == best_rank(hits, key);
    assert(!rank_before(hits, b, i));
}

/// A hit that is ranked better than all others is in the context.
pub proof fn lemma_top_hit_in_context(hits: Seq<SearchHit>, i: int)
    requires
        0 <= i < hits.len(),
        forall|j: int|
            0 <= j < hits.len() && j != i ==> hits[i].rank < (#[trigger] hits[j]).rank,
    ensures
        represents(hits, i),
        in_context(hits, i),
{
    let n = hits.len();
    let key = document_key(hits[i]);
    lemma_best_rank(hits, key);
    assert(stands_for(hits, i));
    let ahead = |j: int| stands_for(hits, j) && document_before(hits, document_key(hits[j]), key);
    assert forall|j: int| 0 <= j < n implies !#[trigger] ahead(j) by {
        let other = document_key(hits[j]);
        lemma_best_rank(hits, other);
        if other == key {
            lemma_bytes_less_strict(key, key);
        } else {
            let b = choose|b: int|
                0 <= b < n && document_key(#[trigger] hits[b]) == other && hits[b].rank
                    == best_rank(hits, other);
            assert(b != i);
        }
    }
    lemma_count_agree(n, ahead, |j: int| false);
    lemma_count_none(n);
}

/// Whether two lists of hits agree in what the selection goes by: the documents, the ranks and the
/// matches of the hits.
pub open spec fn selected_alike(a: Seq<SearchHit>, b: Seq<SearchHit>) -> bool {
    &&& a.len() == b.len()
    &&& forall|i: int|
        #![trigger a[i]]
        #![trigger b[i]]
        0 <= i < a.len() ==> base_uri(a[i].uri@) == base_uri(b[i].uri@) && a[i].rank == b[i].rank
            && a[i].matches == b[i].matches
}

/// Documents are taken alike in lists that agree in what the selection goes by.
proof fn lemma_documents_alike(a: Seq<SearchHit>, b: Seq<SearchHit>, key: Seq<u8>)
    requires
        selected_alike(a, b),
    ensures
        best_rank(a, key) == best_rank(b, key),
        total_matches(a, key) == total_matches(b, key),
    decreases a.len(),
{
    if a.len() > 0 {
        let (c, d) = (a.drop_last(), b.drop_last());
        assert forall|i: int|
            #![trigger c[i]]
            #![trigger d[i]]
            0 <= i < c.len() implies base_uri(c[i].uri@) == base_uri(d[i].uri@) && c[i].rank
            == d[i].rank && c[i].matches == d[i].matches by {
            assert(c[i] == a[i] && d[i] == b[i]);
        }
        lemma_documents_alike(c, d, key);
        assert(a.last() == a[a.len() - 1] && b.last() == b[b.len() - 1]);
    }
}

/// Hits that represent documents in one list do so in one that is selected alike.
proof fn lemma_represents_alike(a: Seq<SearchHit>, b: Seq<SearchHit>, i: int)
    requires
        selected_alike(a, b),
        0 <= i < a.len(),
    ensures
        represents(a, i) == represents(b, i),
{
    assert forall|j: int| 0 <= j < a.len() implies #[trigger] stands_for(a, j) == stands_for(
        b,
        j,
    ) by {
        if stands_for(a, j) {
            lemma_stands_for_alike(a, b, j);
        }
        if stands_for(b, j) {
            lemma_stands_for_alike(b, a, j);
        }
    }
    let ahead = |j: int|
        stands_for(a, j) && document_before(a, document_key(a[j]), document_key(a[i]));
    let others_ahead = |j: int|
        stands_for(b, j) && document_before(b, document_key(b[j]), document_key(b[i]));
    assert forall|j: int| 0 <= j < a.len() implies #[trigger] ahead(j) == others_ahead(j) by {
        assert(stands_for(a, j) == stands_for(b, j));
        assert(document_key(a[j]) == document_key(b[j]));
        assert(document_key(a[i]) == document_key(b[i]));
        lemma_documents_alike(a, b, document_key(a[i]));
        lemma_documents_alike(a, b, document_key(a[j]));
    }
    lemma_count_agree(a.len(), ahead, others_ahead);
    assert(stands_for(a, i) == stands_for(b, i));
}

/// A hit that stands for its document in one list does so in one that is selected alike.
proof fn lemma_stands_for_alike(a: Seq<SearchHit>, b: Seq<SearchHit>, i: int)
    requires
        selected_alike(a, b),
        0 <= i < a.len(),
        stands_for(a, i),
    ensures
        stands_for(b, i),
{
    assert forall|j: int|
        0 <= j < b.len() && document_key(#[trigger] b[j]) == document_key(
            b[i],
        ) implies !rank_before(b, j, i) by {
        assert(document_key(a[j]) == document_key(a[i]));
        assert(!rank_before(a, j, i));
    }
}

/// Only the documents, the ranks and the matches of hits decide which of them are in the context.
pub proof fn lemma_what_selection_goes_by(a: Seq<SearchHit>, b: Seq<SearchHit>)
    requires
        selected_alike(a, b),
    ensures
        context_hits(a) == context_hits(b),
{
    let n = a.len();
    assert forall|i: int| 0 <= i < n implies #[trigger] represents(a, i) == represents(b, i) by {
        lemma_represents_alike(a, b, i);
    }
    lemma_count_agree(n, |i: int| represents(a, i), |i: int| represents(b, i));
    let (chosen, others) = (|i: int| in_context(a, i), |i: int| in_context(b, i));
    assert forall|i: int| 0 <= i < n implies #[trigger] chosen(i) == others(i) by {
        let ahead = |j: int| !represents(a, j) && rank_before(a, j, i);
        let others_ahead = |j: int| !represents(b, j) && rank_before(b, j, i);
        assert forall|j: int| 0 <= j < n implies #[trigger] ahead(j) == others_ahead(j) by {
            assert(represents(a, j) == represents(b, j));
            assert(a[j].rank == b[j].rank && a[i].rank == b[i].rank);
        }
        lemma_count_agree(n, ahead, others_ahead);
        assert(represents(a, i) == represents(b, i));
    }
    lemma_select_agree(n, chosen, others);
}

/// Without hits there is no context.
pub proof fn lemma_no_context(hits: Seq<SearchHit>)
    requires
        hits.len() == 0,
    ensures
        context_text(hits) == Seq::<char>::empty(),
{
    assert(context_hits(hits).map_values(|i: int| rendered(hits[i])) =~= seq![]);
}

/// What a hit contributes to the context goes by its rank, URI, title, text and matches alone.
pub proof fn lemma_what_rendering_goes_by(a: SearchHit, b: SearchHit)
    requires
        a.rank == b.rank,
        a.uri@ == b.uri@,
        a.title is Some == b.title is Some,
        a.title is Some ==> a.title->0@ == b.title->0@,
        a.text@ == b.text@,
        a.matches == b.matches,
    ensures
        rendered(a) == rendered(b),
{
}

/// A hit is rendered as a heading line, its text, and a line with its matches. The heading line
/// shows the rank, the URI without the scheme `mv2://`, and the title, or the same URI again where
/// there is no title.
pub proof fn lemma_rendered_parts(hit: SearchHit, scheme: Seq<char>, path: Seq<char>)
    requires
        hit.uri@ == scheme + path,
        scheme == "mv2://"@ || (scheme == Seq::<char>::empty() && !"mv2://"@.is_prefix_of(path)),
    ensures
        hit.title matches Some(title) ==> rendered(hit) == "### ["@ + decimal(hit.rank as nat)
            + "] "@ + path + " \u{2014} "@ + title@ + "\n"@ + hit.text@ + "\n(matches: "@ + decimal(
            hit.matches as nat,
        ) + ")"@,
        hit.title is None ==> rendered(hit) == "### ["@ + decimal(hit.rank as nat) + "] "@ + path
            + " \u{2014} "@ + path + "\n"@ + hit.text@ + "\n(matches: "@ + decimal(
            hit.matches as nat,
        ) + ")"@,
{
    if scheme == "mv2://"@ {
        assert((scheme + path).take(scheme.len() as int) =~= scheme);
        assert("mv2://"@.is_prefix_of(hit.uri@));
        assert(hit.uri@.skip("mv2://"@.len() as int) =~= path);
    } else {
        assert(hit.uri@ =~= path);
    }
    assert(display_uri(hit.uri@) == path);
}

/// Hits that differ in their texts alone are rendered with the same lines round these texts.
pub proof fn lemma_text_is_rendered_whole(a: SearchHit, b: SearchHit)
    requires
        b == (SearchHit { text: b.text, ..a }),
    ensures
        exists|head: Seq<char>, tail: Seq<char>|
            #![trigger head + a.text@ + tail]
            rendered(a) == head + a.text@ + tail && rendered(b) == head + b.text@ + tail
                && head.len() > 0 && head.last() == '\n' && tail.len() > 0 && tail[0] == '\n',
{
    let head = "### ["@ + decimal(a.rank as nat) + "] "@ + display_uri(a.uri@) + " \u{2014} "@
        + heading(a) + "\n"@;
    let tail = "\n(matches: "@ + decimal(a.matches as nat) + ")"@;
    reveal_strlit("\n");
    reveal_strlit("\n(matches: ");
    assert(heading(a) == heading(b));
    assert(rendered(a) =~= head + a.text@ + tail);
    assert(rendered(b) =~= head + b.text@ + tail);
}

/// The base URI is what stands before the first `#`, or all of a URI that has none, with ASCII
/// capital letters made small.
pub proof fn lemma_base_uri(uri: Seq<char>)
    ensures
        base_uri(uri).len() <= uri.len(),
        base_uri(uri).len() < uri.len() ==> uri[base_uri(uri).len() as int] == '#',
        forall|i: int| 0 <= i < base_uri(uri).len() ==> #[trigger] uri[i] != '#',
        forall|i: int|
            0 <= i < base_uri(uri).len() ==> {
                let (c, d) = (uri[i] as u32, (#[trigger] base_uri(uri)[i]) as u32);
                if 65 <= c <= 90 {
                    d == c + 32
                } else {
                    base_uri(uri)[i] == uri[i]
                }
            },
{
    let before = before_hash(uri);
    lemma_before_hash(uri);
    lemma_ascii_lowercase(before);
    assert forall|i: int| 0 <= i < base_uri(uri).len() implies #[trigger] uri[i] != '#' by {
        assert(before[i] == uri[i]);
        assert(before.contains(before[i]));
    }
    assert forall|i: int| 0 <= i < base_uri(uri).len() implies ({
        let (c, d) = (uri[i] as u32, (#[trigger] base_uri(uri)[i]) as u32);
        if 65 <= c <= 90 {
            d == c + 32
        } else {
            base_uri(uri)[i] == uri[i]
        }
    }) by {
        assert(before[i] == uri[i]);
        assert(base_uri(uri)[i] == ascii_lowercase(before)[i]);
    }
}

/// The matches of a document's hits add up, and a hit without any counts for one.
pub proof fn lemma_matches_add_up(hits: Seq<SearchHit>, hit: SearchHit, uri: Seq<char>)
    ensures
        total_matches(seq![], encode_utf8(base_uri(uri))) == 0,
        base_uri(hit.uri@) == base_uri(uri) ==> total_matches(
            hits.push(hit),
            encode_utf8(base_uri(uri)),
        ) == total_matches(hits, encode_utf8(base_uri(uri))) + if hit.matches > 1 {
            hit.matches as int
        } else {
            1int
        },
        base_uri(hit.uri@) != base_uri(uri) ==> total_matches(
            hits.push(hit),
            encode_utf8(base_uri(uri)),
        ) == total_matches(hits, encode_utf8(base_uri(uri))),
{
    encode_utf8_decode_utf8(base_uri(hit.uri@));
    encode_utf8_decode_utf8(base_uri(uri));
    assert(hits.push(hit).drop_last() =~= hits);
}

/// The context holds 24 hits, or all hits where there are no more, each once and in the order in
/// which they were given.
pub proof fn lemma_context_is_bounded(hits: Seq<SearchHit>)
    ensures
        hits.len() <= 24 ==> context_hits(hits).len() == hits.len(),
        hits.len() > 24 ==> context_hits(hits).len() == 24,
        forall|a: int|
            0 <= a < context_hits(hits).len() ==> 0 <= #[trigger] context_hits(hits)[a]
                < hits.len(),
        forall|a: int, b: int|
            0 <= a < b < context_hits(hits).len() ==> #[trigger] context_hits(hits)[a]
                < #[trigger] context_hits(hits)[b],
{
    lemma_context_size(hits);
    lemma_context_order(hits);
    assert forall|a: int| 0 <= a < context_hits(hits).len() implies 0 <= #[trigger] context_hits(
        hits,
    )[a] < hits.len() by {
        assert(context_hits(hits).contains(context_hits(hits)[a]));
    }
}

/// No hit of a document is in the context without those of the document that have a better rank, or
/// the same rank and were given earlier.
pub proof fn lemma_better_hits_first(hits: Seq<SearchHit>, i: int, j: int)
    requires
        0 <= i < hits.len(),
        context_hits(hits).contains(j),
        base_uri(hits[i].uri@) == base_uri(hits[j].uri@),
        hits[i].rank < hits[j].rank || (hits[i].rank == hits[j].rank && i < j),
    ensures
        context_hits(hits).contains(i),
{
    lemma_context_order(hits);
    if represents(hits, j) {
        assert(!rank_before(hits, i, j));
    } else if !represents(hits, i) {
        lemma_count_less(
            hits.len(),
            |x: int| !represents(hits, x) && rank_before(hits, x, i),
            |x: int| !represents(hits, x) && rank_before(hits, x, j),
            i,
        );
    }
}

/// The context holds two hits of one document only where it holds a hit of every document.
pub proof fn lemma_documents_first(hits: Seq<SearchHit>, i: int, j: int, k: int)
    requires
        context_hits(hits).contains(i),
        context_hits(hits).contains(j),
        i != j,
        base_uri(hits[i].uri@) == base_uri(hits[j].uri@),
        0 <= k < hits.len(),
    ensures
        exists|m: int| #[trigger]
            context_hits(hits).contains(m) && base_uri(hits[m].uri@) == base_uri(hits[k].uri@),
{
    lemma_context_order(hits);
    lemma_one_stands_for_document(hits, i);
    lemma_one_stands_for_document(hits, k);
    let m = choose|m: int|
        0 <= m < hits.len() && #[trigger] stands_for(hits, m) && document_key(hits[m])
            == document_key(hits[k]);
    lemma_context_diversity(hits);
    assert(fills(hits, i) || fills(hits, j)) by {
        if represents(hits, i) && represents(hits, j) {
            assert(stands_for(hits, i) && stands_for(hits, j));
        }
    }
    assert(represents(hits, m));
    lemma_document_key(hits[m], hits[k]);
    assert(context_hits(hits).contains(m));
}

/// A document in the context has a best hit with a better rank than that of one that is left out,
/// or the same rank and more matches, or the same matches too and a URI that comes first.
pub proof fn lemma_better_documents_first(hits: Seq<SearchHit>, i: int, j: int)
    requires
        context_hits(hits).contains(i),
        0 <= j < hits.len(),
        !context_hits(hits).contains(j),
        forall|x: int|
            0 <= x < hits.len() && base_uri((#[trigger] hits[x]).uri@) == base_uri(hits[i].uri@)
                ==> hits[i].rank <= hits[x].rank && (hits[i].rank == hits[x].rank ==> i <= x),
        forall|x: int|
            0 <= x < hits.len() && base_uri((#[trigger] hits[x]).uri@) == base_uri(hits[j].uri@)
                ==> hits[j].rank <= hits[x].rank && (hits[j].rank == hits[x].rank ==> j <= x),
    ensures
        ({
            let (a, b) = (
                encode_utf8(base_uri(hits[i].uri@)),
                encode_utf8(base_uri(hits[j].uri@)),
            );
            ||| hits[i].rank < hits[j].rank
            ||| hits[i].rank == hits[j].rank && total_matches(hits, a) > total_matches(hits, b)
            ||| hits[i].rank == hits[j].rank && total_matches(hits, a) == total_matches(hits, b)
                && bytes_less(a, b)
        }),
{
    let n = hits.len();
    lemma_context_order(hits);
    lemma_stands_for_best(hits, i);
    lemma_stands_for_best(hits, j);
    lemma_context_diversity(hits);
    assert(represents(hits, i)) by {
        if fills(hits, i) {
            assert(represents(hits, j));
        }
    }
    let member = |x: int| stands_for(hits, x);
    let before = document_order(hits);
    lemma_document_order(hits);
    if before(j, i) {
        lemma_places_ascend(n, member, before, j, i);
        lemma_place_is_documents_ahead(hits, i);
        lemma_place_is_documents_ahead(hits, j);
    }
    assert(i != j);
    assert(before(i, j) <==> !before(j, i));
}

/// The place of a document among those that are taken is the number of documents ahead of it.
proof fn lemma_place_is_documents_ahead(hits: Seq<SearchHit>, i: int)
    ensures
        place_among(hits.len(), |x: int| stands_for(hits, x), document_order(hits), i)
            == documents_ahead(hits, i),
{
    let member = |x: int| stands_for(hits, x);
    let before = document_order(hits);
    lemma_count_agree(
        hits.len(),
        |x: int| member(x) && before(x, i),
        |x: int|
            stands_for(hits, x) && document_before(
                hits,
                document_key(hits[x]),
                document_key(hits[i]),
            ),
    );
}

/// The earliest of a document's hits with the best rank stands for it.
proof fn lemma_stands_for_best(hits: Seq<SearchHit>, i: int)
    requires
        0 <= i < hits.len(),
        forall|x: int|
            0 <= x < hits.len() && base_uri((#[trigger] hits[x]).uri@) == base_uri(hits[i].uri@)
                ==> hits[i].rank <= hits[x].rank && (hits[i].rank == hits[x].rank ==> i <= x),
    ensures
        stands_for(hits, i),
        best_rank(hits, document_key(hits[i])) == hits[i].rank,
{
    assert forall|j: int|
        0 <= j < hits.len() && document_key(#[trigger] hits[j]) == document_key(
            hits[i],
        ) implies !rank_before(hits, j, i) by {
        lemma_document_key(hits[j], hits[i]);
    }
    let key = document_key(hits[i]);
    lemma_best_rank(hits, key);
    let b = choose|b: int|
        0 <= b < hits.len() && document_key(#[trigger] hits[b]) == key && hits[b].rank
            == best_rank(hits, key);
    assert(!rank_before(hits, b, i));
}

/// A hit that is in the context beside the best hit of its document has a better rank than any hit
/// that is left out, or the same rank and was given earlier.
pub proof fn lemma_further_hits_by_rank(hits: Seq<SearchHit>, i: int, best: int, j: int)
    requires
        context_hits(hits).contains(i),
        0 <= best < hits.len(),
        base_uri(hits[best].uri@) == base_uri(hits[i].uri@),
        hits[best].rank < hits[i].rank || (hits[best].rank == hits[i].rank && best < i),
        0 <= j < hits.len(),
        !context_hits(hits).contains(j),
    ensures
        hits[i].rank < hits[j].rank || (hits[i].rank == hits[j].rank && i < j),
{
    lemma_context_order(hits);
    assert(rank_before(hits, best, i));
    assert(document_key(hits[best]) == document_key(hits[i]));
    assert(fills(hits, i));
    if rank_before(hits, j, i) {
        lemma_count_less(
            hits.len(),
            |x: int| !represents(hits, x) && rank_before(hits, x, j),
            |x: int| !represents(hits, x) && rank_before(hits, x, i),
            j,
        );
    }
}

/// Where there are no more hits than places, they are listed one after the other.
proof fn lemma_few_hits(hits: Seq<SearchHit>)
    requires
        hits.len() <= MAX_CONTEXT_HITS,
    ensures
        context_hits(hits) == Seq::new(hits.len(), |i: int| i),
{
    let chosen = |i: int| in_context(hits, i);
    assert forall|i: int| 0 <= i < hits.len() implies #[trigger] chosen(i) == every()(i) by {
        lemma_context_holds_all(hits, i);
    }
    lemma_select_agree(hits.len(), chosen, every());
    lemma_select_every(hits.len());
}

/// The context of one hit is that hit. Each further hit, as long as there are places for all, is
/// set behind the others, with an empty line between.
#[verifier::spinoff_prover]
pub proof fn lemma_context_grows(hits: Seq<SearchHit>, hit: SearchHit)
    requires
        hits.len() < 24,
    ensures
        hits.len() == 0 ==> context_text(hits.push(hit)) == rendered(hit),
        hits.len() > 0 ==> context_text(hits.push(hit)) == context_text(hits) + seq!['\n', '\n']
            + rendered(hit),
{
    let more = hits.push(hit);
    let f = |i: int| rendered(hits[i]);
    let g = |i: int| rendered(more[i]);
    lemma_few_hits(hits);
    lemma_few_hits(more);
    assert forall|i: int| 0 <= i < hits.len() implies #[trigger] g(i) == f(i) by {
        assert(more[i] == hits[i]);
    }
    assert(more[hits.len() as int] == hit);
    lemma_joined_grows(hits.len(), f, g);
    reveal_strlit("\n\n");
    assert("\n\n"@ =~= seq!['\n', '\n']);
}

/// A list that is one longer is joined like the shorter one, with the further string behind it.
proof fn lemma_joined_grows(n: nat, f: spec_fn(int) -> Seq<char>, g: spec_fn(int) -> Seq<char>)
    requires
        forall|i: int| 0 <= i < n ==> #[trigger] g(i) == f(i),
    ensures
        n == 0 ==> joined(Seq::new(n + 1, |i: int| i).map_values(g), "\n\n"@) == g(0),
        n > 0 ==> joined(Seq::new(n + 1, |i: int| i).map_values(g), "\n\n"@) == joined(
            Seq::new(n, |i: int| i).map_values(f),
            "\n\n"@,
        ) + "\n\n"@ + g(n as int),
{
    let parts = Seq::new(n, |i: int| i).map_values(f);
    let all = Seq::new(n + 1, |i: int| i).map_values(g);
    assert(all.drop_last() =~= parts);
    assert(all.last() == g(n as int));
}

/// The context is made of the selected hits alone: it is the context of these hits.
pub proof fn lemma_context_of_selection(hits: Seq<SearchHit>)
    ensures
        context_text(hits) == context_text(context_hits(hits).map_values(|i: int| hits[i])),
{
    let selected = context_hits(hits).map_values(|i: int| hits[i]);
    lemma_context_size(hits);
    lemma_few_hits(selected);
    assert(context_hits(selected).map_values(|i: int| rendered(selected[i])) =~= context_hits(
        hits,
    ).map_values(|i: int| rendered(hits[i])));
}

} // verus!
