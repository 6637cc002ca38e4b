//! Counting over index ranges, and sorting indices under a strict total order.
//!
//! Contracts elsewhere in the crate place an element of a sorted result by the number of elements
//! that come before it. That number fixes the place without mentioning how the sort works.
use vstd::prelude::*;
use vstd::set_lib::{lemma_int_range, lemma_map_size, lemma_subset_equality, set_int_range};

verus! {

/// The number of indices in `0..n` that satisfy `pred`.
pub open spec fn count(n: nat, pred: spec_fn(int) -> bool) -> nat
    decreases n,
{
    if n == 0 {
        0
    } else {
        count((n - 1) as nat, pred) + if pred(n - 1) {
            1nat
        } else {
            0nat
        }
    }
}

/// A strict total order on the indices that it covers.
pub trait IndexOrder {
    /// Whether the order is defined on index `i`.
    spec fn covers(&self, i: int) -> bool;

    /// Whether `i` comes before `j`.
    spec fn before(&self, i: int, j: int) -> bool;

    /// Of two distinct indices exactly one comes first, and no index comes before itself.
    proof fn lemma_strict(&self, i: int, j: int)
        requires
            self.covers(i),
            self.covers(j),
        ensures
            !self.before(i, i),
            i != j ==> (self.before(i, j) <==> !self.before(j, i)),
    ;

    /// The order is transitive.
    proof fn lemma_transitive(&self, i: int, j: int, k: int)
        requires
            self.covers(i),
            self.covers(j),
            self.covers(k),
            self.before(i, j),
            self.before(j, k),
        ensures
            self.before(i, k),
    ;

    /// Decides whether `i` comes before `j`.
    fn precedes(&self, i: usize, j: usize) -> (b: bool)
        requires
            self.covers(i as int),
            self.covers(j as int),
        ensures
            b == self.before(i as int, j as int),
    ;
}

/// Every entry of `s` is an index that `order` covers.
pub open spec fn all_covered<O: IndexOrder>(order: &O, s: Seq<usize>) -> bool {
    forall|k: int| 0 <= k < s.len() ==> order.covers(#[trigger] s[k] as int)
}

/// The entries of `s` stand in the order that `order` gives them.
pub open spec fn in_order<O: IndexOrder>(order: &O, s: Seq<usize>) -> bool {
    forall|a: int, b: int|
        0 <= a < b < s.len() ==> order.before(#[trigger] s[a] as int, #[trigger] s[b] as int)
}

/// Two sequences hold the same indices.
pub open spec fn same_members(s: Seq<usize>, t: Seq<usize>) -> bool {
    forall|x: usize| #[trigger] s.contains(x) <==> t.contains(x)
}

/// The place of index `i` among the indices in `0..n`: how many of them come before it.
pub open spec fn place(n: nat, before: spec_fn(int, int) -> bool, i: int) -> nat {
    count(n, |j: int| before(j, i))
}

/// The place of index `i` among the indices in `0..n` that satisfy `member`.
pub open spec fn place_among(
    n: nat,
    member: spec_fn(int) -> bool,
    before: spec_fn(int, int) -> bool,
    i: int,
) -> nat {
    count(n, |j: int| member(j) && before(j, i))
}

/// Whether `before` orders the indices in `0..n` that satisfy `member` strictly and totally.
pub open spec fn strict_total(
    n: nat,
    member: spec_fn(int) -> bool,
    before: spec_fn(int, int) -> bool,
) -> bool {
    &&& forall|i: int| 0 <= i < n && member(i) ==> !#[trigger] before(i, i)
    &&& forall|i: int, j: int|
        0 <= i < n && 0 <= j < n && member(i) && member(j) && i != j ==> (#[trigger] before(i, j)
            <==> !before(j, i))
    &&& forall|i: int, j: int, k: int|
        0 <= i < n && 0 <= j < n && 0 <= k < n && member(i) && member(j) && member(k)
            && #[trigger] before(i, j) && #[trigger] before(j, k) ==> before(i, k)
}

/// Whether place `k` among the members is the place of one of them.
pub open spec fn is_taken_among(
    n: nat,
    member: spec_fn(int) -> bool,
    before: spec_fn(int, int) -> bool,
    k: int,
) -> bool {
    exists|i: int| 0 <= i < n && member(i) && #[trigger] place_among(n, member, before, i) == k
}

/// Whether place `k` is the place of an index in `0..n`.
pub open spec fn is_taken(n: nat, before: spec_fn(int, int) -> bool, k: int) -> bool {
    exists|i: int| 0 <= i < n && #[trigger] place(n, before, i) == k
}

/// The predicate that every index satisfies.
pub open spec fn every() -> spec_fn(int) -> bool {
    |i: int| true
}

/// Two predicates that agree on `0..n` are satisfied equally often there.
pub proof fn lemma_count_agree(n: nat, p: spec_fn(int) -> bool, q: spec_fn(int) -> bool)
    requires
        forall|i: int| 0 <= i < n ==> #[trigger] p(i) == q(i),
    ensures
        count(n, p) == count(n, q),
    decreases n,
{
    if n > 0 {
        lemma_count_agree((n - 1) as nat, p, q);
        assert(p(n - 1) == q(n - 1));
    }
}

/// A predicate that implies another is satisfied no more often.
pub proof fn lemma_count_monotone(n: nat, p: spec_fn(int) -> bool, q: spec_fn(int) -> bool)
    requires
        forall|i: int| 0 <= i < n && #[trigger] p(i) ==> q(i),
    ensures
        count(n, p) <= count(n, q) <= n,
    decreases n,
{
    if n > 0 {
        lemma_count_monotone((n - 1) as nat, p, q);
        assert(p(n - 1) ==> q(n - 1));
    }
}

/// A predicate that implies another, and not the other way round, is satisfied less often.
pub proof fn lemma_count_less(n: nat, p: spec_fn(int) -> bool, q: spec_fn(int) -> bool, w: int)
    requires
        forall|i: int| 0 <= i < n && #[trigger] p(i) ==> q(i),
        0 <= w < n,
        q(w),
        !p(w),
    ensures
        count(n, p) < count(n, q),
    decreases n,
{
    if w == n - 1 {
        lemma_count_monotone((n - 1) as nat, p, q);
    } else {
        lemma_count_less((n - 1) as nat, p, q, w);
        assert(p(n - 1) ==> q(n - 1));
    }
}

/// The indices that are counted form a set of that size.
proof fn lemma_count_is_len(n: nat, pred: spec_fn(int) -> bool)
    ensures
        set_int_range(0, n as int).filter(pred).finite(),
        set_int_range(0, n as int).filter(pred).len() == count(n, pred),
    decreases n,
{
    let s = set_int_range(0, n as int).filter(pred);
    if n == 0 {
        assert(s =~= Set::empty());
    } else {
        lemma_count_is_len((n - 1) as nat, pred);
        let t = set_int_range(0, n - 1).filter(pred);
        if pred(n - 1) {
            assert(s =~= t.insert(n - 1));
        } else {
            assert(s =~= t);
        }
    }
}

/// Of two members, the one that comes first has the lesser place, and places count members only.
pub proof fn lemma_places_ascend(
    n: nat,
    member: spec_fn(int) -> bool,
    before: spec_fn(int, int) -> bool,
    i: int,
    j: int,
)
    requires
        strict_total(n, member, before),
        0 <= i < n,
        0 <= j < n,
        member(i),
        member(j),
    ensures
        before(i, j) ==> place_among(n, member, before, i) < place_among(n, member, before, j),
        place_among(n, member, before, i) < count(n, member),
{
    if before(i, j) {
        lemma_count_less(
            n,
            |x: int| member(x) && before(x, i),
            |x: int| member(x) && before(x, j),
            i,
        );
    }
    lemma_count_less(n, |x: int| member(x) && before(x, i), member, i);
}

/// The places below `m` are taken, as far as there are members for them.
pub proof fn lemma_places_taken(
    n: nat,
    member: spec_fn(int) -> bool,
    before: spec_fn(int, int) -> bool,
    m: nat,
)
    requires
        strict_total(n, member, before),
    ensures
        count(n, |i: int| member(i) && place_among(n, member, before, i) < m) == if count(n, member)
            < m {
            count(n, member)
        } else {
            m
        },
        forall|k: int|
            0 <= k < count(n, member) ==> #[trigger] is_taken_among(n, member, before, k),
{
    let range = set_int_range(0, n as int);
    let all = range.filter(member);
    let total = count(n, member) as int;
    let places = set_int_range(0, total);
    let f = |i: int| place_among(n, member, before, i) as int;
    lemma_count_is_len(n, member);
    lemma_int_range(0, total);
    assert forall|a: int, b: int|
        all.contains(a) && all.contains(b) && #[trigger] f(a) == #[trigger] f(b) implies a
        == b by {
        if a != b {
            lemma_places_ascend(n, member, before, a, b);
            lemma_places_ascend(n, member, before, b, a);
        }
    }
    lemma_map_size(all, all.map(f), f);
    assert forall|x: int| all.map(f).contains(x) implies #[trigger] places.contains(x) by {
        let i = choose|i: int| all.contains(i) && f(i) == x;
        lemma_places_ascend(n, member, before, i, i);
    }
    lemma_subset_equality(all.map(f), places);
    assert forall|k: int| 0 <= k < total implies #[trigger] is_taken_among(
        n,
        member,
        before,
        k,
    ) by {
        assert(all.map(f).contains(k));
        let i = choose|i: int| all.contains(i) && f(i) == k;
        assert(place_among(n, member, before, i) == k);
    }
    let early = |i: int| member(i) && place_among(n, member, before, i) < m;
    let low = if total < m {
        total
    } else {
        m as int
    };
    let first = range.filter(early);
    lemma_count_is_len(n, early);
    lemma_int_range(0, low);
    assert(first.map(f) =~= set_int_range(0, low)) by {
        assert forall|k: int| set_int_range(0, low).contains(k) implies #[trigger] first.map(
            f,
        ).contains(k) by {
            assert(is_taken_among(n, member, before, k));
            let i = choose|i: int|
                0 <= i < n && member(i) && #[trigger] place_among(n, member, before, i) == k;
            assert(first.contains(i) && f(i) == k);
        }
        assert forall|k: int| #[trigger] first.map(f).contains(k) implies set_int_range(
            0,
            low,
        ).contains(k) by {
            let i = choose|i: int| first.contains(i) && f(i) == k;
            lemma_places_ascend(n, member, before, i, i);
        }
    }
    lemma_map_size(first, first.map(f), f);
}

/// All indices satisfy the predicate that every index satisfies.
pub proof fn lemma_count_every(n: nat)
    ensures
        count(n, every()) == n,
    decreases n,
{
    if n > 0 {
        lemma_count_every((n - 1) as nat);
    }
}

/// No index satisfies the predicate that none satisfies.
pub proof fn lemma_count_none(n: nat)
    ensures
        count(n, |j: int| false) == 0,
    decreases n,
{
    if n > 0 {
        lemma_count_none((n - 1) as nat);
    }
}

/// The indices that do not satisfy a predicate are the rest of the indices.
pub proof fn lemma_count_complement(n: nat, pred: spec_fn(int) -> bool)
    ensures
        count(n, pred) + count(n, |i: int| !pred(i)) == n,
    decreases n,
{
    if n > 0 {
        lemma_count_complement((n - 1) as nat, pred);
    }
}

/// As many indices satisfy one of two predicates as satisfy each, where none satisfies both.
pub proof fn lemma_count_disjoint(n: nat, p: spec_fn(int) -> bool, q: spec_fn(int) -> bool)
    requires
        forall|i: int| 0 <= i < n ==> !(#[trigger] p(i) && q(i)),
    ensures
        count(n, |i: int| p(i) || q(i)) == count(n, p) + count(n, q),
    decreases n,
{
    if n > 0 {
        lemma_count_disjoint((n - 1) as nat, p, q);
        assert(!(p(n - 1) && q(n - 1)));
    }
}

/// The indices below `k` are `k` in number.
pub proof fn lemma_count_below(n: nat, k: int)
    requires
        0 <= k <= n,
    ensures
        count(n, |j: int| j < k) == k,
    decreases n,
{
    if n > 0 {
        if k == n {
            lemma_count_below((n - 1) as nat, k - 1);
            lemma_count_agree((n - 1) as nat, |j: int| j < k, |j: int| j < k - 1);
        } else {
            lemma_count_below((n - 1) as nat, k);
        }
    }
}

/// Under a strict total order of all indices in `0..n`, places ascend with the order, and each
/// place in `0..n` is the place of an index.
pub proof fn lemma_places(n: nat, before: spec_fn(int, int) -> bool)
    requires
        strict_total(n, every(), before),
    ensures
        forall|i: int| 0 <= i < n ==> #[trigger] place(n, before, i) < n,
        forall|i: int, j: int|
            0 <= i < n && 0 <= j < n ==> (before(i, j) <==> #[trigger] place(n, before, i)
                < #[trigger] place(n, before, j)),
        forall|k: int| 0 <= k < n ==> #[trigger] is_taken(n, before, k),
{
    lemma_count_every(n);
    assert forall|i: int| 0 <= i < n implies #[trigger] place(n, before, i) == place_among(
        n,
        every(),
        before,
        i,
    ) by {
        lemma_count_agree(n, |j: int| before(j, i), |j: int| every()(j) && before(j, i));
    }
    assert forall|i: int| 0 <= i < n implies #[trigger] place(n, before, i) < n by {
        lemma_places_ascend(n, every(), before, i, i);
    }
    assert forall|i: int, j: int| 0 <= i < n && 0 <= j < n implies (before(i, j)
        <==> #[trigger] place(n, before, i) < #[trigger] place(n, before, j)) by {
        lemma_places_ascend(n, every(), before, i, j);
        lemma_places_ascend(n, every(), before, j, i);
        assert(i != j ==> (before(i, j) <==> !before(j, i)));
        assert(i == j ==> !before(i, i));
    }
    lemma_places_taken(n, every(), before, n);
    assert forall|k: int| 0 <= k < n implies #[trigger] is_taken(n, before, k) by {
        assert(is_taken_among(n, every(), before, k));
        let i = choose|i: int|
            0 <= i < n && every()(i) && #[trigger] place_among(n, every(), before, i) == k;
        assert(place(n, before, i) == k);
    }
}

/// The entries of a sequence without repetitions are as many as the indices that it lists.
pub proof fn lemma_count_listed(n: nat, pred: spec_fn(int) -> bool, s: Seq<int>)
    requires
        s.no_duplicates(),
        forall|x: int| #[trigger] s.contains(x) <==> (0 <= x < n && pred(x)),
    ensures
        count(n, pred) == s.len(),
    decreases n,
{
    if n == 0 {
        if s.len() > 0 {
            assert(s.contains(s[0]));
        }
    } else if pred(n - 1) {
        assert(s.contains(n - 1));
        let p = choose|p: int| 0 <= p < s.len() && s[p] == n - 1;
        let t = s.remove(p);
        assert forall|x: int| #[trigger] t.contains(x) <==> (0 <= x < n - 1 && pred(x)) by {
            if t.contains(x) {
                let k = choose|k: int| 0 <= k < t.len() && t[k] == x;
                let l = if k < p {
                    k
                } else {
                    k + 1
                };
                assert(s[l] == x && l != p);
                assert(s.contains(x));
            }
            if 0 <= x < n - 1 && pred(x) {
                assert(s.contains(x));
                let l = choose|l: int| 0 <= l < s.len() && s[l] == x;
                if l < p {
                    assert(t[l] == x);
                } else {
                    assert(t[l - 1] == x);
                }
            }
        }
        lemma_count_listed((n - 1) as nat, pred, t);
    } else {
        assert forall|x: int| #[trigger] s.contains(x) <==> (0 <= x < n - 1 && pred(x)) by {}
        lemma_count_listed((n - 1) as nat, pred, s);
    }
}

/// In a sorted list of the indices that satisfy `member`, an entry's place is the number of such
/// indices that come before it.
pub proof fn lemma_place(
    n: nat,
    member: spec_fn(int) -> bool,
    before: spec_fn(int, int) -> bool,
    s: Seq<int>,
    k: int,
)
    requires
        forall|a: int, b: int|
            0 <= a < b < s.len() ==> #[trigger] before(s[a], s[b]) && !before(s[b], s[a]),
        forall|a: int| 0 <= a < s.len() ==> !before(#[trigger] s[a], s[a]),
        forall|x: int| #[trigger] s.contains(x) <==> (0 <= x < n && member(x)),
        0 <= k < s.len(),
    ensures
        count(n, |j: int| member(j) && before(j, s[k])) == k,
{
    let pred = |j: int| member(j) && before(j, s[k]);
    let t = s.take(k);
    assert forall|a: int, b: int| 0 <= a < t.len() && 0 <= b < t.len() && a != b implies t[a]
        != t[b] by {
        if a < b {
            assert(before(s[a], s[b]));
        } else {
            assert(before(s[b], s[a]));
        }
    }
    assert forall|x: int| #[trigger] t.contains(x) <==> (0 <= x < n && pred(x)) by {
        if t.contains(x) {
            let a = choose|a: int| 0 <= a < t.len() && t[a] == x;
            assert(s[a] == x);
            assert(s.contains(x));
            assert(before(s[a], s[k]));
        }
        if 0 <= x < n && pred(x) {
            assert(s.contains(x));
            let a = choose|a: int| 0 <= a < s.len() && s[a] == x;
            if a > k {
                assert(before(s[k], s[a]));
            }
            assert(t[a] == x);
        }
    }
    lemma_count_listed(n, pred, t);
}

/// The indices in `0..n` that satisfy `pred`, in ascending order.
pub open spec fn select(n: nat, pred: spec_fn(int) -> bool) -> Seq<int>
    decreases n,
{
    if n == 0 {
        seq![]
    } else if pred(n - 1) {
        select((n - 1) as nat, pred).push(n - 1)
    } else {
        select((n - 1) as nat, pred)
    }
}

/// A selection is ascending and holds the indices that satisfy its predicate.
pub proof fn lemma_select(n: nat, pred: spec_fn(int) -> bool)
    ensures
        select(n, pred).len() == count(n, pred),
        forall|x: int| #[trigger] select(n, pred).contains(x) <==> (0 <= x < n && pred(x)),
        forall|a: int, b: int|
            0 <= a < b < select(n, pred).len() ==> #[trigger] select(n, pred)[a]
                < #[trigger] select(n, pred)[b],
        forall|a: int|
            0 <= a < select(n, pred).len() ==> 0 <= #[trigger] select(n, pred)[a] < n && pred(
                select(n, pred)[a],
            ),
    decreases n,
{
    let s = select(n, pred);
    if n > 0 {
        let t = select((n - 1) as nat, pred);
        lemma_select((n - 1) as nat, pred);
        if pred(n - 1) {
            assert forall|x: int| #[trigger] s.contains(x) <==> (0 <= x < n && pred(x)) by {
                if s.contains(x) {
                    let a = choose|a: int| 0 <= a < s.len() && s[a] == x;
                    if a < t.len() {
                        assert(t[a] == x);
                        assert(t.contains(x));
                    }
                }
                if 0 <= x < n && pred(x) {
                    if x == n - 1 {
                        assert(s[t.len() as int] == x);
                    } else {
                        assert(t.contains(x));
                        let a = choose|a: int| 0 <= a < t.len() && t[a] == x;
                        assert(s[a] == x);
                    }
                }
            }
        }
    }
}

/// Predicates that agree on the indices in `0..n` select the same indices.
pub proof fn lemma_select_agree(n: nat, p: spec_fn(int) -> bool, q: spec_fn(int) -> bool)
    requires
        forall|i: int| 0 <= i < n ==> #[trigger] p(i) == q(i),
    ensures
        select(n, p) == select(n, q),
    decreases n,
{
    if n > 0 {
        lemma_select_agree((n - 1) as nat, p, q);
        assert(p(n - 1) == q(n - 1));
    }
}

/// All indices in `0..n` are selected by the predicate that every index satisfies.
pub proof fn lemma_select_every(n: nat)
    ensures
        select(n, every()) == Seq::new(n, |i: int| i),
    decreases n,
{
    if n > 0 {
        lemma_select_every((n - 1) as nat);
    }
    assert(select(n, every()) =~= Seq::new(n, |i: int| i));
}

/// Whether `source` lists each of the indices below `n` once.
pub open spec fn lists_all(source: Seq<int>, n: nat) -> bool {
    &&& source.len() == n
    &&& source.no_duplicates()
    &&& forall|k: int| 0 <= k < n ==> 0 <= #[trigger] source[k] < n
}

/// A list of all indices below `n` leaves none out.
pub proof fn lemma_lists_all(source: Seq<int>, n: nat)
    requires
        lists_all(source, n),
    ensures
        forall|x: int| 0 <= x < n ==> #[trigger] source.contains(x),
{
    let range = set_int_range(0, n as int);
    lemma_int_range(0, n as int);
    source.unique_seq_to_set();
    assert(source.to_set().subset_of(range)) by {
        assert forall|x: int| #[trigger] source.to_set().contains(x) implies range.contains(x) by {
            let k = choose|k: int| 0 <= k < source.len() && source[k] == x;
            assert(0 <= source[k] < n);
        }
    }
    lemma_subset_equality(source.to_set(), range);
    assert forall|x: int| 0 <= x < n implies #[trigger] source.contains(x) by {
        assert(range.contains(x));
        assert(source.to_set().contains(x));
    }
}

/// The order in which indices are listed makes no difference to how many satisfy a predicate.
pub proof fn lemma_count_permuted(n: nat, source: Seq<int>, pred: spec_fn(int) -> bool)
    requires
        lists_all(source, n),
    ensures
        count(n, |k: int| pred(source[k])) == count(n, pred),
{
    let permuted = |k: int| pred(source[k]);
    let s = select(n, permuted);
    let t = s.map_values(|k: int| source[k]);
    lemma_select(n, permuted);
    lemma_lists_all(source, n);
    assert forall|a: int, b: int| 0 <= a < b < t.len() implies #[trigger] t[a]
        != #[trigger] t[b] by {
        assert(s[a] < s[b]);
        assert(source[s[a]] != source[s[b]]);
    }
    assert forall|x: int| #[trigger] t.contains(x) <==> (0 <= x < n && pred(x)) by {
        if t.contains(x) {
            let a = choose|a: int| 0 <= a < t.len() && t[a] == x;
            assert(permuted(s[a]));
            assert(0 <= source[s[a]] < n);
        }
        if 0 <= x < n && pred(x) {
            assert(source.contains(x));
            let k = choose|k: int| 0 <= k < source.len() && source[k] == x;
            assert(permuted(k));
            assert(s.contains(k));
            let a = choose|a: int| 0 <= a < s.len() && s[a] == k;
            assert(t[a] == x);
        }
    }
    lemma_count_listed(n, pred, t);
}

/// Merges two sorted lists without a common entry.
fn merge<O: IndexOrder>(left: &Vec<usize>, right: &Vec<usize>, order: &O) -> (res: Vec<usize>)
    requires
        all_covered(order, left@),
        all_covered(order, right@),
        in_order(order, left@),
        in_order(order, right@),
        forall|a: int, b: int|
            0 <= a < left@.len() && 0 <= b < right@.len() ==> #[trigger] left@[a]
                != #[trigger] right@[b],
    ensures
        all_covered(order, res@),
        in_order(order, res@),
        same_members(res@, left@ + right@),
        res@.len() == left@.len() + right@.len(),
{
    let mut out: Vec<usize> = Vec::new();
    let mut i: usize = 0;
    let mut j: usize = 0;
    while i < left.len() || j < right.len()
        invariant
            i <= left@.len(),
            j <= right@.len(),
            all_covered(order, left@),
            all_covered(order, right@),
            in_order(order, left@),
            in_order(order, right@),
            forall|a: int, b: int|
                0 <= a < left@.len() && 0 <= b < right@.len() ==> #[trigger] left@[a]
                    != #[trigger] right@[b],
            out@.len() == i + j,
            all_covered(order, out@),
            in_order(order, out@),
            forall|a: int, b: int|
                0 <= a < out@.len() && i <= b < left@.len() ==> order.before(
                    #[trigger] out@[a] as int,
                    #[trigger] left@[b] as int,
                ),
            forall|a: int, b: int|
                0 <= a < out@.len() && j <= b < right@.len() ==> order.before(
                    #[trigger] out@[a] as int,
                    #[trigger] right@[b] as int,
                ),
            forall|a: int| 0 <= a < i ==> out@.contains(#[trigger] left@[a]),
            forall|b: int| 0 <= b < j ==> out@.contains(#[trigger] right@[b]),
            forall|k: int|
                0 <= k < out@.len() ==> left@.contains(#[trigger] out@[k]) || right@.contains(
                    out@[k],
                ),
        decreases left@.len() - i + right@.len() - j,
    {
        let ghost before = out@;
        let take_left = if j >= right.len() {
            true
        } else if i >= left.len() {
            false
        } else {
            order.precedes(left[i], right[j])
        };
        if take_left {
            proof {
                if j < right@.len() {
                    assert forall|b: int| j <= b < right@.len() implies order.before(
                        left@[i as int] as int,
                        #[trigger] right@[b] as int,
                    ) by {
                        if b > j {
                            order.lemma_transitive(
                                left@[i as int] as int,
                                right@[j as int] as int,
                                right@[b] as int,
                            );
                        }
                    }
                }
            }
            out.push(left[i]);
            i += 1;
        } else {
            proof {
                if i < left@.len() {
                    order.lemma_strict(left@[i as int] as int, right@[j as int] as int);
                    assert forall|a: int| i <= a < left@.len() implies order.before(
                        right@[j as int] as int,
                        #[trigger] left@[a] as int,
                    ) by {
                        if a > i {
                            order.lemma_transitive(
                                right@[j as int] as int,
                                left@[i as int] as int,
                                left@[a] as int,
                            );
                        }
                    }
                }
            }
            out.push(right[j]);
            j += 1;
        }
        proof {
            assert(out@[before.len() as int] == out@.last());
            assert forall|x: usize| before.contains(x) implies #[trigger] out@.contains(x) by {
                let k = choose|k: int| 0 <= k < before.len() && before[k] == x;
                assert(out@[k] == x);
            }
        }
    }
    proof {
        assert forall|x: usize| #[trigger] out@.contains(x) <==> (left@ + right@).contains(x) by {
            if out@.contains(x) {
                let k = choose|k: int| 0 <= k < out@.len() && out@[k] == x;
                if left@.contains(x) {
                    let a = choose|a: int| 0 <= a < left@.len() && left@[a] == x;
                    assert((left@ + right@)[a] == x);
                } else {
                    let b = choose|b: int| 0 <= b < right@.len() && right@[b] == x;
                    assert((left@ + right@)[left@.len() + b] == x);
                }
            }
            if (left@ + right@).contains(x) {
                let k = choose|k: int|
                    0 <= k < (left@ + right@).len() && (left@ + right@)[k] == x;
                if k < left@.len() {
                    assert(left@[k] == x);
                } else {
                    assert(right@[k - left@.len()] == x);
                }
            }
        }
    }
    out
}

/// Sorts a list of distinct indices.
pub fn sort_indices<O: IndexOrder>(items: Vec<usize>, order: &O) -> (res: Vec<usize>)
    requires
        all_covered(order, items@),
        items@.no_duplicates(),
    ensures
        all_covered(order, res@),
        in_order(order, res@),
        same_members(res@, items@),
        res@.len() == items@.len(),
    decreases items@.len(),
{
    if items.len() <= 1 {
        return items;
    }
    let ghost all = items@;
    let mid: usize = items.len() / 2;
    let mut left = items;
    let right = left.split_off(mid);
    proof {
        assert(all =~= left@ + right@);
        assert forall|a: int, b: int|
            0 <= a < left@.len() && 0 <= b < right@.len() implies #[trigger] left@[a]
            != #[trigger] right@[b] by {
            assert(all[a] != all[mid + b]);
        }
        assert forall|k: int| 0 <= k < left@.len() implies order.covers(
            #[trigger] left@[k] as int,
        ) by {
            assert(order.covers(all[k] as int));
        }
        assert forall|k: int| 0 <= k < right@.len() implies order.covers(
            #[trigger] right@[k] as int,
        ) by {
            assert(order.covers(all[mid + k] as int));
        }
    }
    let ghost l0 = left@;
    let ghost r0 = right@;
    let left = sort_indices(left, order);
    let right = sort_indices(right, order);
    proof {
        assert forall|a: int, b: int|
            0 <= a < left@.len() && 0 <= b < right@.len() implies #[trigger] left@[a]
            != #[trigger] right@[b] by {
            assert(left@.contains(left@[a]));
            assert(right@.contains(right@[b]));
            assert(l0.contains(left@[a]));
            assert(r0.contains(right@[b]));
        }
    }
    let res = merge(&left, &right, order);
    proof {
        assert forall|x: usize| #[trigger] res@.contains(x) <==> all.contains(x) by {
            lemma_contains_concat(left@, right@, x);
            lemma_contains_concat(l0, r0, x);
            assert(left@.contains(x) <==> l0.contains(x));
            assert(right@.contains(x) <==> r0.contains(x));
        }
    }
    res
}

/// In a sorted list of all indices below `n`, the place of an index is the number of indices that
/// come before it.
pub proof fn lemma_sorted_place<O: IndexOrder>(
    order: &O,
    n: nat,
    before: spec_fn(int, int) -> bool,
    sorted: Seq<usize>,
    i: int,
)
    requires
        all_covered(order, sorted),
        in_order(order, sorted),
        forall|x: usize| #[trigger] sorted.contains(x) <==> x < n,
        n <= usize::MAX,
        forall|a: int, b: int|
            0 <= a < n && 0 <= b < n ==> #[trigger] before(a, b) == order.before(a, b),
        0 <= i < n,
    ensures
        place(n, before, i) < sorted.len(),
        sorted[place(n, before, i) as int] == i,
{
    let s = sorted.map_values(|x: usize| x as int);
    let member = |j: int| true;
    assert forall|x: int| #[trigger] s.contains(x) <==> (0 <= x < n && member(x)) by {
        if s.contains(x) {
            let a = choose|a: int| 0 <= a < s.len() && s[a] == x;
            assert(sorted.contains(sorted[a]));
        }
        if 0 <= x < n {
            assert(sorted.contains(x as usize));
            let a = choose|a: int| 0 <= a < sorted.len() && sorted[a] == x as usize;
            assert(s[a] == x);
        }
    }
    assert forall|a: int| 0 <= a < s.len() implies 0 <= #[trigger] s[a] < n && !before(
        s[a],
        s[a],
    ) by {
        assert(s.contains(s[a]));
        order.lemma_strict(sorted[a] as int, sorted[a] as int);
    }
    assert forall|a: int, b: int| 0 <= a < b < s.len() implies #[trigger] before(s[a], s[b])
        && !before(s[b], s[a]) by {
        order.lemma_strict(sorted[a] as int, sorted[b] as int);
        order.lemma_strict(sorted[b] as int, sorted[a] as int);
        assert(s[a] != s[b]);
    }
    assert(s.contains(i));
    let k = choose|k: int| 0 <= k < s.len() && s[k] == i;
    lemma_place(n, member, before, s, k);
    lemma_count_agree(n, |j: int| member(j) && before(j, s[k]), |j: int| before(j, i));
}

/// Puts items in the order that a list of their indices gives.
pub fn rearrange<T>(items: Vec<T>, order: &Vec<usize>) -> (res: Vec<T>)
    requires
        order@.len() == items@.len(),
        order@.no_duplicates(),
        forall|k: int| 0 <= k < order@.len() ==> #[trigger] order@[k] < items@.len(),
    ensures
        res@.len() == items@.len(),
        forall|k: int| 0 <= k < res@.len() ==> #[trigger] res@[k] == items@[order@[k] as int],
{
    let ghost all = items@;
    let mut slots: Vec<Option<T>> = Vec::new();
    for item in it: items
        invariant
            it.seq() == all,
            slots@.len() == it.index(),
            forall|k: int| 0 <= k < slots@.len() ==> #[trigger] slots@[k] == Some(all[k]),
    {
        slots.push(Some(item));
    }
    let mut res: Vec<T> = Vec::new();
    let mut k: usize = 0;
    while k < order.len()
        invariant
            k <= order@.len(),
            order@.len() == all.len(),
            slots@.len() == all.len(),
            order@.no_duplicates(),
            forall|a: int| 0 <= a < order@.len() ==> #[trigger] order@[a] < all.len(),
            forall|a: int|
                k <= a < order@.len() ==> slots@[#[trigger] order@[a] as int] == Some(
                    all[order@[a] as int],
                ),
            res@.len() == k,
            forall|a: int| 0 <= a < k ==> #[trigger] res@[a] == all[order@[a] as int],
        decreases order@.len() - k,
    {
        let at: usize = order[k];
        let ghost before = slots@;
        let slot = &mut slots[at];
        let item = slot.take();
        res.push(item.unwrap());
        proof {
            assert forall|a: int|
                k + 1 <= a < order@.len() implies slots@[#[trigger] order@[a] as int]
                == Some(all[order@[a] as int]) by {
                assert(order@[a] != order@[k as int]);
                assert(slots@[order@[a] as int] == before[order@[a] as int]);
            }
        }
        k += 1;
    }
    res
}

/// The indices below `n`, in ascending order.
pub fn all_indices(n: usize) -> (res: Vec<usize>)
    ensures
        res@.len() == n,
        forall|k: int| 0 <= k < n ==> #[trigger] res@[k] == k,
        res@.no_duplicates(),
        forall|x: usize| #[trigger] res@.contains(x) <==> x < n,
{
    let mut res: Vec<usize> = Vec::new();
    let mut i: usize = 0;
    while i < n
        invariant
            i <= n,
            res@.len() == i,
            forall|k: int| 0 <= k < i ==> #[trigger] res@[k] == k,
        decreases n - i,
    {
        res.push(i);
        i += 1;
    }
    proof {
        assert forall|x: usize| x < n implies #[trigger] res@.contains(x) by {
            assert(res@[x as int] == x);
        }
    }
    res
}

/// Decides whether a list holds an index.
pub fn holds(items: &Vec<usize>, index: usize) -> (res: bool)
    ensures
        res == items@.contains(index),
{
    let mut i: usize = 0;
    while i < items.len()
        invariant
            i <= items@.len(),
            forall|k: int| 0 <= k < i ==> items@[k] != index,
        decreases items@.len() - i,
    {
        if items[i] == index {
            assert(items@[i as int] == index);
            return true;
        }
        i += 1;
    }
    false
}

/// A concatenation holds what either part holds.
proof fn lemma_contains_concat(s: Seq<usize>, t: Seq<usize>, x: usize)
    ensures
        (s + t).contains(x) <==> s.contains(x) || t.contains(x),
{
    if s.contains(x) {
        let a = choose|a: int| 0 <= a < s.len() && s[a] == x;
        assert((s + t)[a] == x);
    }
    if t.contains(x) {
        let b = choose|b: int| 0 <= b < t.len() && t[b] == x;
        assert((s + t)[s.len() + b] == x);
    }
    if (s + t).contains(x) {
        let k = choose|k: int| 0 <= k < (s + t).len() && (s + t)[k] == x;
        if k < s.len() {
            assert(s[k] == x);
        } else {
            assert(t[k - s.len()] == x);
        }
    }
}

} // verus!
