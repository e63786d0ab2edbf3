use std::collections::HashSet;

use itertools::Itertools;
use vstd::prelude::*;

use crate::relation_matrix::{is_shape, RelationMatrix};

verus! {

broadcast use vstd::std_specs::hash::group_hash_axioms;

/// The set `{0, ..., n - 1}`.
pub open spec fn range_set(n: nat) -> Set<u64> {
    Set::new(|x: u64| x < n)
}

/// Every element of `a` is related to itself.
pub open spec fn reflexive_on(a: Set<u64>, r: Seq<(u64, u64)>) -> bool {
    forall|x: u64| a.contains(x) ==> #[trigger] r.contains((x, x))
}

pub open spec fn symmetric(r: Seq<(u64, u64)>) -> bool {
    forall|x: u64, y: u64| #[trigger] r.contains((x, y)) ==> r.contains((y, x))
}

pub open spec fn transitive(r: Seq<(u64, u64)>) -> bool {
    forall|x: u64, y: u64, z: u64|
        #[trigger] r.contains((x, y)) && #[trigger] r.contains((y, z)) ==> r.contains((x, z))
}

pub open spec fn equivalence(a: Set<u64>, r: Seq<(u64, u64)>) -> bool {
    reflexive_on(a, r) && symmetric(r) && transitive(r)
}

/// The elements of `a` that `x` is related to.
pub open spec fn class_of(a: Set<u64>, r: Seq<(u64, u64)>, x: u64) -> Set<u64> {
    Set::new(|y: u64| a.contains(y) && r.contains((x, y)))
}

/// No member of the class of `y` is below `y`.
pub open spec fn least_in_class(a: Set<u64>, r: Seq<(u64, u64)>, y: u64) -> bool {
    forall|z: u64| class_of(a, r, y).contains(z) ==> y <= z
}

/// Some class of `q` holds `y`.
pub open spec fn in_some_class(q: Seq<(u64, Vec<u64>)>, y: u64) -> bool {
    exists|t: int| 0 <= t < q.len() && (#[trigger] q[t].1@).contains(y)
}

/// `q` lists the classes of `rel` on `a`: each keyed by a member `k` of `a`, which is the
/// least of its members, ascending, and the members being the class of `k`; keys ascend,
/// and each element of `a` is in some class.
pub open spec fn is_quotient(a: Set<u64>, rel: Seq<(u64, u64)>, q: Seq<(u64, Vec<u64>)>) -> bool {
    &&& forall|t: int|
        0 <= t < q.len() ==> {
            &&& a.contains(#[trigger] q[t].0)
            &&& strictly_increasing(q[t].1@)
            &&& q[t].1@.len() > 0
            &&& q[t].0 == q[t].1@[0]
            &&& forall|y: u64| q[t].1@.contains(y) <==> class_of(a, rel, q[t].0).contains(y)
        }
    &&& forall|t: int, u: int| 0 <= t < u < q.len() ==> q[t].0 < q[u].0
    &&& forall|x: u64| a.contains(x) ==> in_some_class(q, x)
}

pub open spec fn strictly_increasing(s: Seq<u64>) -> bool {
    forall|i: int, j: int| 0 <= i < j < s.len() ==> s[i] < s[j]
}

/// Lexicographic order on pairs.
pub open spec fn pair_lt(p: (u64, u64), q: (u64, u64)) -> bool {
    p.0 < q.0 || (p.0 == q.0 && p.1 < q.1)
}

pub open spec fn pairs_ascending(s: Seq<(u64, u64)>) -> bool {
    forall|i: int, j: int| 0 <= i < j < s.len() ==> pair_lt(s[i], s[j])
}

/// The zero-one matrix of `rel` with `rows` rows and `cols` columns: entry (i, j) tells
/// whether the pair `(i, j)` is present.
pub open spec fn zero_one_of(rel: Seq<(u64, u64)>, rows: nat, cols: nat) -> Seq<Seq<bool>> {
    Seq::new(rows, |i: int| Seq::new(cols, |j: int| rel.contains((i as u64, j as u64))))
}

/// The pair `p` stands at a `true` entry of `m`, which has `cols` columns.
pub open spec fn entry_pair(m: Seq<Seq<bool>>, cols: nat, p: (u64, u64)) -> bool {
    p.0 < m.len() && p.1 < cols && m[p.0 as int][p.1 as int]
}

/// The members of the reflexive closure of `rel`, on a domain `a` of `n` elements.
pub open spec fn in_reflexive_closure(a: Set<u64>, rel: Seq<(u64, u64)>, n: nat, p: (u64, u64)) -> bool {
    p.0 < n && p.1 < n && (rel.contains(p) || (p.0 == p.1 && a.contains(p.0)))
}

/// The members of the symmetric closure of `rel`, on a domain of `n` elements.
pub open spec fn in_symmetric_closure(rel: Seq<(u64, u64)>, n: nat, p: (u64, u64)) -> bool {
    p.0 < n && p.1 < n && (rel.contains(p) || rel.contains((p.1, p.0)))
}

/// `w` is a walk of `k` steps of `rel` from `x` to `y`: `k + 1` vertices, each pair of
/// neighbours present in `rel`.
pub open spec fn is_walk(rel: Seq<(u64, u64)>, w: Seq<u64>, x: u64, y: u64, k: nat) -> bool {
    &&& w.len() == k + 1
    &&& w[0] == x
    &&& w[k as int] == y
    &&& forall|i: int| 0 <= i < k ==> #[trigger] rel.contains((w[i], w[i + 1]))
}

/// `x` reaches `y` in exactly `k` steps of `rel`, for `k >= 1`.
pub open spec fn path(rel: Seq<(u64, u64)>, x: u64, y: u64, k: nat) -> bool {
    k >= 1 && exists|w: Seq<u64>| #[trigger] is_walk(rel, w, x, y, k)
}

/// `x` reaches `y` in at least one and at most `m` steps of `rel`.
pub open spec fn reach_within(rel: Seq<(u64, u64)>, x: u64, y: u64, m: nat) -> bool {
    exists|k: nat| 1 <= k <= m && #[trigger] path(rel, x, y, k)
}

/// One step of `rel` after a pair of `s` leads to `p`.
pub open spec fn one_more_step(s: Seq<(u64, u64)>, rel: Seq<(u64, u64)>, p: (u64, u64)) -> bool {
    exists|z: u64| #[trigger] s.contains((p.0, z)) && rel.contains((z, p.1))
}

/// Warshall's step for the intermediate index `k`: an entry becomes `true` where row `k`
/// reaches its column and its row reaches `k`.
pub open spec fn warshall_step(m: Seq<Seq<bool>>, k: int) -> Seq<Seq<bool>> {
    Seq::new(m.len(), |i: int| Seq::new(m[i].len(), |j: int| m[i][j] || (m[i][k] && m[k][j])))
}

/// `m` after Warshall's steps for the intermediate indices `0, ..., k - 1`.
pub open spec fn warshall(m: Seq<Seq<bool>>, k: nat) -> Seq<Seq<bool>>
    decreases k,
{
    if k == 0 {
        m
    } else {
        warshall_step(warshall(m, (k - 1) as nat), k - 1)
    }
}

pub proof fn lemma_reach_one(rel: Seq<(u64, u64)>, x: u64, y: u64)
    ensures
        reach_within(rel, x, y, 1) <==> rel.contains((x, y)),
{
    if rel.contains((x, y)) {
        let w = seq![x, y];
        assert(is_walk(rel, w, x, y, 1));
        assert(path(rel, x, y, 1));
    }
    if reach_within(rel, x, y, 1) {
        let k = choose|k: nat| 1 <= k <= 1 && #[trigger] path(rel, x, y, k);
        let w = choose|w: Seq<u64>| #[trigger] is_walk(rel, w, x, y, k);
        let i: int = 0;
        assert(k == 1);
        assert(rel.contains((w[i], w[i + 1])));
        assert(w[i + 1] == y);
    }
}

/// A walk of `k` steps to `z`, then a step from `z` to `y`, is a walk of `k + 1` steps.
proof fn lemma_path_push(rel: Seq<(u64, u64)>, x: u64, z: u64, y: u64, k: nat)
    requires
        path(rel, x, z, k),
        rel.contains((z, y)),
    ensures
        path(rel, x, y, k + 1),
{
    let w = choose|w: Seq<u64>| #[trigger] is_walk(rel, w, x, z, k);
    let w2 = w.push(y);
    assert forall|i: int| 0 <= i < k + 1 implies #[trigger] rel.contains((w2[i], w2[i + 1])) by {
        if i < k {
            assert(rel.contains((w[i], w[i + 1])));
        }
    }
    assert(is_walk(rel, w2, x, y, k + 1));
}

/// A walk of `k + 1` steps ends with a step from the end of a walk of `k` steps.
proof fn lemma_path_pop(rel: Seq<(u64, u64)>, x: u64, y: u64, k: nat) -> (z: u64)
    requires
        k >= 1,
        path(rel, x, y, k + 1),
    ensures
        path(rel, x, z, k),
        rel.contains((z, y)),
{
    let w = choose|w: Seq<u64>| #[trigger] is_walk(rel, w, x, y, k + 1);
    let w1 = w.drop_last();
    let z = w[k as int];
    assert forall|i: int| 0 <= i < k implies #[trigger] rel.contains((w1[i], w1[i + 1])) by {
        assert(rel.contains((w[i], w[i + 1])));
    }
    assert(is_walk(rel, w1, x, z, k));
    assert(rel.contains((w[k as int], w[k as int + 1])));
    z
}

/// Pairs within `d + 1` steps are those within `d` steps, and those one step beyond.
pub proof fn lemma_reach_extend(rel: Seq<(u64, u64)>, s: Seq<(u64, u64)>, d: nat, p: (u64, u64))
    requires
        d >= 1,
        forall|q: (u64, u64)| s.contains(q) <==> reach_within(rel, q.0, q.1, d),
    ensures
        (s.contains(p) || one_more_step(s, rel, p)) <==> reach_within(rel, p.0, p.1, d + 1),
{
    if s.contains(p) {
        let k = choose|k: nat| 1 <= k <= d && #[trigger] path(rel, p.0, p.1, k);
        assert(path(rel, p.0, p.1, k));
    }
    if one_more_step(s, rel, p) {
        let z = choose|z: u64| #[trigger] s.contains((p.0, z)) && rel.contains((z, p.1));
        assert(reach_within(rel, p.0, z, d));
        let k = choose|k: nat| 1 <= k <= d && #[trigger] path(rel, p.0, z, k);
        lemma_path_push(rel, p.0, z, p.1, k);
        assert(path(rel, p.0, p.1, k + 1));
    }
    if reach_within(rel, p.0, p.1, d + 1) {
        let k = choose|k: nat| 1 <= k <= d + 1 && #[trigger] path(rel, p.0, p.1, k);
        if k <= d {
            assert(reach_within(rel, p.0, p.1, d));
        } else {
            let z = lemma_path_pop(rel, p.0, p.1, d);
            assert(reach_within(rel, p.0, z, d));
            assert(s.contains((p.0, z)));
        }
    }
}

/// The reflexive closure of a relation on `{0, ..., n - 1}` is reflexive.
pub proof fn lemma_reflexive_closure_is_reflexive(
    a: Set<u64>,
    rel: Seq<(u64, u64)>,
    closure: Seq<(u64, u64)>,
)
    requires
        a == range_set(a.len()),
        forall|p: (u64, u64)| closure.contains(p) <==> in_reflexive_closure(a, rel, a.len(), p),
    ensures
        reflexive_on(range_set(a.len()), closure),
{
    assert forall|x: u64| range_set(a.len()).contains(x) implies #[trigger] closure.contains((x, x)) by {
        assert(in_reflexive_closure(a, rel, a.len(), (x, x)));
    }
}

/// The symmetric closure of a relation is symmetric.
pub proof fn lemma_symmetric_closure_is_symmetric(
    rel: Seq<(u64, u64)>,
    n: nat,
    closure: Seq<(u64, u64)>,
)
    requires
        forall|p: (u64, u64)| closure.contains(p) <==> in_symmetric_closure(rel, n, p),
    ensures
        symmetric(closure),
{
    assert forall|x: u64, y: u64| #[trigger] closure.contains((x, y)) implies closure.contains((y, x)) by {
        assert(in_symmetric_closure(rel, n, (x, y)));
        assert(in_symmetric_closure(rel, n, (y, x)));
    }
}

/// For an equivalence relation, the classes of its quotient cover its domain, hold nothing
/// else, and no two of them share a member.
pub proof fn lemma_quotient_partition(a: Set<u64>, rel: Seq<(u64, u64)>, q: Seq<(u64, Vec<u64>)>)
    requires
        equivalence(a, rel),
        is_quotient(a, rel, q),
    ensures
        forall|x: u64| a.contains(x) <==> in_some_class(q, x),
        forall|t: int, u: int, y: u64|
            0 <= t < u < q.len() ==> !(#[trigger] q[t].1@.contains(y) && #[trigger] q[u].1@.contains(y)),
{
    assert forall|x: u64| in_some_class(q, x) implies a.contains(x) by {
        let t = choose|t: int| 0 <= t < q.len() && (#[trigger] q[t].1@).contains(x);
        assert(class_of(a, rel, q[t].0).contains(x));
    }
    assert forall|t: int, u: int, y: u64|
        0 <= t < u < q.len() implies !(#[trigger] q[t].1@.contains(y) && #[trigger] q[u].1@.contains(y)) by {
        if q[t].1@.contains(y) && q[u].1@.contains(y) {
            let rt = q[t].0;
            let ru = q[u].0;
            assert(class_of(a, rel, rt).contains(y));
            assert(class_of(a, rel, ru).contains(y));
            assert(rel.contains((ru, y)));
            assert(rel.contains((y, ru)));
            assert(rel.contains((rt, ru)));
            assert(rel.contains((ru, rt)));
            assert(a.contains(rt));
            assert(class_of(a, rel, ru).contains(rt));
            assert(q[u].1@.contains(rt));
            let k = choose|k: int| 0 <= k < q[u].1@.len() && q[u].1@[k] == rt;
            assert(k == 0 || q[u].1@[0] < q[u].1@[k]);
            assert(ru <= rt);
        }
    }
}

/// Where the domain and codomain are `{0, ..., n - 1}` and `{0, ..., m - 1}` and hold the
/// pairs, turning the zero-one matrix back into a relation gives the same pairs.
pub proof fn lemma_round_trip(
    a: Set<u64>,
    b: Set<u64>,
    rel: Seq<(u64, u64)>,
    back: Seq<(u64, u64)>,
)
    requires
        a == range_set(a.len()),
        b == range_set(b.len()),
        forall|p: (u64, u64)| rel.contains(p) ==> a.contains(p.0) && b.contains(p.1),
        forall|p: (u64, u64)|
            back.contains(p) <==> entry_pair(zero_one_of(rel, a.len(), b.len()), b.len(), p),
    ensures
        forall|p: (u64, u64)| back.contains(p) <==> rel.contains(p),
{
    assert forall|p: (u64, u64)| back.contains(p) <==> rel.contains(p) by {
        if rel.contains(p) {
            assert(a.contains(p.0) && b.contains(p.1));
        }
        assert(p == (p.0 as int as u64, p.1 as int as u64));
    }
}

/// Every pair of `rel` lies in `a` by `a`.
pub open spec fn pairs_within(a: Set<u64>, rel: Seq<(u64, u64)>) -> bool {
    forall|p: (u64, u64)| #[trigger] rel.contains(p) ==> a.contains(p.0) && a.contains(p.1)
}

/// A walk of `k1` steps followed by one of `k2` steps is a walk of `k1 + k2` steps.
proof fn lemma_path_concat(rel: Seq<(u64, u64)>, x: u64, y: u64, z: u64, k1: nat, k2: nat)
    requires
        path(rel, x, y, k1),
        path(rel, y, z, k2),
    ensures
        path(rel, x, z, k1 + k2),
{
    let w1 = choose|w: Seq<u64>| #[trigger] is_walk(rel, w, x, y, k1);
    let w2 = choose|w: Seq<u64>| #[trigger] is_walk(rel, w, y, z, k2);
    let w = w1 + w2.subrange(1, k2 as int + 1);
    assert forall|i: int| 0 <= i < k1 + k2 implies #[trigger] rel.contains((w[i], w[i + 1])) by {
        if i < k1 {
            assert(rel.contains((w1[i], w1[i + 1])));
        } else {
            let t = i - k1;
            assert(rel.contains((w2[t], w2[t + 1])));
        }
    }
    assert(is_walk(rel, w, x, z, k1 + k2));
}

/// Where the pairs of `rel` lie in a finite `a`, a walk from `x` to `y` of at least one
/// step can be cut down to at most as many steps as `a` has elements.
proof fn lemma_walk_shorten(a: Set<u64>, rel: Seq<(u64, u64)>, x: u64, y: u64, k: nat) -> (k2: nat)
    requires
        a.finite(),
        pairs_within(a, rel),
        path(rel, x, y, k),
    ensures
        1 <= k2 <= a.len(),
        k2 <= k,
        path(rel, x, y, k2),
    decreases k,
{
    if k <= a.len() {
        return k;
    }
    let w = choose|w: Seq<u64>| #[trigger] is_walk(rel, w, x, y, k);
    let tail = w.subrange(1, k as int + 1);
    assert(!tail.no_duplicates()) by {
        if tail.no_duplicates() {
            tail.unique_seq_to_set();
            assert forall|v: u64| tail.to_set().contains(v) implies a.contains(v) by {
                let t = choose|t: int| 0 <= t < tail.len() && tail[t] == v;
                assert(rel.contains((w[t], w[t + 1])));
            }
            vstd::set_lib::lemma_len_subset(tail.to_set(), a);
        }
    }
    let (i, j) = choose|i: int, j: int|
        0 <= i < tail.len() && 0 <= j < tail.len() && i != j && tail[i] == tail[j];
    let lo = if i < j { i } else { j };
    let hi = if i < j { j } else { i };
    let w2 = w.subrange(0, lo + 2) + w.subrange(hi + 2, k as int + 1);
    let k2: nat = (k - (hi - lo)) as nat;
    assert(w[lo + 1] == w[hi + 1]);
    assert forall|t: int| 0 <= t < k2 implies #[trigger] rel.contains((w2[t], w2[t + 1])) by {
        if t <= lo {
            assert(rel.contains((w[t], w[t + 1])));
        } else {
            let s = t + (hi - lo);
            assert(rel.contains((w[s], w[s + 1])));
        }
    }
    assert(is_walk(rel, w2, x, y, k2));
    lemma_walk_shorten(a, rel, x, y, k2)
}

/// Where the pairs lie in the domain, the pairs that `transitive_closure` returns form a
/// transitive relation.
pub proof fn lemma_transitive_closure_is_transitive(
    a: Set<u64>,
    rel: Seq<(u64, u64)>,
    closure: Seq<(u64, u64)>,
)
    requires
        a.finite(),
        pairs_within(a, rel),
        forall|p: (u64, u64)|
            closure.contains(p) <==> reach_within(
                rel,
                p.0,
                p.1,
                if a.len() > 1 {
                    a.len()
                } else {
                    1
                },
            ),
    ensures
        transitive(closure),
{
    let m: nat = if a.len() > 1 {
        a.len()
    } else {
        1
    };
    assert forall|x: u64, y: u64, z: u64|
        #[trigger] closure.contains((x, y)) && #[trigger] closure.contains((y, z)) implies closure.contains(
        (x, z),
    ) by {
        assert(reach_within(rel, x, y, m));
        assert(reach_within(rel, y, z, m));
        let k1 = choose|k: nat| 1 <= k <= m && #[trigger] path(rel, x, y, k);
        let k2 = choose|k: nat| 1 <= k <= m && #[trigger] path(rel, y, z, k);
        lemma_path_concat(rel, x, y, z, k1, k2);
        let k = lemma_walk_shorten(a, rel, x, z, k1 + k2);
        assert(reach_within(rel, x, z, m));
    }
}

/// Every vertex of `w` strictly between its ends is below `k`.
pub open spec fn interior_below(w: Seq<u64>, k: nat) -> bool {
    forall|t: int| 1 <= t < w.len() - 1 ==> (#[trigger] w[t] as int) < k
}

/// Some walk of at least one step of `rel` leads from `x` to `y` through vertices below `k`.
pub open spec fn walk_below(rel: Seq<(u64, u64)>, x: u64, y: u64, k: nat) -> bool {
    exists|w: Seq<u64>, s: nat| s >= 1 && #[trigger] is_walk(rel, w, x, y, s) && interior_below(w, k)
}

proof fn lemma_warshall_shape(m: Seq<Seq<bool>>, n: nat, k: nat)
    requires
        is_shape(m, n, n),
    ensures
        is_shape(warshall(m, k), n, n),
    decreases k,
{
    if k > 0 {
        lemma_warshall_shape(m, n, (k - 1) as nat);
    }
}

/// A walk into `v` through vertices up to `v` has a part that ends at `v` and passes
/// only below `v`.
proof fn lemma_cut_to_last(rel: Seq<(u64, u64)>, w: Seq<u64>, x: u64, v: u64, s: nat)
    requires
        s >= 1,
        is_walk(rel, w, x, v, s),
        interior_below(w, v as nat + 1),
    ensures
        walk_below(rel, x, v, v as nat),
    decreases s,
{
    if exists|t: int| 1 <= t < s && w[t] == v {
        let t = choose|t: int| 1 <= t < s && w[t] == v;
        let w2 = w.subrange(0, t + 1);
        assert forall|i: int| 0 <= i < t implies #[trigger] rel.contains((w2[i], w2[i + 1])) by {
            assert(rel.contains((w[i], w[i + 1])));
        }
        assert(is_walk(rel, w2, x, v, t as nat));
        assert forall|i: int| 1 <= i < w2.len() - 1 implies (#[trigger] w2[i] as int) < v as nat + 1 by {
            assert(w2[i] == w[i]);
        }
        lemma_cut_to_last(rel, w2, x, v, t as nat);
    } else {
        assert forall|i: int| 1 <= i < w.len() - 1 implies (#[trigger] w[i] as int) < v as nat by {
            assert(w[i] != v);
        }
        assert(is_walk(rel, w, x, v, s));
    }
}

/// A walk out of `v` through vertices up to `v` has a part that starts at `v` and passes
/// only below `v`.
proof fn lemma_cut_from_first(rel: Seq<(u64, u64)>, w: Seq<u64>, v: u64, y: u64, s: nat)
    requires
        s >= 1,
        is_walk(rel, w, v, y, s),
        interior_below(w, v as nat + 1),
    ensures
        walk_below(rel, v, y, v as nat),
    decreases s,
{
    if exists|t: int| 1 <= t < s && w[t] == v {
        let t = choose|t: int| 1 <= t < s && w[t] == v;
        let w2 = w.subrange(t, s as int + 1);
        let s2: nat = (s - t) as nat;
        assert forall|i: int| 0 <= i < s2 implies #[trigger] rel.contains((w2[i], w2[i + 1])) by {
            assert(rel.contains((w[i + t], w[i + t + 1])));
        }
        assert(is_walk(rel, w2, v, y, s2));
        assert forall|i: int| 1 <= i < w2.len() - 1 implies (#[trigger] w2[i] as int) < v as nat + 1 by {
            assert(w2[i] == w[i + t]);
        }
        lemma_cut_from_first(rel, w2, v, y, s2);
    } else {
        assert forall|i: int| 1 <= i < w.len() - 1 implies (#[trigger] w[i] as int) < v as nat by {
            assert(w[i] != v);
        }
        assert(is_walk(rel, w, v, y, s));
    }
}

/// After the steps for `0, ..., k - 1`, Warshall's matrix holds `(i, j)` exactly where a walk
/// leads from `i` to `j` through vertices below `k`.
proof fn lemma_warshall_walks(rel: Seq<(u64, u64)>, n: nat, k: nat, i: u64, j: u64)
    requires
        pairs_within(range_set(n), rel),
        k <= n,
        (i as nat) < n,
        (j as nat) < n,
        n <= u64::MAX,
    ensures
        warshall(zero_one_of(rel, n, n), k)[i as int][j as int] <==> walk_below(rel, i, j, k),
    decreases k,
{
    let m = zero_one_of(rel, n, n);
    if k == 0 {
        assert(m[i as int][j as int] == rel.contains((i, j)));
        if rel.contains((i, j)) {
            let w = seq![i, j];
            assert(is_walk(rel, w, i, j, 1));
            assert(interior_below(w, 0));
        }
        if walk_below(rel, i, j, 0) {
            let (w, s) = choose|w: Seq<u64>, s: nat|
                s >= 1 && #[trigger] is_walk(rel, w, i, j, s) && interior_below(w, 0);
            if s >= 2 {
                assert((w[1] as int) < 0);
            }
            let t: int = 0;
            assert(rel.contains((w[t], w[t + 1])));
        }
    } else {
        let k0: nat = (k - 1) as nat;
        let v = k0 as u64;
        let wm = warshall(m, k0);
        lemma_warshall_shape(m, n, k0);
        lemma_warshall_walks(rel, n, k0, i, j);
        lemma_warshall_walks(rel, n, k0, i, v);
        lemma_warshall_walks(rel, n, k0, v, j);
        assert(warshall(m, k) == warshall_step(wm, k0 as int));
        assert(warshall(m, k)[i as int][j as int] == (wm[i as int][j as int] || (wm[i as int][k0 as int]
            && wm[k0 as int][j as int])));
        if wm[i as int][j as int] {
            let (w, s) = choose|w: Seq<u64>, s: nat|
                s >= 1 && #[trigger] is_walk(rel, w, i, j, s) && interior_below(w, k0);
            assert(interior_below(w, k));
        }
        if wm[i as int][k0 as int] && wm[k0 as int][j as int] {
            let (w1, s1) = choose|w: Seq<u64>, s: nat|
                s >= 1 && #[trigger] is_walk(rel, w, i, v, s) && interior_below(w, k0);
            let (w2, s2) = choose|w: Seq<u64>, s: nat|
                s >= 1 && #[trigger] is_walk(rel, w, v, j, s) && interior_below(w, k0);
            let w = w1 + w2.subrange(1, s2 as int + 1);
            assert forall|t: int| 0 <= t < s1 + s2 implies #[trigger] rel.contains((w[t], w[t + 1])) by {
                if t < s1 {
                    assert(rel.contains((w1[t], w1[t + 1])));
                } else {
                    let u = t - s1;
                    assert(rel.contains((w2[u], w2[u + 1])));
                }
            }
            assert(is_walk(rel, w, i, j, s1 + s2));
            assert forall|t: int| 1 <= t < w.len() - 1 implies (#[trigger] w[t] as int) < k by {
                if t < s1 {
                    assert(w[t] == w1[t]);
                } else if t > s1 {
                    assert(w[t] == w2[t - s1]);
                }
            }
        }
        if walk_below(rel, i, j, k) {
            let (w, s) = choose|w: Seq<u64>, s: nat|
                s >= 1 && #[trigger] is_walk(rel, w, i, j, s) && interior_below(w, k);
            if exists|t: int| 1 <= t < s && w[t] == v {
                let t = choose|t: int| 1 <= t < s && w[t] == v;
                let wa = w.subrange(0, t + 1);
                assert forall|u: int| 0 <= u < t implies #[trigger] rel.contains((wa[u], wa[u + 1])) by {
                    assert(rel.contains((w[u], w[u + 1])));
                }
                assert(is_walk(rel, wa, i, v, t as nat));
                assert forall|u: int| 1 <= u < wa.len() - 1 implies (#[trigger] wa[u] as int) < v as nat + 1 by {
                    assert(wa[u] == w[u]);
                }
                lemma_cut_to_last(rel, wa, i, v, t as nat);
                let wb = w.subrange(t, s as int + 1);
                let sb: nat = (s - t) as nat;
                assert forall|u: int| 0 <= u < sb implies #[trigger] rel.contains((wb[u], wb[u + 1])) by {
                    assert(rel.contains((w[u + t], w[u + t + 1])));
                }
                assert(is_walk(rel, wb, v, j, sb));
                assert forall|u: int| 1 <= u < wb.len() - 1 implies (#[trigger] wb[u] as int) < v as nat + 1 by {
                    assert(wb[u] == w[u + t]);
                }
                lemma_cut_from_first(rel, wb, v, j, sb);
            } else {
                assert forall|u: int| 1 <= u < w.len() - 1 implies (#[trigger] w[u] as int) < k0 by {
                    assert(w[u] != v);
                }
                assert(is_walk(rel, w, i, j, s));
            }
        }
    }
}

proof fn lemma_range_set_finite(n: nat)
    ensures
        range_set(n).finite(),
    decreases n,
{
    if n == 0 {
        assert(range_set(0) =~= Set::<u64>::empty());
    } else {
        lemma_range_set_finite((n - 1) as nat);
        if n - 1 <= u64::MAX {
            assert(range_set(n) =~= range_set((n - 1) as nat).insert((n - 1) as u64));
        } else {
            assert(range_set(n) =~= range_set((n - 1) as nat));
        }
    }
}

/// On the domain `{0, ..., n - 1}`, with the pairs in it, Warshall's matrix holds `(x, y)`
/// exactly where `x` reaches `y` in at least one and at most `max(n, 1)` steps.
proof fn lemma_warshall_reach(a: Set<u64>, rel: Seq<(u64, u64)>, p: (u64, u64))
    requires
        a == range_set(a.len()),
        a.len() <= u64::MAX,
        pairs_within(a, rel),
    ensures
        entry_pair(warshall(zero_one_of(rel, a.len(), a.len()), a.len()), a.len(), p)
            <==> reach_within(
            rel,
            p.0,
            p.1,
            if a.len() > 1 {
                a.len()
            } else {
                1
            },
        ),
{
    let n = a.len();
    let mx: nat = if n > 1 {
        n
    } else {
        1
    };
    lemma_range_set_finite(n);
    lemma_warshall_shape(zero_one_of(rel, n, n), n, n);
    if entry_pair(warshall(zero_one_of(rel, n, n), n), n, p) {
        lemma_warshall_walks(rel, n, n, p.0, p.1);
        let (w, s) = choose|w: Seq<u64>, s: nat|
            s >= 1 && #[trigger] is_walk(rel, w, p.0, p.1, s) && interior_below(w, n);
        assert(path(rel, p.0, p.1, s));
        let k = lemma_walk_shorten(a, rel, p.0, p.1, s);
        assert(reach_within(rel, p.0, p.1, mx));
    }
    if reach_within(rel, p.0, p.1, mx) {
        let k = choose|k: nat| 1 <= k <= mx && #[trigger] path(rel, p.0, p.1, k);
        let w = choose|w: Seq<u64>| #[trigger] is_walk(rel, w, p.0, p.1, k);
        let t0: int = 0;
        assert(rel.contains((w[t0], w[t0 + 1])));
        let tl: int = k - 1;
        assert(rel.contains((w[tl], w[tl + 1])));
        assert forall|u: int| 1 <= u < w.len() - 1 implies (#[trigger] w[u] as int) < n by {
            assert(rel.contains((w[u], w[u + 1])));
        }
        assert(is_walk(rel, w, p.0, p.1, k));
        lemma_warshall_walks(rel, n, n, p.0, p.1);
    }
}

/// Two lists of pairs, each in strictly ascending order, that hold the same pairs are equal.
pub proof fn lemma_ascending_unique(s1: Seq<(u64, u64)>, s2: Seq<(u64, u64)>)
    requires
        pairs_ascending(s1),
        pairs_ascending(s2),
        forall|p: (u64, u64)| s1.contains(p) <==> s2.contains(p),
    ensures
        s1 == s2,
    decreases s1.len(),
{
    if s1.len() == 0 {
        if s2.len() > 0 {
            assert(s2.contains(s2[0]));
        }
        assert(s1 =~= s2);
    } else {
        assert(s1.contains(s1[0]));
        assert(s2.len() > 0);
        assert(s2.contains(s2[0]));
        let k = choose|k: int| 0 <= k < s2.len() && s2[k] == s1[0];
        let m = choose|m: int| 0 <= m < s1.len() && s1[m] == s2[0];
        if k > 0 {
            assert(pair_lt(s2[0], s2[k]));
            if m > 0 {
                assert(pair_lt(s1[0], s1[m]));
            }
        }
        assert(s1[0] == s2[0]);
        let t1 = s1.subrange(1, s1.len() as int);
        let t2 = s2.subrange(1, s2.len() as int);
        assert forall|p: (u64, u64)| t1.contains(p) <==> t2.contains(p) by {
            if t1.contains(p) {
                let i = choose|i: int| 0 <= i < t1.len() && t1[i] == p;
                assert(s1[i + 1] == p);
                assert(pair_lt(s1[0], s1[i + 1]));
                assert(s2.contains(p));
                let j = choose|j: int| 0 <= j < s2.len() && s2[j] == p;
                assert(j != 0);
                assert(t2[j - 1] == p);
            }
            if t2.contains(p) {
                let i = choose|i: int| 0 <= i < t2.len() && t2[i] == p;
                assert(s2[i + 1] == p);
                assert(pair_lt(s2[0], s2[i + 1]));
                assert(s1.contains(p));
                let j = choose|j: int| 0 <= j < s1.len() && s1[j] == p;
                assert(j != 0);
                assert(t1[j - 1] == p);
            }
        }
        lemma_ascending_unique(t1, t2);
        assert(s1 =~= seq![s1[0]] + t1);
        assert(s2 =~= seq![s2[0]] + t2);
    }
}

/// On the domain `{0, ..., n - 1}`, with the pairs in it, the pair-based transitive closure
/// and Warshall's agree: the same pairs, and so the same zero-one matrix; listed in ascending
/// order both, the same list.
pub proof fn lemma_transitive_closures_agree(
    a: Set<u64>,
    rel: Seq<(u64, u64)>,
    from_pairs: Seq<(u64, u64)>,
    from_matrix: Seq<(u64, u64)>,
)
    requires
        a == range_set(a.len()),
        a.len() <= u64::MAX,
        pairs_within(a, rel),
        forall|p: (u64, u64)|
            from_pairs.contains(p) <==> reach_within(
                rel,
                p.0,
                p.1,
                if a.len() > 1 {
                    a.len()
                } else {
                    1
                },
            ),
        forall|p: (u64, u64)|
            from_matrix.contains(p) <==> entry_pair(
                warshall(zero_one_of(rel, a.len(), a.len()), a.len()),
                a.len(),
                p,
            ),
    ensures
        forall|p: (u64, u64)| from_pairs.contains(p) <==> from_matrix.contains(p),
        zero_one_of(from_pairs, a.len(), a.len()) == zero_one_of(from_matrix, a.len(), a.len()),
        pairs_ascending(from_pairs) && pairs_ascending(from_matrix) ==> from_pairs == from_matrix,
{
    let n = a.len();
    assert forall|p: (u64, u64)| from_pairs.contains(p) <==> from_matrix.contains(p) by {
        lemma_warshall_reach(a, rel, p);
    }
    assert(zero_one_of(from_pairs, n, n) =~~= zero_one_of(from_matrix, n, n));
    if pairs_ascending(from_pairs) && pairs_ascending(from_matrix) {
        lemma_ascending_unique(from_pairs, from_matrix);
    }
}

/// How often `q` stands in a list grown from `orig` to `now` by adding absent pairs once:
/// as often as in `orig` if it was there, else once if it was added.
pub open spec fn kept_or_once(orig: Seq<(u64, u64)>, now: Seq<(u64, u64)>, q: (u64, u64)) -> nat {
    if orig.contains(q) {
        orig.to_multiset().count(q)
    } else if now.contains(q) {
        1
    } else {
        0
    }
}

/// Relies on itertools::Itertools::sorted: the elements of the set, ascending.
#[verifier::external_body]
fn sorted_elements(s: &HashSet<u64>) -> (r: Vec<u64>)
    ensures
        strictly_increasing(r@),
        forall|x: u64| s@.contains(x) <==> r@.contains(x),
{
    s.iter().copied().sorted().collect()
}

/// Relies on the slice method `sort`: the same pairs, with the same multiplicities, in
/// ascending lexicographic order.
#[verifier::external_body]
fn sort_pairs(v: &mut Vec<(u64, u64)>)
    ensures
        final(v)@.to_multiset() == old(v)@.to_multiset(),
        forall|i: int, j: int| 0 <= i < j < final(v)@.len() ==> !pair_lt(final(v)@[j], final(v)@[i]),
{
    v.sort();
}

fn contains_pair(v: &Vec<(u64, u64)>, p: (u64, u64)) -> (r: bool)
    ensures
        r == v@.contains(p),
{
    let mut i: usize = 0;
    while i < v.len()
        invariant
            0 <= i <= v@.len(),
            forall|k: int| 0 <= k < i ==> v@[k] != p,
        decreases v@.len() - i,
    {
        if v[i].0 == p.0 && v[i].1 == p.1 {
            assert(v@[i as int] == p);
            return true;
        }
        i += 1;
    }
    false
}

fn copy_set(s: &HashSet<u64>) -> (r: HashSet<u64>)
    ensures
        r@ == s@,
        s@.finite(),
{
    let elems = sorted_elements(s);
    let mut out: HashSet<u64> = HashSet::new();
    let mut i: usize = 0;
    while i < elems.len()
        invariant
            0 <= i <= elems@.len(),
            forall|x: u64| s@.contains(x) <==> elems@.contains(x),
            forall|x: u64| out@.contains(x) <==> exists|k: int| 0 <= k < i && elems@[k] == x,
        decreases elems@.len() - i,
    {
        out.insert(elems[i]);
        i += 1;
    }
    assert forall|x: u64| s@.contains(x) <==> out@.contains(x) by {
        if s@.contains(x) {
            let k = choose|k: int| 0 <= k < elems@.len() && elems@[k] == x;
        }
    }
    assert(out@ =~= s@);
    proof {
        vstd::seq_lib::seq_to_set_is_finite(elems@);
        assert(elems@.to_set() =~= s@);
    }
    out
}

fn range_hash_set(n: usize) -> (r: HashSet<u64>)
    ensures
        r@ == range_set(n as nat),
{
    let mut out: HashSet<u64> = HashSet::new();
    let mut i: usize = 0;
    while i < n
        invariant
            0 <= i <= n,
            out@ == range_set(i as nat),
        decreases n - i,
    {
        out.insert(i as u64);
        i += 1;
        assert(out@ =~= range_set(i as nat));
    }
    out
}

fn copy_pairs(v: &Vec<(u64, u64)>) -> (r: Vec<(u64, u64)>)
    ensures
        r@ == v@,
{
    let mut out: Vec<(u64, u64)> = Vec::new();
    let mut i: usize = 0;
    while i < v.len()
        invariant
            0 <= i <= v@.len(),
            out@ == v@.subrange(0, i as int),
        decreases v@.len() - i,
    {
        out.push(v[i]);
        i += 1;
    }
    assert(out@ =~= v@);
    out
}

/// A binary relation: the pairs `rel` over domain `a` and codomain `b`.
#[derive(Debug, PartialEq, Eq)]
pub struct Relation {
    pub a: HashSet<u64>,
    pub b: HashSet<u64>,
    pub rel: Vec<(u64, u64)>,
}

impl Clone for Relation {
    fn clone(&self) -> Self {
        Relation { a: copy_set(&self.a), b: copy_set(&self.b), rel: copy_pairs(&self.rel) }
    }
}

impl Relation {
    /// The identity relation on the domain.
    pub fn diagonal(&self) -> (r: Self)
        requires
            self.a@ == self.b@,
        ensures
            r.a@ == self.a@,
            r.b@ == self.a@,
            forall|p: (u64, u64)| r.rel@.contains(p) <==> self.a@.contains(p.0) && p.0 == p.1,
            pairs_ascending(r.rel@),
    {
        let elems = sorted_elements(&self.a);
        let mut rel: Vec<(u64, u64)> = Vec::new();
        let mut i: usize = 0;
        while i < elems.len()
            invariant
                0 <= i <= elems@.len(),
                rel@.len() == i,
                forall|k: int| 0 <= k < i ==> #[trigger] rel@[k] == (elems@[k], elems@[k]),
            decreases elems@.len() - i,
        {
            rel.push((elems[i], elems[i]));
            i += 1;
        }
        assert forall|p: (u64, u64)| rel@.contains(p) <==> self.a@.contains(p.0) && p.0 == p.1 by {
            if self.a@.contains(p.0) && p.0 == p.1 {
                let k = choose|k: int| 0 <= k < elems@.len() && elems@[k] == p.0;
                assert(rel@[k] == p);
            }
        }
        assert forall|i: int, j: int| 0 <= i < j < rel@.len() implies pair_lt(rel@[i], rel@[j]) by {
            assert(rel@[i] == (elems@[i], elems@[i]));
            assert(rel@[j] == (elems@[j], elems@[j]));
        }
        Relation { a: copy_set(&self.a), b: copy_set(&self.a), rel }
    }

    /// True iff every element of the domain is related to itself.
    pub fn is_reflexive(&self) -> (r: bool)
        requires
            self.a@ == self.b@,
        ensures
            r == reflexive_on(self.a@, self.rel@),
    {
        let d = self.diagonal();
        let mut i: usize = 0;
        while i < d.rel.len()
            invariant
                0 <= i <= d.rel@.len(),
                forall|p: (u64, u64)| d.rel@.contains(p) <==> self.a@.contains(p.0) && p.0 == p.1,
                forall|k: int| 0 <= k < i ==> self.rel@.contains(#[trigger] d.rel@[k]),
            decreases d.rel@.len() - i,
        {
            if !contains_pair(&self.rel, d.rel[i]) {
                assert(d.rel@.contains(d.rel@[i as int]));
                return false;
            }
            i += 1;
        }
        assert forall|x: u64| self.a@.contains(x) implies #[trigger] self.rel@.contains((x, x)) by {
            assert(d.rel@.contains((x, x)));
            let k = choose|k: int| 0 <= k < d.rel@.len() && d.rel@[k] == (x, x);
        }
        true
    }

    /// True iff `(y, x)` is present for every present `(x, y)`.
    pub fn is_symmetric(&self) -> (r: bool)
        requires
            self.a@ == self.b@,
        ensures
            r == symmetric(self.rel@),
    {
        let mut i: usize = 0;
        while i < self.rel.len()
            invariant
                0 <= i <= self.rel@.len(),
                forall|k: int|
                    0 <= k < i ==> self.rel@.contains((#[trigger] self.rel@[k].1, self.rel@[k].0)),
            decreases self.rel@.len() - i,
        {
            let (x, y) = self.rel[i];
            if !contains_pair(&self.rel, (y, x)) {
                assert(self.rel@.contains((x, y)));
                return false;
            }
            i += 1;
        }
        assert forall|x: u64, y: u64| #[trigger] self.rel@.contains((x, y)) implies self.rel@.contains(
            (y, x),
        ) by {
            let k = choose|k: int| 0 <= k < self.rel@.len() && self.rel@[k] == (x, y);
            assert(self.rel@[k].1 == y);
        }
        true
    }

    /// True iff `(a, c)` is present whenever `(a, b)` and `(b, c)` are.
    pub fn is_transitive(&self) -> (r: bool)
        requires
            self.a@ == self.b@,
        ensures
            r == transitive(self.rel@),
    {
        let n = self.rel.len();
        let mut i: usize = 0;
        while i < n
            invariant
                n == self.rel@.len(),
                0 <= i <= n,
                forall|k: int, l: int|
                    0 <= k < i && 0 <= l < n && #[trigger] self.rel@[k].1 == #[trigger] self.rel@[l].0
                        ==> self.rel@.contains((self.rel@[k].0, self.rel@[l].1)),
            decreases n - i,
        {
            let mut j: usize = 0;
            while j < n
                invariant
                    n == self.rel@.len(),
                    0 <= i < n,
                    0 <= j <= n,
                    forall|k: int, l: int|
                        0 <= k < i && 0 <= l < n && #[trigger] self.rel@[k].1
                            == #[trigger] self.rel@[l].0 ==> self.rel@.contains(
                            (self.rel@[k].0, self.rel@[l].1),
                        ),
                    forall|l: int|
                        0 <= l < j && self.rel@[i as int].1 == #[trigger] self.rel@[l].0
                            ==> self.rel@.contains((self.rel@[i as int].0, self.rel@[l].1)),
                decreases n - j,
            {
                let (pa, pb) = self.rel[i];
                let (pc, pd) = self.rel[j];
                if pb == pc && !contains_pair(&self.rel, (pa, pd)) {
                    assert(self.rel@.contains((pa, pb)));
                    assert(self.rel@.contains((pc, pd)));
                    return false;
                }
                j += 1;
            }
            i += 1;
        }
        assert forall|x: u64, y: u64, z: u64|
            #[trigger] self.rel@.contains((x, y)) && #[trigger] self.rel@.contains(
                (y, z),
            ) implies self.rel@.contains((x, z)) by {
            let k = choose|k: int| 0 <= k < n && self.rel@[k] == (x, y);
            let l = choose|l: int| 0 <= l < n && self.rel@[l] == (y, z);
            assert(self.rel@[k].1 == self.rel@[l].0);
        }
        true
    }

    /// True iff the relation is reflexive, symmetric and transitive.
    pub fn is_equivalence(&self) -> (r: bool)
        requires
            self.a@ == self.b@,
        ensures
            r == equivalence(self.a@, self.rel@),
    {
        self.is_reflexive() && self.is_symmetric() && self.is_transitive()
    }

    /// True iff `(x, y)` is one of the pairs.
    pub fn are_in_relations(&self, x: &u64, y: &u64) -> (r: bool)
        ensures
            r == self.rel@.contains((*x, *y)),
    {
        contains_pair(&self.rel, (*x, *y))
    }

    /// The class of `x`: its least member and all its members, ascending.
    pub fn get_class(&self, x: &u64) -> (r: (u64, Vec<u64>))
        requires
            exists|y: u64| self.a@.contains(y) && self.rel@.contains((*x, y)),
        ensures
            strictly_increasing(r.1@),
            forall|y: u64| r.1@.contains(y) <==> class_of(self.a@, self.rel@, *x).contains(y),
            r.1@.len() > 0 && r.0 == r.1@[0],
            class_of(self.a@, self.rel@, *x).contains(r.0),
            forall|y: u64| class_of(self.a@, self.rel@, *x).contains(y) ==> r.0 <= y,
    {
        let elems = sorted_elements(&self.a);
        let mut class: Vec<u64> = Vec::new();
        let mut i: usize = 0;
        while i < elems.len()
            invariant
                0 <= i <= elems@.len(),
                strictly_increasing(elems@),
                forall|y: u64| self.a@.contains(y) <==> elems@.contains(y),
                strictly_increasing(class@),
                forall|t: int| 0 <= t < class@.len() ==> i > 0 && class@[t] <= elems@[i - 1],
                forall|y: u64|
                    class@.contains(y) <==> (self.rel@.contains((*x, y)) && exists|k: int|
                        0 <= k < i && elems@[k] == y),
            decreases elems@.len() - i,
        {
            let y = elems[i];
            if self.are_in_relations(x, &y) {
                let ghost oc = class@;
                class.push(y);
                proof {
                    assert(class@ == oc.push(y));
                    assert forall|z: u64| class@.contains(z) <==> (self.rel@.contains((*x, z))
                        && exists|k: int| 0 <= k < i + 1 && elems@[k] == z) by {
                        if class@.contains(z) {
                            let t = choose|t: int| 0 <= t < class@.len() && class@[t] == z;
                            if t < oc.len() {
                                assert(oc[t] == z);
                                assert(oc.contains(z));
                            } else {
                                assert(elems@[i as int] == z);
                            }
                        }
                        if self.rel@.contains((*x, z)) && exists|k: int|
                            0 <= k < i + 1 && elems@[k] == z {
                            if z == y {
                                assert(class@[oc.len() as int] == y);
                            } else {
                                let k = choose|k: int| 0 <= k < i + 1 && elems@[k] == z;
                                assert(k < i);
                                assert(oc.contains(z));
                                let t = choose|t: int| 0 <= t < oc.len() && oc[t] == z;
                                assert(class@[t] == z);
                            }
                        }
                    }
                    assert forall|t: int| 0 <= t < class@.len() implies class@[t] <= elems@[i as int] by {
                        if t < oc.len() {
                            assert(oc[t] == class@[t]);
                        }
                    }
                }
            } else {
                assert forall|z: u64| class@.contains(z) <==> (self.rel@.contains((*x, z))
                    && exists|k: int| 0 <= k < i + 1 && elems@[k] == z) by {
                    if self.rel@.contains((*x, z)) && exists|k: int| 0 <= k < i + 1 && elems@[k] == z {
                        if z != y {
                            let k = choose|k: int| 0 <= k < i + 1 && elems@[k] == z;
                            assert(k < i);
                        }
                    }
                }
            }
            i += 1;
        }
        let ghost w = choose|y: u64| self.a@.contains(y) && self.rel@.contains((*x, y));
        proof {
            let k = choose|k: int| 0 <= k < elems@.len() && elems@[k] == w;
            assert(class@.contains(w));
        }
        let rep = class[0];
        proof {
            assert(class@.contains(rep));
            assert forall|y: u64| class_of(self.a@, self.rel@, *x).contains(y) implies rep <= y by {
                let k = choose|k: int| 0 <= k < elems@.len() && elems@[k] == y;
                assert(class@.contains(y));
                let t = choose|t: int| 0 <= t < class@.len() && class@[t] == y;
                assert(t == 0 || class@[0] < class@[t]);
            }
        }
        (rep, class)
    }

    /// The classes of an equivalence relation, one per class, each keyed by its least member,
    /// in ascending order of that member.
    pub fn quotient_set(&self) -> (r: Vec<(u64, Vec<u64>)>)
        requires
            self.a@ == self.b@,
            equivalence(self.a@, self.rel@),
        ensures
            is_quotient(self.a@, self.rel@, r@),
    {
        let elems = sorted_elements(&self.a);
        let mut out: Vec<(u64, Vec<u64>)> = Vec::new();
        let mut i: usize = 0;
        while i < elems.len()
            invariant
                self.a@ == self.b@,
                equivalence(self.a@, self.rel@),
                0 <= i <= elems@.len(),
                strictly_increasing(elems@),
                forall|y: u64| self.a@.contains(y) <==> elems@.contains(y),
                forall|t: int|
                    0 <= t < out@.len() ==> {
                        &&& self.a@.contains(#[trigger] out@[t].0)
                        &&& strictly_increasing(out@[t].1@)
                        &&& out@[t].1@.len() > 0
                        &&& out@[t].0 == out@[t].1@[0]
                        &&& forall|y: u64|
                            out@[t].1@.contains(y) <==> class_of(self.a@, self.rel@, out@[t].0).contains(y)
                    },
                forall|t: int| 0 <= t < out@.len() ==> i > 0 && out@[t].0 <= elems@[i - 1],
                forall|t: int, u: int| 0 <= t < u < out@.len() ==> out@[t].0 < out@[u].0,
                forall|l: int|
                    0 <= l < i && least_in_class(self.a@, self.rel@, elems@[l])
                        ==> exists|t: int| 0 <= t < out@.len() && (#[trigger] out@[t]).0 == elems@[l],
                forall|l: int|
                    0 <= l < i ==> in_some_class(out@, elems@[l]),
            decreases elems@.len() - i,
        {
            let x = elems[i];
            proof {
                assert(elems@.contains(x));
                assert(self.rel@.contains((x, x)));
            }
            let (rep, class) = self.get_class(&x);
            let ghost oo = out@;
            proof {
                assert(class_of(self.a@, self.rel@, x).contains(x));
                assert(rep <= x);
            }
            if rep == x {
                out.push((rep, class));
                proof {
                    assert(out@ == oo.push((rep, class)));
                    assert forall|l: int|
                        0 <= l < i + 1 && least_in_class(self.a@, self.rel@, elems@[l])
                        implies exists|t: int| 0 <= t < out@.len() && (#[trigger] out@[t]).0 == elems@[l] by {
                        if l < i {
                            let t = choose|t: int| 0 <= t < oo.len() && (#[trigger] oo[t]).0 == elems@[l];
                            assert(out@[t] == oo[t]);
                        } else {
                            assert(out@[oo.len() as int].0 == elems@[l]);
                        }
                    }
                    assert forall|l: int| 0 <= l < i + 1 implies in_some_class(out@, elems@[l]) by {
                        if l < i {
                            let t = choose|t: int| 0 <= t < oo.len() && (#[trigger] oo[t].1@).contains(elems@[l]);
                            assert(out@[t] == oo[t]);
                        } else {
                            assert(out@[oo.len() as int].1@.contains(x));
                        }
                    }
                }
            } else {
                proof {
                    let cx = class_of(self.a@, self.rel@, x);
                    let cr = class_of(self.a@, self.rel@, rep);
                    assert(self.rel@.contains((x, rep)));
                    assert(self.rel@.contains((rep, x)));
                    assert forall|z: u64| cr.contains(z) implies cx.contains(z) by {
                        if cr.contains(z) {
                            assert(self.rel@.contains((rep, z)));
                        }
                    }
                    assert forall|z: u64| cr.contains(z) implies rep <= z by {
                        assert(cx.contains(z));
                    }
                    assert(elems@.contains(rep));
                    let k = choose|k: int| 0 <= k < elems@.len() && elems@[k] == rep;
                    assert(k < i) by {
                        if k >= i {
                            assert(k == i || elems@[i as int] < elems@[k]);
                        }
                    }
                    let t = choose|t: int| 0 <= t < out@.len() && (#[trigger] out@[t]).0 == elems@[k];
                    assert(cr.contains(x));
                    assert(out@[t].1@.contains(x));
                    assert forall|l: int| 0 <= l < i + 1 implies in_some_class(out@, elems@[l]) by {
                        if l == i {
                            assert(out@[t].1@.contains(elems@[l]));
                        }
                    }
                    assert forall|l: int|
                        0 <= l < i + 1 && least_in_class(self.a@, self.rel@, elems@[l])
                        implies exists|t: int| 0 <= t < out@.len() && (#[trigger] out@[t]).0 == elems@[l] by {
                        if l == i {
                            assert(class_of(self.a@, self.rel@, x).contains(rep));
                        }
                    }
                }
            }
            i += 1;
        }
        assert forall|x: u64| self.a@.contains(x) implies in_some_class(out@, x) by {
            assert(elems@.contains(x));
            let k = choose|k: int| 0 <= k < elems@.len() && elems@[k] == x;
        }
        out
    }


    /// The transitive closure, from the pairs: each of the `n - 1` rounds (`n` the size of
    /// the domain) adds `(x, z)` for a pair `(x, y)` found so far and a pair `(y, z)` of the
    /// relation. The result holds the pairs `(x, y)` such that `x` reaches `y` in at least one
    /// and at most `max(n, 1)` steps: the given list where nothing was added, else each new
    /// pair once, with all the pairs in ascending order.
    pub fn transitive_closure(&self) -> (r: Self)
        requires
            self.a@ == self.b@,
        ensures
            r.a@ == self.a@,
            r.b@ == self.b@,
            forall|p: (u64, u64)|
                r.rel@.contains(p) <==> reach_within(
                    self.rel@,
                    p.0,
                    p.1,
                    if self.a@.len() > 1 {
                        self.a@.len()
                    } else {
                        1
                    },
                ),
            forall|q: (u64, u64)| r.rel@.to_multiset().count(q) == kept_or_once(self.rel@, r.rel@, q),
            self.a@.len() <= 1 ==> r.rel@ == self.rel@,
            r.rel@.len() == self.rel@.len() ==> r.rel@ == self.rel@,
            r.rel@.len() != self.rel@.len() ==> forall|i: int, j: int|
                0 <= i < j < r.rel@.len() ==> !pair_lt(r.rel@[j], r.rel@[i]),
            self.rel@.no_duplicates() ==> r.rel@.no_duplicates(),
            self.rel@.no_duplicates() && r.rel@.len() != self.rel@.len() ==> pairs_ascending(r.rel@),
            pairs_within(self.a@, self.rel@) ==> transitive(r.rel@),
    {
        let n = self.a.len();
        let mut x = copy_pairs(&self.rel);
        let mut done: usize = 1;
        proof {
            assert(x@.subrange(0, self.rel@.len() as int) =~= self.rel@);
            assert forall|q: (u64, u64)| x@.to_multiset().count(q) == kept_or_once(self.rel@, x@, q) by {
                broadcast use vstd::seq_lib::group_to_multiset_ensures;

                assert(self.rel@.contains(q) <==> self.rel@.to_multiset().count(q) > 0);
            }
            assert forall|q: (u64, u64)| x@.contains(q) <==> reach_within(self.rel@, q.0, q.1, 1) by {
                lemma_reach_one(self.rel@, q.0, q.1);
            }
        }
        while done < n
            invariant
                n == self.a@.len(),
                1 <= done,
                done <= n || done == 1,
                done == 1 ==> x@ == self.rel@,
                x@.len() >= self.rel@.len() && x@.subrange(0, self.rel@.len() as int) == self.rel@,
forall|q: (u64, u64)| x@.to_multiset().count(q) == kept_or_once(self.rel@, x@, q),
                forall|q: (u64, u64)| x@.contains(q) <==> reach_within(self.rel@, q.0, q.1, done as nat),
            decreases n - done,
        {
            let snap = copy_pairs(&x);
            let mut i: usize = 0;
            while i < snap.len()
                invariant
                    0 <= i <= snap@.len(),
                    x@.len() >= self.rel@.len() && x@.subrange(0, self.rel@.len() as int) == self.rel@,
forall|q: (u64, u64)| x@.to_multiset().count(q) == kept_or_once(self.rel@, x@, q),
                    forall|q: (u64, u64)| snap@.contains(q) ==> x@.contains(q),
                    forall|q: (u64, u64)|
                        x@.contains(q) ==> snap@.contains(q) || one_more_step(snap@, self.rel@, q),
                    forall|l: int, m: int|
                        0 <= l < i && 0 <= m < self.rel@.len() && #[trigger] snap@[l].1
                            == #[trigger] self.rel@[m].0 ==> x@.contains((snap@[l].0, self.rel@[m].1)),
                decreases snap@.len() - i,
            {
                let (pa, pb) = snap[i];
                let mut j: usize = 0;
                while j < self.rel.len()
                    invariant
                        0 <= i < snap@.len(),
                        snap@[i as int] == (pa, pb),
                        x@.len() >= self.rel@.len() && x@.subrange(0, self.rel@.len() as int) == self.rel@,
forall|q: (u64, u64)| x@.to_multiset().count(q) == kept_or_once(self.rel@, x@, q),
                        0 <= j <= self.rel@.len(),
                        forall|q: (u64, u64)| snap@.contains(q) ==> x@.contains(q),
                        forall|q: (u64, u64)|
                            x@.contains(q) ==> snap@.contains(q) || one_more_step(snap@, self.rel@, q),
                        forall|l: int, m: int|
                            0 <= l < i && 0 <= m < self.rel@.len() && #[trigger] snap@[l].1
                                == #[trigger] self.rel@[m].0 ==> x@.contains(
                                (snap@[l].0, self.rel@[m].1),
                            ),
                        forall|m: int|
                            0 <= m < j && pb == #[trigger] self.rel@[m].0 ==> x@.contains(
                                (pa, self.rel@[m].1),
                            ),
                    decreases self.rel@.len() - j,
                {
                    let (pc, pd) = self.rel[j];
                    if pb == pc && !contains_pair(&x, (pa, pd)) {
                        let ghost ox = x@;
                        x.push((pa, pd));
                        proof {
                            broadcast use vstd::seq_lib::group_to_multiset_ensures;

                            assert(x@ == ox.push((pa, pd)));
                            assert(x@.to_multiset() =~= ox.to_multiset().insert((pa, pd)));
                            assert(!self.rel@.contains((pa, pd))) by {
                                if self.rel@.contains((pa, pd)) {
                                    let k = choose|k: int| 0 <= k < self.rel@.len() && self.rel@[k] == (pa, pd);
                                    assert(ox.subrange(0, self.rel@.len() as int)[k] == ox[k]);
                                    assert(ox.contains((pa, pd)));
                                }
                            }
                            assert(ox.to_multiset().count((pa, pd)) == 0);
                            assert forall|q: (u64, u64)|
                                x@.to_multiset().count(q) == kept_or_once(self.rel@, x@, q) by {
                                if q != (pa, pd) {
                                    assert(x@.contains(q) <==> ox.contains(q)) by {
                                        if x@.contains(q) {
                                            let k = choose|k: int| 0 <= k < x@.len() && x@[k] == q;
                                            assert(ox[k] == q);
                                        }
                                        if ox.contains(q) {
                                            let k = choose|k: int| 0 <= k < ox.len() && ox[k] == q;
                                            assert(x@[k] == q);
                                        }
                                    }
                                } else {
                                    assert(x@[ox.len() as int] == q);
                                }
                            }
                            assert(x@.subrange(0, self.rel@.len() as int) =~= ox.subrange(0, self.rel@.len() as int));
                            assert forall|q: (u64, u64)| ox.contains(q) implies x@.contains(q) by {
                                let k = choose|k: int| 0 <= k < ox.len() && ox[k] == q;
                                assert(x@[k] == q);
                            }
                            assert(x@[ox.len() as int] == (pa, pd));
                            assert forall|q: (u64, u64)| x@.contains(q) implies snap@.contains(q)
                                || one_more_step(snap@, self.rel@, q) by {
                                if q == (pa, pd) {
                                    assert(snap@[i as int] == (pa, pb));
                                    assert(snap@.contains((q.0, pb)));
                                    assert(self.rel@[j as int] == (pb, q.1));
                                    assert(self.rel@.contains((pb, q.1)));
                                    assert(one_more_step(snap@, self.rel@, q));
                                } else {
                                    let k = choose|k: int| 0 <= k < x@.len() && x@[k] == q;
                                    assert(ox[k] == q);
                                    assert(ox.contains(q));
                                }
                            }
                        }
                    }
                    j += 1;
                }
                i += 1;
            }
            proof {
                assert forall|q: (u64, u64)|
                    x@.contains(q) <==> reach_within(self.rel@, q.0, q.1, (done + 1) as nat) by {
                    lemma_reach_extend(self.rel@, snap@, done as nat, q);
                    if one_more_step(snap@, self.rel@, q) {
                        let z = choose|z: u64| #[trigger] snap@.contains((q.0, z)) && self.rel@.contains((z, q.1));
                        let l = choose|l: int| 0 <= l < snap@.len() && snap@[l] == (q.0, z);
                        let m = choose|m: int| 0 <= m < self.rel@.len() && self.rel@[m] == (z, q.1);
                        assert(snap@[l].1 == self.rel@[m].0);
                    }
                }
            }
            done += 1;
        }
        if x.len() != self.rel.len() {
            let ghost before = x@;
            sort_pairs(&mut x);
            proof {
                broadcast use vstd::seq_lib::group_to_multiset_ensures;

                assert forall|q: (u64, u64)|
                    x@.contains(q) <==> reach_within(self.rel@, q.0, q.1, done as nat) by {
                    assert(x@.contains(q) <==> x@.to_multiset().count(q) > 0);
                    assert(before.contains(q) <==> before.to_multiset().count(q) > 0);
                }
                assert(x@.len() == x@.to_multiset().len());
                assert(before.len() == before.to_multiset().len());
                assert forall|q: (u64, u64)| x@.to_multiset().count(q) == kept_or_once(self.rel@, x@, q) by {
                    assert(x@.contains(q) <==> x@.to_multiset().count(q) > 0);
                    assert(before.contains(q) <==> before.to_multiset().count(q) > 0);
                }
            }
        }
        let a = copy_set(&self.a);
        proof {
            if x@.len() == self.rel@.len() {
                assert(x@ =~= x@.subrange(0, self.rel@.len() as int));
            }
            if self.rel@.no_duplicates() {
                broadcast use vstd::seq_lib::group_to_multiset_ensures;

                self.rel@.lemma_multiset_has_no_duplicates();
                assert forall|q: (u64, u64)| x@.to_multiset().contains(q) implies x@.to_multiset().count(q)
                    == 1 by {
                    if self.rel@.contains(q) {
                        assert(self.rel@.to_multiset().contains(q));
                    }
                }
                x@.lemma_multiset_has_no_duplicates_conv();
                if x@.len() != self.rel@.len() {
                    assert forall|i: int, j: int| 0 <= i < j < x@.len() implies pair_lt(x@[i], x@[j]) by {
                        assert(x@[i] != x@[j]);
                        assert(!pair_lt(x@[j], x@[i]));
                    }
                }
            }
            if pairs_within(self.a@, self.rel@) {
                lemma_transitive_closure_is_transitive(self.a@, self.rel@, x@);
            }
        }
        Relation { a, b: copy_set(&self.b), rel: x }
    }

    /// The transitive closure by Warshall's algorithm on the zero-one matrix: for each index
    /// `k` in turn, the outer product of column `k` and row `k` is joined in.
    pub fn transitive_closure_warshall(&self) -> (r: Self)
        requires
            self.a@ == self.b@,
            self.a@ == range_set(self.a@.len()),
        ensures
            r.a@ == range_set(self.a@.len()),
            r.b@ == range_set(self.a@.len()),
            forall|p: (u64, u64)|
                r.rel@.contains(p) <==> entry_pair(
                    warshall(zero_one_of(self.rel@, self.a@.len(), self.a@.len()), self.a@.len()),
                    self.a@.len(),
                    p,
                ),
            pairs_within(self.a@, self.rel@) ==> forall|
                p: (u64, u64),
            |
                r.rel@.contains(p) <==> reach_within(
                    self.rel@,
                    p.0,
                    p.1,
                    if self.a@.len() > 1 {
                        self.a@.len()
                    } else {
                        1
                    },
                ),
            pairs_ascending(r.rel@),
    {
        let mut r = self.zero_one_matrix();
        let ghost m0 = r@;
        let n = r.ncols();
        let mut k: usize = 0;
        while k < n
            invariant
                n == self.a@.len(),
                m0 == zero_one_of(self.rel@, self.a@.len(), self.a@.len()),
                r.wf(),
                r.width() == n,
                r@.len() == n,
                0 <= k <= n,
                r@ == warshall(m0, k as nat),
            decreases n - k,
        {
            let col_k = r.column_matrix(k);
            let row_k = r.row_matrix(k);
            let outer = col_k.mul(&row_k);
            let ghost prev = r@;
            proof {
                assert forall|i: int, j: int| 0 <= i < n && 0 <= j < n implies outer@[i][j] == (
                prev[i][k as int] && prev[k as int][j]) by {
                    if prev[i][k as int] && prev[k as int][j] {
                        assert(col_k@[i][0] && row_k@[0][j]);
                    }
                }
            }
            r = r.bitor(&outer);
            proof {
                assert(r@ =~~= warshall_step(prev, k as int));
            }
            k += 1;
        }
        let out = r.into_relation();
        proof {
            if pairs_within(self.a@, self.rel@) {
                assert forall|p: (u64, u64)|
                    out.rel@.contains(p) <==> reach_within(
                        self.rel@,
                        p.0,
                        p.1,
                        if self.a@.len() > 1 {
                            self.a@.len()
                        } else {
                            1
                        },
                    ) by {
                    lemma_warshall_reach(self.a@, self.rel@, p);
                }
            }
        }
        out
    }

    /// The zero-one matrix: entry (i, j) is `true` iff the pair `(i, j)` is present; it has a
    /// row for each element of the domain and a column for each element of the codomain.
    /// Row and column indices are the elements themselves, so the domain and the codomain
    /// must each be `{0, ..., n - 1}` for some `n`.
    pub fn zero_one_matrix(&self) -> (r: RelationMatrix)
        requires
            self.a@ == range_set(self.a@.len()),
            self.b@ == range_set(self.b@.len()),
        ensures
            r.wf(),
            r.width() == self.b@.len(),
            r@ == zero_one_of(self.rel@, self.a@.len(), self.b@.len()),
    {
        let rows = self.a.len();
        let cols = self.b.len();
        let mut data: Vec<Vec<u8>> = Vec::new();
        let mut i: usize = 0;
        while i < rows
            invariant
                rows == self.a@.len(),
                cols == self.b@.len(),
                0 <= i <= rows,
                data@.len() == i,
                forall|k: int| 0 <= k < i ==> (#[trigger] data@[k]).len() == cols,
                forall|k: int, j: int|
                    0 <= k < i && 0 <= j < cols ==> (data@[k][j] != 0) == self.rel@.contains(
                        (k as u64, j as u64),
                    ),
            decreases rows - i,
        {
            let mut row: Vec<u8> = Vec::new();
            let mut j: usize = 0;
            while j < cols
                invariant
                    0 <= i < rows,
                    0 <= j <= cols,
                    row@.len() == j,
                    forall|l: int|
                        0 <= l < j ==> (row@[l] != 0) == self.rel@.contains((i as u64, l as u64)),
                decreases cols - j,
            {
                let present = contains_pair(&self.rel, (i as u64, j as u64));
                row.push(if present { 1u8 } else { 0u8 });
                j += 1;
            }
            data.push(row);
            i += 1;
        }
        let r = RelationMatrix::from_rows(cols, &data);
        assert(r@ =~~= zero_one_of(self.rel@, self.a@.len(), self.b@.len()));
        r
    }

    /// The reflexive closure on the domain `{0, ..., n - 1}`, where `n` is the size of the
    /// domain: the pairs present, with `(x, x)` added for each `x` of the domain.
    pub fn reflexive_closure(&self) -> (r: Self)
        requires
            self.a@ == self.b@,
            self.a@ == range_set(self.a@.len()),
        ensures
            r.a@ == range_set(self.a@.len()),
            r.b@ == range_set(self.a@.len()),
            forall|p: (u64, u64)|
                r.rel@.contains(p) <==> in_reflexive_closure(self.a@, self.rel@, self.a@.len(), p),
            pairs_ascending(r.rel@),
    {
        let m = self.zero_one_matrix();
        let d = self.diagonal().zero_one_matrix();
        let r = m.bitor(&d).into_relation();
        proof {
            let n = self.a@.len();
            assert forall|p: (u64, u64)|
                r.rel@.contains(p) <==> in_reflexive_closure(self.a@, self.rel@, n, p) by {
                if p.0 < n && p.1 < n {
                    assert(p == (p.0 as int as u64, p.1 as int as u64));
                }
            }
        }
        r
    }

    /// The symmetric closure on the domain `{0, ..., n - 1}`, where `n` is the size of the
    /// domain: the pairs present, with `(y, x)` added for each present `(x, y)`.
    pub fn symmetric_closure(&self) -> (r: Self)
        requires
            self.a@ == self.b@,
            self.a@ == range_set(self.a@.len()),
        ensures
            r.a@ == range_set(self.a@.len()),
            r.b@ == range_set(self.a@.len()),
            forall|p: (u64, u64)| r.rel@.contains(p) <==> in_symmetric_closure(self.rel@, self.a@.len(), p),
            pairs_ascending(r.rel@),
    {
        let m = self.zero_one_matrix();
        let t = m.transpose();
        let r = m.bitor(&t).into_relation();
        proof {
            let n = self.a@.len();
            assert forall|p: (u64, u64)| r.rel@.contains(p) <==> in_symmetric_closure(self.rel@, n, p) by {
                if p.0 < n && p.1 < n {
                    assert(p == (p.0 as int as u64, p.1 as int as u64));
                    assert((p.1, p.0) == (p.1 as int as u64, p.0 as int as u64));
                }
            }
        }
        r
    }
}

impl RelationMatrix {
    /// The relation of the `true` entries: pair `(i, j)` for each, in row-major order, over
    /// the domain `{0, ..., rows - 1}` and the codomain `{0, ..., cols - 1}`.
    pub fn into_relation(&self) -> (r: Relation)
        requires
            self.wf(),
        ensures
            r.a@ == range_set(self@.len()),
            r.b@ == range_set(self.width()),
            forall|p: (u64, u64)| r.rel@.contains(p) <==> entry_pair(self@, self.width(), p),
            pairs_ascending(r.rel@),
    {
        let rows = self.nrows();
        let cols = self.ncols();
        let mut rel: Vec<(u64, u64)> = Vec::new();
        let mut i: usize = 0;
        while i < rows
            invariant
                self.wf(),
                rows == self@.len(),
                cols == self.width(),
                0 <= i <= rows,
                pairs_ascending(rel@),
                forall|p: (u64, u64)|
                    rel@.contains(p) <==> (p.0 < i && entry_pair(self@, self.width(), p)),
            decreases rows - i,
        {
            let mut j: usize = 0;
            while j < cols
                invariant
                    self.wf(),
                    rows == self@.len(),
                    cols == self.width(),
                    0 <= i < rows,
                    0 <= j <= cols,
                    pairs_ascending(rel@),
                    forall|p: (u64, u64)|
                        rel@.contains(p) <==> ((p.0 < i || (p.0 == i && p.1 < j)) && entry_pair(
                            self@,
                            self.width(),
                            p,
                        )),
                decreases cols - j,
            {
                if self.get(i, j) {
                    let ghost old_rel = rel@;
                    let p = (i as u64, j as u64);
                    rel.push(p);
                    proof {
                        assert(rel@ == old_rel.push(p));
                        assert forall|k: int| 0 <= k < old_rel.len() implies pair_lt(old_rel[k], p) by {
                            assert(old_rel.contains(old_rel[k]));
                        }
                        assert forall|q: (u64, u64)|
                            rel@.contains(q) <==> ((q.0 < i || (q.0 == i && q.1 < j + 1))
                                && entry_pair(self@, self.width(), q)) by {
                            if rel@.contains(q) && q != p {
                                let k = choose|k: int| 0 <= k < rel@.len() && rel@[k] == q;
                                assert(k < old_rel.len());
                                assert(old_rel.contains(q));
                            }
                            if ((q.0 < i || (q.0 == i && q.1 < j + 1)) && entry_pair(
                                self@,
                                self.width(),
                                q,
                            )) && q != p {
                                assert(old_rel.contains(q));
                                let k = choose|k: int| 0 <= k < old_rel.len() && old_rel[k] == q;
                                assert(rel@[k] == q);
                            }
                            if q == p {
                                assert(rel@[old_rel.len() as int] == p);
                            }
                        }
                    }
                } else {
                    assert forall|q: (u64, u64)|
                        rel@.contains(q) <==> ((q.0 < i || (q.0 == i && q.1 < j + 1)) && entry_pair(
                            self@,
                            self.width(),
                            q,
                        )) by {
                        if q == (i as u64, j as u64) {
                            assert(!entry_pair(self@, self.width(), q));
                        }
                    }
                }
                j += 1;
            }
            i += 1;
        }
        Relation { a: range_hash_set(rows), b: range_hash_set(cols), rel }
    }
}

} // verus!
