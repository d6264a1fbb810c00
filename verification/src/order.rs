//! Stable ordering by byte strings.

use vstd::prelude::*;

use crate::text::{bytes_before, precedes};

verus! {

/// In a stable sort by `keys`, position `i` comes before position `j`.
pub open spec fn sorts_before(keys: Seq<Seq<u8>>, i: int, j: int) -> bool {
    bytes_before(keys[i], keys[j]) || (keys[i] == keys[j] && i < j)
}

/// `order` lists every position of `keys` once, in the order of a stable
/// sort.
pub open spec fn is_ranking(keys: Seq<Seq<u8>>, order: Seq<int>) -> bool {
    &&& order.len() == keys.len()
    &&& forall|a: int| 0 <= a < order.len() ==> 0 <= #[trigger] order[a] < keys.len()
    &&& forall|a: int, b: int|
        0 <= a < b < order.len() ==> sorts_before(keys, #[trigger] order[a], #[trigger] order[b])
}

/// The positions of `keys` in the order of a stable sort.
pub open spec fn ranking(keys: Seq<Seq<u8>>) -> Seq<int> {
    choose|order: Seq<int>| is_ranking(keys, order)
}

pub proof fn lemma_bytes_irreflexive(a: Seq<u8>)
    ensures
        !bytes_before(a, a),
    decreases a.len(),
{
    if a.len() > 0 {
        lemma_bytes_irreflexive(a.skip(1));
    }
}

proof fn lemma_bytes_transitive(a: Seq<u8>, b: Seq<u8>, c: Seq<u8>)
    requires
        bytes_before(a, b),
        bytes_before(b, c),
    ensures
        bytes_before(a, c),
    decreases a.len(),
{
    if a.len() > 0 && a[0] == b[0] && b[0] == c[0] {
        lemma_bytes_transitive(a.skip(1), b.skip(1), c.skip(1));
    }
}

proof fn lemma_bytes_total(a: Seq<u8>, b: Seq<u8>)
    ensures
        bytes_before(a, b) || bytes_before(b, a) || a == b,
    decreases a.len(),
{
    if a.len() == 0 || b.len() == 0 {
        if a.len() == b.len() {
            assert(a =~= b);
        }
    } else {
        lemma_bytes_total(a.skip(1), b.skip(1));
        if a[0] == b[0] && a.skip(1) == b.skip(1) {
            assert(a =~= seq![a[0]] + a.skip(1));
            assert(b =~= seq![b[0]] + b.skip(1));
        }
    }
}

/// A proper prefix comes before what it begins.
pub proof fn lemma_prefix_before(a: Seq<u8>, b: Seq<u8>)
    requires
        a.len() < b.len(),
        b.take(a.len() as int) == a,
    ensures
        bytes_before(a, b),
    decreases a.len(),
{
    if a.len() > 0 {
        assert(a[0] == b.take(a.len() as int)[0]);
        assert(b.skip(1).take(a.len() - 1) =~= b.take(a.len() as int).skip(1));
        lemma_prefix_before(a.skip(1), b.skip(1));
    }
}

pub proof fn lemma_sorts_asymmetric(keys: Seq<Seq<u8>>, i: int, j: int)
    requires
        sorts_before(keys, i, j),
    ensures
        !sorts_before(keys, j, i),
{
    if sorts_before(keys, j, i) {
        lemma_bytes_irreflexive(keys[i]);
        if bytes_before(keys[i], keys[j]) && bytes_before(keys[j], keys[i]) {
            lemma_bytes_transitive(keys[i], keys[j], keys[i]);
        }
    }
}

pub proof fn lemma_sorts_transitive(keys: Seq<Seq<u8>>, i: int, j: int, k: int)
    requires
        sorts_before(keys, i, j),
        sorts_before(keys, j, k),
    ensures
        sorts_before(keys, i, k),
{
    if bytes_before(keys[i], keys[j]) && bytes_before(keys[j], keys[k]) {
        lemma_bytes_transitive(keys[i], keys[j], keys[k]);
    }
}

/// Numbers below `n` that all differ are at most `n`, and all of them if
/// they are `n`.
pub proof fn lemma_distinct_below(s: Seq<int>, n: int)
    requires
        n >= 0,
        forall|a: int| 0 <= a < s.len() ==> 0 <= #[trigger] s[a] < n,
        forall|a: int, b: int| 0 <= a < b < s.len() ==> #[trigger] s[a] != #[trigger] s[b],
    ensures
        s.len() <= n,
        s.len() == n ==> forall|x: int| 0 <= x < n ==> s.contains(x),
{
    let all = vstd::set_lib::set_int_range(0, n);
    vstd::set_lib::lemma_int_range(0, n);
    assert(s.no_duplicates());
    s.unique_seq_to_set();
    let mine = s.to_set();
    assert forall|x: int| mine.contains(x) implies all.contains(x) by {
        assert(s.contains(x));
    }
    vstd::set_lib::lemma_len_subset(mine, all);
    if s.len() == n {
        vstd::set_lib::lemma_subset_equality(mine, all);
        assert forall|x: int| 0 <= x < n implies s.contains(x) by {
            assert(all.contains(x));
            assert(mine.contains(x));
        }
    }
}

/// No position is listed twice in a ranking, and none is left out.
pub proof fn lemma_ranking_is_permutation(keys: Seq<Seq<u8>>, order: Seq<int>)
    requires
        is_ranking(keys, order),
    ensures
        forall|a: int, b: int| 0 <= a < b < order.len() ==> #[trigger] order[a] != #[trigger] order[b],
        forall|x: int| 0 <= x < keys.len() ==> order.contains(x),
{
    assert forall|a: int, b: int| 0 <= a < b < order.len() implies #[trigger] order[a] != #[trigger] order[b] by {
        assert(sorts_before(keys, order[a], order[b]));
        lemma_bytes_irreflexive(keys[order[a]]);
    }
    lemma_distinct_below(order, keys.len() as int);
}

/// There is one ranking at most.
pub proof fn lemma_ranking_unique(keys: Seq<Seq<u8>>, p: Seq<int>, q: Seq<int>)
    requires
        is_ranking(keys, p),
        is_ranking(keys, q),
    ensures
        p == q,
{
    lemma_ranking_is_permutation(keys, p);
    lemma_ranking_is_permutation(keys, q);
    lemma_rankings_agree(keys, p, q, p.len() as int);
    assert(p =~= q);
}

proof fn lemma_rankings_agree(keys: Seq<Seq<u8>>, p: Seq<int>, q: Seq<int>, n: int)
    requires
        is_ranking(keys, p),
        is_ranking(keys, q),
        forall|a: int, b: int| 0 <= a < b < p.len() ==> #[trigger] p[a] != #[trigger] p[b],
        forall|a: int, b: int| 0 <= a < b < q.len() ==> #[trigger] q[a] != #[trigger] q[b],
        forall|x: int| 0 <= x < keys.len() ==> p.contains(x),
        forall|x: int| 0 <= x < keys.len() ==> q.contains(x),
        0 <= n <= keys.len(),
    ensures
        forall|a: int| 0 <= a < n ==> #[trigger] p[a] == q[a],
    decreases n,
{
    if n > 0 {
        let i = n - 1;
        lemma_rankings_agree(keys, p, q, i);
        if p[i] != q[i] {
            assert(q.contains(p[i]));
            let j = choose|j: int| 0 <= j < q.len() && q[j] == p[i];
            assert(p.contains(q[i]));
            let k = choose|k: int| 0 <= k < p.len() && p[k] == q[i];
            if j < i {
                assert(p[j] == q[j]);
            }
            if k < i {
                assert(p[k] == q[k]);
            }
            assert(sorts_before(keys, q[i], q[j]));
            assert(sorts_before(keys, p[i], p[k]));
            lemma_sorts_asymmetric(keys, p[i], q[i]);
        }
    }
}

/// Byte strings as their contents.
pub open spec fn key_bytes(keys: Seq<Vec<u8>>) -> Seq<Seq<u8>> {
    keys.map_values(|k: Vec<u8>| k@)
}

/// Positions as numbers.
pub open spec fn positions(v: Seq<usize>) -> Seq<int> {
    v.map_values(|i: usize| i as int)
}

/// The positions `v` all lie in `lo..hi`, in the order of a stable sort.
spec fn in_order(keys: Seq<Seq<u8>>, v: Seq<usize>, lo: int, hi: int) -> bool {
    &&& forall|a: int| 0 <= a < v.len() ==> lo <= #[trigger] v[a] < hi
    &&& forall|a: int, b: int|
        0 <= a < b < v.len() ==> sorts_before(keys, #[trigger] v[a] as int, #[trigger] v[b] as int)
}

/// Everything in `x` comes before everything in `y` from position `j` on.
spec fn all_before(keys: Seq<Seq<u8>>, x: Seq<usize>, y: Seq<usize>, j: int) -> bool {
    forall|a: int, b: int|
        0 <= a < x.len() && j <= b < y.len() ==> sorts_before(keys, #[trigger] x[a] as int, #[trigger] y[b] as int)
}

/// Appends to `out`, which comes before all of `x[i..]` and `y[j..]`, the
/// position `x[i]`, which comes before all of `y[j..]`.
fn merge_step(
    keys: &Vec<Vec<u8>>,
    out: &mut Vec<usize>,
    x: &Vec<usize>,
    y: &Vec<usize>,
    i: usize,
    j: usize,
    Ghost(lo): Ghost<int>,
    Ghost(hi): Ghost<int>,
)
    requires
        i < x@.len(),
        j <= y@.len(),
        in_order(key_bytes(keys@), old(out)@, lo, hi),
        in_order(key_bytes(keys@), x@, lo, hi),
        in_order(key_bytes(keys@), y@, lo, hi),
        all_before(key_bytes(keys@), old(out)@, x@, i as int),
        all_before(key_bytes(keys@), old(out)@, y@, j as int),
        forall|b: int| j <= b < y@.len() ==> sorts_before(key_bytes(keys@), x@[i as int] as int, #[trigger] y@[b] as int),
    ensures
        final(out)@ == old(out)@.push(x@[i as int]),
        in_order(key_bytes(keys@), final(out)@, lo, hi),
        all_before(key_bytes(keys@), final(out)@, x@, i + 1),
        all_before(key_bytes(keys@), final(out)@, y@, j as int),
{
    out.push(x[i]);
}

/// Merges two ordered lists of positions, the first all below the second.
#[verifier::spinoff_prover]
fn merge(keys: &Vec<Vec<u8>>, x: &Vec<usize>, y: &Vec<usize>, Ghost(lo): Ghost<int>, Ghost(mid): Ghost<int>, Ghost(hi): Ghost<int>) -> (out:
    Vec<usize>)
    requires
        0 <= lo <= mid <= hi <= keys@.len(),
        in_order(key_bytes(keys@), x@, lo, mid),
        in_order(key_bytes(keys@), y@, mid, hi),
        x@.len() + y@.len() <= usize::MAX,
    ensures
        out@.len() == x@.len() + y@.len(),
        in_order(key_bytes(keys@), out@, lo, hi),
{
    let ghost k = key_bytes(keys@);
    let mut out: Vec<usize> = Vec::new();
    let mut i: usize = 0;
    let mut j: usize = 0;
    while i < x.len() || j < y.len()
        invariant
            k == key_bytes(keys@),
            0 <= lo <= mid <= hi <= keys@.len(),
            i <= x@.len(),
            j <= y@.len(),
            out@.len() == i + j,
            in_order(k, x@, lo, mid),
            in_order(k, y@, mid, hi),
            in_order(k, out@, lo, hi),
            all_before(k, out@, x@, i as int),
            all_before(k, out@, y@, j as int),
        decreases x@.len() - i + y@.len() - j,
    {
        if j == y.len() {
            merge_step(keys, &mut out, x, y, i, j, Ghost(lo), Ghost(hi));
            i += 1;
        } else if i == x.len() {
            merge_step(keys, &mut out, y, x, j, i, Ghost(lo), Ghost(hi));
            j += 1;
        } else {
            let a: usize = x[i];
            let b: usize = y[j];
            assert(k[a as int] == keys@[a as int]@ && k[b as int] == keys@[b as int]@);
            if precedes(&keys[b], &keys[a]) {
                proof {
                    assert(sorts_before(k, b as int, a as int));
                    assert forall|c: int| i <= c < x@.len() implies sorts_before(k, b as int, #[trigger] x@[c] as int) by {
                        if c > i {
                            assert(sorts_before(k, x@[i as int] as int, x@[c] as int));
                            lemma_sorts_transitive(k, b as int, a as int, x@[c] as int);
                        }
                    }
                }
                merge_step(keys, &mut out, y, x, j, i, Ghost(lo), Ghost(hi));
                j += 1;
            } else {
                proof {
                    lemma_bytes_total(k[a as int], k[b as int]);
                    assert(sorts_before(k, a as int, b as int));
                    assert forall|c: int| j <= c < y@.len() implies sorts_before(k, a as int, #[trigger] y@[c] as int) by {
                        if c > j {
                            assert(sorts_before(k, y@[j as int] as int, y@[c] as int));
                            lemma_sorts_transitive(k, a as int, b as int, y@[c] as int);
                        }
                    }
                }
                merge_step(keys, &mut out, x, y, i, j, Ghost(lo), Ghost(hi));
                i += 1;
            }
        }
    }
    out
}

fn sort_range(keys: &Vec<Vec<u8>>, lo: usize, hi: usize) -> (out: Vec<usize>)
    requires
        lo <= hi <= keys@.len(),
    ensures
        out@.len() == hi - lo,
        in_order(key_bytes(keys@), out@, lo as int, hi as int),
    decreases hi - lo,
{
    let mut out: Vec<usize> = Vec::new();
    if hi - lo == 1 {
        out.push(lo);
    } else if hi - lo > 1 {
        let mid: usize = lo + (hi - lo) / 2;
        let x = sort_range(keys, lo, mid);
        let y = sort_range(keys, mid, hi);
        out = merge(keys, &x, &y, Ghost(lo as int), Ghost(mid as int), Ghost(hi as int));
    }
    out
}

/// Orders the positions of `keys` as a stable sort by the keys does.
pub fn rank(keys: &Vec<Vec<u8>>) -> (order: Vec<usize>)
    ensures
        is_ranking(key_bytes(keys@), positions(order@)),
        positions(order@) == ranking(key_bytes(keys@)),
{
    let order = sort_range(keys, 0, keys.len());
    proof {
        let k = key_bytes(keys@);
        let p = positions(order@);
        assert(is_ranking(k, p));
        lemma_ranking_unique(k, p, ranking(k));
    }
    order
}

/// Every list of keys can be ranked, in one way.
pub proof fn law_ranking(keys: Seq<Seq<u8>>)
    ensures
        is_ranking(keys, ranking(keys)),
        forall|order: Seq<int>| is_ranking(keys, order) ==> order == ranking(keys),
{
    let order = lemma_some_ranking(keys);
    assert forall|other: Seq<int>| is_ranking(keys, other) implies other == ranking(keys) by {
        lemma_ranking_unique(keys, other, ranking(keys));
    }
}

/// Ranks the keys but the last, then finds the last one's place.
proof fn lemma_some_ranking(keys: Seq<Seq<u8>>) -> (order: Seq<int>)
    ensures
        is_ranking(keys, order),
    decreases keys.len(),
{
    if keys.len() == 0 {
        Seq::empty()
    } else {
        let rest = keys.drop_last();
        let n = keys.len() - 1;
        let o = lemma_some_ranking(rest);
        assert(forall|i: int, j: int| 0 <= i < n && 0 <= j < n ==> sorts_before(rest, i, j) == sorts_before(keys, i, j));
        let at = lemma_place(keys, o, n as int, n as int);
        let order = o.take(at) + seq![n as int] + o.skip(at);
        assert forall|a: int, b: int| 0 <= a < b < order.len() implies sorts_before(keys, #[trigger] order[a], #[trigger] order[b]) by {
            if a < at && b > at {
                assert(sorts_before(keys, o[a], o[b - 1]));
            }
        }
        order
    }
}

/// The place in the first `m` positions of `o` before which the last key
/// does not belong and after which it does not either.
proof fn lemma_place(keys: Seq<Seq<u8>>, o: Seq<int>, n: int, m: int) -> (at: int)
    requires
        n == keys.len() - 1,
        o.len() == n,
        0 <= m <= n,
        forall|a: int| 0 <= a < n ==> 0 <= #[trigger] o[a] < n,
        forall|a: int, b: int| 0 <= a < b < n ==> sorts_before(keys, #[trigger] o[a], #[trigger] o[b]),
    ensures
        0 <= at <= m,
        forall|a: int| 0 <= a < at ==> sorts_before(keys, #[trigger] o[a], n),
        forall|a: int| at <= a < m ==> sorts_before(keys, n, #[trigger] o[a]),
    decreases m,
{
    if m == 0 {
        0
    } else {
        lemma_bytes_total(keys[o[m - 1]], keys[n]);
        if sorts_before(keys, o[m - 1], n) {
            assert forall|a: int| 0 <= a < m implies sorts_before(keys, #[trigger] o[a], n) by {
                if a < m - 1 {
                    lemma_sorts_transitive(keys, o[a], o[m - 1], n);
                }
            }
            m
        } else {
            lemma_place(keys, o, n, m - 1)
        }
    }
}

/// Sorting puts smaller keys first, and of equal keys those that came first.
/// Every key is kept, once.
pub proof fn law_sorting_is_stable(keys: Seq<Seq<u8>>, a: int, b: int, i: int)
    requires
        0 <= a < b < keys.len(),
        0 <= i < keys.len(),
    ensures
        ({
            let order = ranking(keys);
            &&& order.len() == keys.len()
            &&& order.contains(i)
            &&& 0 <= order[a] < keys.len() && 0 <= order[b] < keys.len()
            &&& keys[order[a]] == keys[order[b]] ==> order[a] < order[b]
            &&& keys[order[a]] != keys[order[b]] ==> bytes_before(keys[order[a]], keys[order[b]])
            &&& !bytes_before(keys[order[b]], keys[order[a]])
        }),
{
    law_ranking(keys);
    let order = ranking(keys);
    lemma_ranking_is_permutation(keys, order);
    assert(sorts_before(keys, order[a], order[b]));
    lemma_sorts_asymmetric(keys, order[a], order[b]);
    lemma_bytes_irreflexive(keys[order[a]]);
}

} // verus!
