//! Trees given by the parent of each node, walked from a root.

use vstd::prelude::*;

use crate::order::{lemma_distinct_below, positions};

verus! {

/// Among the first `n` nodes, those whose parent is `p`, in order. The root
/// is nobody's child.
pub open spec fn children(up: Seq<Option<int>>, root: int, p: int, n: int) -> Seq<int>
    decreases n,
{
    if n <= 0 {
        Seq::empty()
    } else {
        let rest = children(up, root, p, n - 1);
        if n - 1 != root && up[n - 1] == Some(p) {
            rest.push(n - 1)
        } else {
            rest
        }
    }
}

/// What a breadth-first walk from `root` has met once it has visited `n`
/// nodes.
pub open spec fn walk(up: Seq<Option<int>>, root: int, n: nat) -> Seq<int>
    decreases n,
{
    if n == 0 {
        seq![root]
    } else {
        let met = walk(up, root, (n - 1) as nat);
        if n - 1 < met.len() {
            met + children(up, root, met[n - 1], up.len() as int)
        } else {
            met
        }
    }
}

/// The nodes below `root`, itself first, in the order of a breadth-first
/// walk.
pub open spec fn reached(up: Seq<Option<int>>, root: int) -> Seq<int> {
    walk(up, root, up.len())
}

/// From `i`, `root` is at most `steps` parents away.
pub open spec fn climbs(up: Seq<Option<int>>, root: int, i: int, steps: nat) -> bool
    decreases steps,
{
    i == root || (steps > 0 && match up[i] {
        Some(p) => climbs(up, root, p, (steps - 1) as nat),
        None => false,
    })
}

/// `a` is `i`, or one of at most `steps` parents above it.
pub open spec fn at_or_above(up: Seq<Option<int>>, i: int, a: int, steps: nat) -> bool
    decreases steps,
{
    i == a || (steps > 0 && match up[i] {
        Some(p) => at_or_above(up, p, a, (steps - 1) as nat),
        None => false,
    })
}

/// Every parent is a node.
pub open spec fn parents_in_range(up: Seq<Option<int>>) -> bool {
    forall|i: int| 0 <= i < up.len() ==> (#[trigger] up[i] matches Some(p) ==> 0 <= p < up.len())
}

proof fn lemma_children(up: Seq<Option<int>>, root: int, p: int, n: int)
    requires
        0 <= n <= up.len(),
    ensures
        ({
            let k = children(up, root, p, n);
            &&& forall|a: int| 0 <= a < k.len() ==> 0 <= #[trigger] k[a] < n && k[a] != root && up[k[a]] == Some(p)
            &&& forall|a: int, b: int| 0 <= a < b < k.len() ==> #[trigger] k[a] < #[trigger] k[b]
            &&& forall|c: int| 0 <= c < n && c != root && #[trigger] up[c] == Some(p) ==> k.contains(c)
        }),
    decreases n,
{
    if n > 0 {
        lemma_children(up, root, p, n - 1);
        let rest = children(up, root, p, n - 1);
        let k = children(up, root, p, n);
        assert forall|c: int| 0 <= c < n && c != root && #[trigger] up[c] == Some(p) implies k.contains(c) by {
            if c < n - 1 {
                assert(rest.contains(c));
                let a = choose|a: int| 0 <= a < rest.len() && rest[a] == c;
                assert(k[a] == c);
            } else {
                assert(k.last() == c);
            }
        }
    }
}

/// Where the parent of `w[j]` stands in `w`, below `j` and below `n`.
spec fn parent_earlier(up: Seq<Option<int>>, w: Seq<int>, j: int, n: int) -> bool {
    exists|k: int| 0 <= k < j && k < n && up[w[j]] == Some(#[trigger] w[k])
}

/// What a walk has met are nodes, none twice, and each but the root has its
/// parent earlier in it. The children of the nodes visited are all met.
spec fn well_walked(up: Seq<Option<int>>, root: int, w: Seq<int>, n: int) -> bool {
    &&& w.len() > 0
    &&& w[0] == root
    &&& forall|a: int| 0 <= a < w.len() ==> 0 <= #[trigger] w[a] < up.len()
    &&& forall|a: int, b: int| 0 <= a < b < w.len() ==> #[trigger] w[a] != #[trigger] w[b]
    &&& forall|j: int| 1 <= j < w.len() ==> #[trigger] w[j] != root && parent_earlier(up, w, j, n)
    &&& forall|k: int, c: int|
        0 <= k < n && k < w.len() && 0 <= c < up.len() && c != root && up[c] == Some(#[trigger] w[k]) ==> #[trigger] w.contains(c)
}

#[verifier::spinoff_prover]
proof fn lemma_walk_step(up: Seq<Option<int>>, root: int, w: Seq<int>, n: int)
    requires
        0 <= root < up.len(),
        0 <= n < w.len(),
        well_walked(up, root, w, n),
    ensures
        well_walked(up, root, w + children(up, root, w[n], up.len() as int), n + 1),
{
    let k = children(up, root, w[n], up.len() as int);
    let v = w + k;
    lemma_children(up, root, w[n], up.len() as int);
    assert forall|a: int, b: int| 0 <= a < b < v.len() implies #[trigger] v[a] != #[trigger] v[b] by {
        if b >= w.len() {
            let c = k[b - w.len()];
            assert(v[b] == c && up[c] == Some(w[n]) && c != root);
            if a < w.len() {
                if w[a] == c {
                    assert(a >= 1);
                    assert(parent_earlier(up, w, a, n));
                    let e = choose|e: int| 0 <= e < a && e < n && up[w[a]] == Some(#[trigger] w[e]);
                    assert(w[e] == w[n]);
                }
            } else {
                assert(v[a] == k[a - w.len()]);
            }
        } else {
            assert(v[a] == w[a] && v[b] == w[b]);
        }
    }
    assert forall|j: int| 1 <= j < v.len() implies #[trigger] v[j] != root && parent_earlier(up, v, j, n + 1) by {
        if j < w.len() {
            assert(v[j] == w[j]);
            assert(parent_earlier(up, w, j, n));
            let e = choose|e: int| 0 <= e < j && e < n && up[w[j]] == Some(#[trigger] w[e]);
            assert(v[e] == w[e]);
        } else {
            assert(v[j] == k[j - w.len()]);
            assert(v[n] == w[n]);
        }
    }
    assert forall|e: int, c: int|
        0 <= e < n + 1 && e < v.len() && 0 <= c < up.len() && c != root && up[c] == Some(#[trigger] v[e]) implies #[trigger] v.contains(c) by {
        assert(v[e] == w[e]);
        if e < n {
            assert(w.contains(c));
            let a = choose|a: int| 0 <= a < w.len() && w[a] == c;
            assert(v[a] == c);
        } else {
            assert(k.contains(c));
            let a = choose|a: int| 0 <= a < k.len() && k[a] == c;
            assert(v[w.len() + a] == c);
        }
    }
    assert forall|a: int| 0 <= a < v.len() implies 0 <= #[trigger] v[a] < up.len() by {
        if a >= w.len() {
            assert(v[a] == k[a - w.len()]);
        }
    }
    assert(v[0] == w[0]);
}

proof fn lemma_walk(up: Seq<Option<int>>, root: int, n: nat)
    requires
        0 <= root < up.len(),
    ensures
        well_walked(up, root, walk(up, root, n), n as int),
        walk(up, root, n).len() <= up.len(),
    decreases n,
{
    let w = walk(up, root, n);
    if n == 0 {
        assert(w =~= seq![root]);
    } else {
        let met = walk(up, root, (n - 1) as nat);
        lemma_walk(up, root, (n - 1) as nat);
        if n - 1 < met.len() {
            lemma_walk_step(up, root, met, n - 1);
        } else {
            assert forall|j: int| 1 <= j < met.len() implies #[trigger] met[j] != root && parent_earlier(up, met, j, n as int) by {
                assert(parent_earlier(up, met, j, n - 1));
                let e = choose|e: int| 0 <= e < j && e < n - 1 && up[met[j]] == Some(#[trigger] met[e]);
                assert(up[met[j]] == Some(met[e]));
            }
        }
    }
    lemma_distinct_below(w, up.len() as int);
}

/// A walk that has visited all that it met stays as it is.
proof fn lemma_walk_ends(up: Seq<Option<int>>, root: int, n: nat, more: nat)
    requires
        walk(up, root, n).len() <= n <= more,
    ensures
        walk(up, root, more) == walk(up, root, n),
    decreases more,
{
    if more > n {
        lemma_walk_ends(up, root, n, (more - 1) as nat);
    }
}

/// What lies below the root: every node once, the root first, each other
/// node after its parent.
pub proof fn lemma_reached(up: Seq<Option<int>>, root: int)
    requires
        0 <= root < up.len(),
    ensures
        ({
            let w = reached(up, root);
            &&& 0 < w.len() <= up.len()
            &&& w[0] == root
            &&& forall|a: int| 0 <= a < w.len() ==> 0 <= #[trigger] w[a] < up.len()
            &&& forall|a: int, b: int| 0 <= a < b < w.len() ==> #[trigger] w[a] != #[trigger] w[b]
            &&& forall|j: int|
                1 <= j < w.len() ==> #[trigger] w[j] != root && exists|k: int|
                    0 <= k < j && up[w[j]] == Some(#[trigger] w[k])
        }),
{
    lemma_walk(up, root, up.len());
    let w = reached(up, root);
    assert forall|j: int| 1 <= j < w.len() implies #[trigger] w[j] != root && exists|k: int|
        0 <= k < j && up[w[j]] == Some(#[trigger] w[k]) by {
        assert(parent_earlier(up, w, j, up.len() as int));
        let e = choose|e: int| 0 <= e < j && e < up.len() && up[w[j]] == Some(#[trigger] w[e]);
        assert(up[w[j]] == Some(w[e]));
    }
}

/// The node that is met at position `j` is at most `j` steps below the root.
pub proof fn lemma_reached_climbs(up: Seq<Option<int>>, root: int, j: int)
    requires
        0 <= root < up.len(),
        0 <= j < reached(up, root).len(),
    ensures
        climbs(up, root, reached(up, root)[j], j as nat),
    decreases j,
{
    let w = reached(up, root);
    lemma_reached(up, root);
    if j > 0 {
        let c = w[j];
        let k = choose|k: int| 0 <= k < j && up[w[j]] == Some(#[trigger] w[k]);
        lemma_reached_climbs(up, root, k);
        lemma_climbs_more(up, root, w[k], k as nat, (j - 1) as nat);
    }
}

/// More steps do no harm.
pub proof fn lemma_climbs_more(up: Seq<Option<int>>, root: int, i: int, steps: nat, more: nat)
    requires
        climbs(up, root, i, steps),
        steps <= more,
    ensures
        climbs(up, root, i, more),
    decreases more,
{
    if i != root {
        let p = up[i]->Some_0;
        lemma_climbs_more(up, root, p, (steps - 1) as nat, (more - 1) as nat);
    }
}

proof fn lemma_climbs_is_reached(up: Seq<Option<int>>, root: int, i: int, steps: nat)
    requires
        0 <= root < up.len(),
        parents_in_range(up),
        0 <= i < up.len(),
        climbs(up, root, i, steps),
    ensures
        reached(up, root).contains(i),
    decreases steps,
{
    let w = reached(up, root);
    lemma_walk(up, root, up.len());
    if i == root {
        assert(w[0] == i);
    } else {
        let p = up[i]->Some_0;
        lemma_climbs_is_reached(up, root, p, (steps - 1) as nat);
        let k = choose|k: int| 0 <= k < w.len() && w[k] == p;
        assert(up[i] == Some(w[k]));
    }
}

/// The walk from the root meets exactly the nodes from which climbing from
/// parent to parent leads to the root, and none of them twice.
pub proof fn law_reached_are_descendants(up: Seq<Option<int>>, root: int, i: int)
    requires
        0 <= root < up.len(),
        parents_in_range(up),
        0 <= i < up.len(),
    ensures
        reached(up, root).contains(i) <==> climbs(up, root, i, up.len()),
        reached(up, root).no_duplicates(),
{
    let w = reached(up, root);
    lemma_reached(up, root);
    if w.contains(i) {
        let j = choose|j: int| 0 <= j < w.len() && w[j] == i;
        lemma_reached_climbs(up, root, j);
        lemma_climbs_more(up, root, i, j as nat, up.len());
    }
    if climbs(up, root, i, up.len()) {
        lemma_climbs_is_reached(up, root, i, up.len());
    }
}

/// The parents of nodes, as numbers.
pub open spec fn parents(up: Seq<Option<usize>>) -> Seq<Option<int>> {
    up.map_values(
        |p: Option<usize>|
            match p {
                Some(i) => Some(i as int),
                None => None,
            },
    )
}

/// Lists the children of every node.
fn list_children(up: &Vec<Option<usize>>, root: usize) -> (kids: Vec<Vec<usize>>)
    requires
        parents_in_range(parents(up@)),
    ensures
        kids@.len() == up@.len(),
        forall|p: int|
            0 <= p < up@.len() ==> positions(#[trigger] kids@[p]@) == children(
                parents(up@),
                root as int,
                p,
                up@.len() as int,
            ),
{
    let ghost u = parents(up@);
    let mut kids: Vec<Vec<usize>> = Vec::new();
    let mut i: usize = 0;
    while i < up.len()
        invariant
            i <= up@.len(),
            kids@.len() == i,
            forall|p: int| 0 <= p < i ==> (#[trigger] kids@[p])@ == Seq::<usize>::empty(),
        decreases up@.len() - i,
    {
        kids.push(Vec::new());
        i += 1;
    }
    assert forall|p: int| 0 <= p < up@.len() implies positions(#[trigger] kids@[p]@) == children(u, root as int, p, 0) by {
        assert(positions(kids@[p]@) =~= Seq::empty());
    }
    i = 0;
    while i < up.len()
        invariant
            i <= up@.len(),
            u == parents(up@),
            parents_in_range(u),
            kids@.len() == up@.len(),
            forall|p: int|
                0 <= p < up@.len() ==> positions(#[trigger] kids@[p]@) == children(u, root as int, p, i as int),
        decreases up@.len() - i,
    {
        let ghost before = kids@;
        if i != root {
            if let Some(p) = up[i] {
                assert(u[i as int] == Some(p as int));
                kids[p].push(i);
                assert(kids@[p as int]@ == before[p as int]@.push(i));
                assert(positions(kids@[p as int]@) =~= positions(before[p as int]@).push(i as int));
            } else {
                assert(u[i as int] is None);
            }
        }
        assert forall|p: int| 0 <= p < up@.len() implies positions(#[trigger] kids@[p]@) == children(
            u,
            root as int,
            p,
            i + 1,
        ) by {
            assert(positions(before[p]@) == children(u, root as int, p, i as int));
        }
        i += 1;
    }
    kids
}

/// Walks the tree breadth-first from `root`.
pub fn walk_tree(up: &Vec<Option<usize>>, root: usize) -> (met: Vec<usize>)
    requires
        root < up@.len(),
        parents_in_range(parents(up@)),
    ensures
        positions(met@) == reached(parents(up@), root as int),
{
    let ghost u = parents(up@);
    let kids = list_children(up, root);
    let mut met: Vec<usize> = Vec::new();
    met.push(root);
    assert(positions(met@) =~= seq![root as int]);
    let mut n: usize = 0;
    while n < met.len()
        invariant
            u == parents(up@),
            root < up@.len(),
            parents_in_range(u),
            kids@.len() == up@.len(),
            forall|p: int|
                0 <= p < up@.len() ==> positions(#[trigger] kids@[p]@) == children(u, root as int, p, up@.len() as int),
            positions(met@) == walk(u, root as int, n as nat),
            n <= met@.len() <= up@.len(),
        decreases up@.len() - n,
    {
        proof {
            lemma_walk(u, root as int, n as nat);
            lemma_walk(u, root as int, (n + 1) as nat);
            assert(positions(met@)[n as int] == met@[n as int]);
        }
        let at: usize = met[n];
        let ghost before = met@;
        let mut k: usize = 0;
        assert(before.len() + kids@[at as int]@.len() <= up@.len()) by {
            assert(walk(u, root as int, (n + 1) as nat).len() == before.len() + kids@[at as int]@.len());
        }
        while k < kids[at].len()
            invariant
                at < kids@.len(),
                k <= kids@[at as int]@.len(),
                met@ == before + kids@[at as int]@.take(k as int),
            decreases kids@[at as int]@.len() - k,
        {
            met.push(kids[at][k]);
            k += 1;
            assert(met@ =~= before + kids@[at as int]@.take(k as int));
        }
        assert(met@ =~= before + kids@[at as int]@);
        assert(positions(met@) =~= positions(before) + positions(kids@[at as int]@));
        n += 1;
    }
    proof {
        lemma_walk_ends(u, root as int, n as nat, up@.len());
    }
    met
}

/// Whether `a` is `i` or above it.
pub fn is_at_or_above(up: &Vec<Option<usize>>, i: usize, a: usize) -> (b: bool)
    requires
        i < up@.len(),
        parents_in_range(parents(up@)),
    ensures
        b == at_or_above(parents(up@), i as int, a as int, up@.len()),
{
    let ghost u = parents(up@);
    let mut at: usize = i;
    let mut left: usize = up.len();
    while at != a
        invariant
            u == parents(up@),
            parents_in_range(u),
            at < up@.len(),
            at_or_above(u, i as int, a as int, up@.len()) == at_or_above(u, at as int, a as int, left as nat),
        decreases left,
    {
        if left == 0 {
            return false;
        }
        assert(u[at as int] == parents(up@)[at as int]);
        match up[at] {
            Some(p) => {
                at = p;
                left -= 1;
            },
            None => return false,
        }
    }
    true
}

/// Climbing to the root leads to what lies above.
pub proof fn lemma_climbs_is_above(up: Seq<Option<int>>, root: int, i: int, steps: nat)
    requires
        climbs(up, root, i, steps),
    ensures
        at_or_above(up, i, root, steps),
    decreases steps,
{
    if i != root {
        lemma_climbs_is_above(up, root, up[i]->Some_0, (steps - 1) as nat);
    }
}

} // verus!
