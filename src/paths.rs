use vstd::prelude::*;

verus! {

/// A directed edge between two episode numbers: (referenced, referencing).
pub type Edge = (usize, usize);

/// `p` walks along edges of `es`, taking at least one step.
pub open spec fn is_path(es: Set<Edge>, p: Seq<usize>) -> bool {
    &&& p.len() >= 2
    &&& forall|k: int| 0 <= k < p.len() - 1 ==> #[trigger] es.contains((p[k], p[k + 1]))
}

/// `b` can be reached from `a` in one or more steps along `es`.
pub open spec fn reaches(es: Set<Edge>, a: usize, b: usize) -> bool {
    exists|p: Seq<usize>| #[trigger] is_path(es, p) && p[0] == a && p.last() == b
}

/// There is a route from `a` to `b` of two or more steps: some `w` is reached
/// from `a`, and `w` has an edge into `b`.
pub open spec fn has_detour(es: Set<Edge>, a: usize, b: usize) -> bool {
    exists|w: usize| #[trigger] reaches(es, a, w) && es.contains((w, b))
}

/// The edges of `es` that no longer route replaces.
pub open spec fn reduction(es: Set<Edge>) -> Set<Edge> {
    es.filter(|e: Edge| !has_detour(es, e.0, e.1))
}

/// Every edge of `es` climbs in `rank`.
pub open spec fn ranked(es: Set<Edge>, rank: spec_fn(usize) -> int) -> bool {
    forall|a: usize, b: usize| #[trigger] es.contains((a, b)) ==> rank(a) < rank(b)
}

pub proof fn lemma_edge_reaches(es: Set<Edge>, a: usize, b: usize)
    requires
        es.contains((a, b)),
    ensures
        reaches(es, a, b),
{
    let p = seq![a, b];
    assert(is_path(es, p));
}

pub proof fn lemma_reaches_trans(es: Set<Edge>, a: usize, b: usize, c: usize)
    requires
        reaches(es, a, b),
        reaches(es, b, c),
    ensures
        reaches(es, a, c),
{
    let p = choose|p: Seq<usize>| #[trigger] is_path(es, p) && p[0] == a && p.last() == b;
    let q = choose|q: Seq<usize>| #[trigger] is_path(es, q) && q[0] == b && q.last() == c;
    let r = p + q.drop_first();
    assert forall|k: int| 0 <= k < r.len() - 1 implies #[trigger] es.contains((r[k], r[k + 1])) by {
        if k < p.len() - 1 {
            assert(r[k] == p[k] && r[k + 1] == p[k + 1]);
        } else {
            let m = k - (p.len() - 1);
            assert(r[k] == q[m] && r[k + 1] == q[m + 1]);
        }
    }
    assert(is_path(es, r));
}

/// A walk along `es` that is extended by one more edge.
pub proof fn lemma_reaches_step(es: Set<Edge>, a: usize, b: usize, c: usize)
    requires
        reaches(es, a, b),
        es.contains((b, c)),
    ensures
        reaches(es, a, c),
{
    lemma_edge_reaches(es, b, c);
    lemma_reaches_trans(es, a, b, c);
}

/// Any walk along a smaller edge set is a walk along a larger one.
pub proof fn lemma_reaches_subset(small: Set<Edge>, large: Set<Edge>, a: usize, b: usize)
    requires
        reaches(small, a, b),
        small.subset_of(large),
    ensures
        reaches(large, a, b),
{
    let p = choose|p: Seq<usize>| #[trigger] is_path(small, p) && p[0] == a && p.last() == b;
    assert forall|k: int| 0 <= k < p.len() - 1 implies #[trigger] large.contains((p[k], p[k + 1])) by {
        assert(small.contains((p[k], p[k + 1])));
    }
    assert(is_path(large, p));
}

/// Splits a walk into its last edge and what comes before it.
pub proof fn lemma_path_last_step(es: Set<Edge>, p: Seq<usize>)
    requires
        is_path(es, p),
    ensures
        es.contains((p[p.len() - 2], p.last())),
        p.len() > 2 ==> reaches(es, p[0], p[p.len() - 2]),
{
    let j = p.len() - 2;
    assert(es.contains((p[j], p[j + 1])));
    if p.len() > 2 {
        let q = p.drop_last();
        assert forall|k: int| 0 <= k < q.len() - 1 implies #[trigger] es.contains((q[k], q[k + 1])) by {
            assert(es.contains((p[k], p[k + 1])));
        }
        assert(is_path(es, q));
    }
}

/// Along a walk of a ranked edge set, the rank climbs strictly.
pub proof fn lemma_path_climbs(es: Set<Edge>, rank: spec_fn(usize) -> int, p: Seq<usize>, k: int, m: int)
    requires
        is_path(es, p),
        ranked(es, rank),
        0 <= k < m < p.len(),
    ensures
        rank(p[k]) < rank(p[m]),
    decreases m - k,
{
    assert(es.contains((p[m - 1], p[m - 1 + 1])));
    if k < m - 1 {
        lemma_path_climbs(es, rank, p, k, m - 1);
    }
}

pub proof fn lemma_reaches_climbs(es: Set<Edge>, rank: spec_fn(usize) -> int, a: usize, b: usize)
    requires
        reaches(es, a, b),
        ranked(es, rank),
    ensures
        rank(a) < rank(b),
{
    let p = choose|p: Seq<usize>| #[trigger] is_path(es, p) && p[0] == a && p.last() == b;
    lemma_path_climbs(es, rank, p, 0, p.len() - 1);
}

/// Where every edge of `es` is itself reachable along `other`, so is the end
/// of every walk along `es`; here only edges spanning at most `d` in rank
/// are known to be so, and the walk spans at most `d`.
proof fn lemma_path_lifts(
    es: Set<Edge>,
    other: Set<Edge>,
    rank: spec_fn(usize) -> int,
    d: int,
    p: Seq<usize>,
)
    requires
        is_path(es, p),
        ranked(es, rank),
        rank(p.last()) - rank(p[0]) <= d,
        forall|u: usize, v: usize|
            #[trigger] es.contains((u, v)) && rank(v) - rank(u) <= d ==> reaches(other, u, v),
    ensures
        reaches(other, p[0], p.last()),
    decreases p.len(),
{
    let n = p.len();
    lemma_path_last_step(es, p);
    if n > 2 {
        lemma_path_climbs(es, rank, p, 0, n - 2);
        let q = p.drop_last();
        lemma_path_last_step(es, p);
        assert forall|k: int| 0 <= k < q.len() - 1 implies #[trigger] es.contains((q[k], q[k + 1])) by {
            assert(es.contains((p[k], p[k + 1])));
        }
        lemma_path_lifts(es, other, rank, d, q);
        lemma_reaches_trans(other, p[0], p[n - 2], p[n - 1]);
    }
}

/// Every edge spanning at most `d` in rank is still reachable along the
/// reduction.
proof fn lemma_edges_survive(es: Set<Edge>, rank: spec_fn(usize) -> int, d: nat)
    requires
        ranked(es, rank),
    ensures
        forall|u: usize, v: usize|
            #[trigger] es.contains((u, v)) && rank(v) - rank(u) <= d ==> reaches(reduction(es), u, v),
    decreases d,
{
    let red = reduction(es);
    if d > 0 {
        lemma_edges_survive(es, rank, (d - 1) as nat);
    }
    assert forall|u: usize, v: usize|
        #[trigger] es.contains((u, v)) && rank(v) - rank(u) <= d implies reaches(red, u, v) by {
        if red.contains((u, v)) {
            lemma_edge_reaches(red, u, v);
        } else {
            let w = choose|w: usize| #[trigger] reaches(es, u, w) && es.contains((w, v));
            lemma_reaches_climbs(es, rank, u, w);
            let p = choose|p: Seq<usize>| #[trigger] is_path(es, p) && p[0] == u && p.last() == w;
            lemma_path_lifts(es, red, rank, d - 1, p);
            lemma_edges_survive(es, rank, (d - 1) as nat);
            lemma_reaches_trans(red, u, w, v);
        }
    }
}

/// Along a ranked edge set, the reduction reaches exactly what the full set
/// reaches.
pub proof fn lemma_reduction_keeps_reach(es: Set<Edge>, rank: spec_fn(usize) -> int, a: usize, b: usize)
    requires
        ranked(es, rank),
    ensures
        reaches(reduction(es), a, b) <==> reaches(es, a, b),
{
    let red = reduction(es);
    assert(red.subset_of(es));
    if reaches(red, a, b) {
        lemma_reaches_subset(red, es, a, b);
    }
    if reaches(es, a, b) {
        lemma_reaches_climbs(es, rank, a, b);
        let d = (rank(b) - rank(a)) as nat;
        lemma_edges_survive(es, rank, d);
        let p = choose|p: Seq<usize>| #[trigger] is_path(es, p) && p[0] == a && p.last() == b;
        lemma_path_lifts(es, red, rank, d as int, p);
    }
}

/// No edge of the reduction can be rebuilt from the reduction's other edges.
pub proof fn lemma_reduction_minimal(es: Set<Edge>, e: Edge)
    requires
        reduction(es).contains(e),
    ensures
        !reaches(reduction(es).remove(e), e.0, e.1),
{
    let red = reduction(es);
    let rest = red.remove(e);
    if reaches(rest, e.0, e.1) {
        let p = choose|p: Seq<usize>| #[trigger] is_path(rest, p) && p[0] == e.0 && p.last() == e.1;
        lemma_path_last_step(rest, p);
        let w = p[p.len() - 2];
        assert(p.len() > 2) by {
            if p.len() == 2 {
                assert(rest.contains((p[0], p[1])));
            }
        }
        assert(rest.subset_of(es));
        lemma_reaches_subset(rest, es, e.0, w);
        assert(has_detour(es, e.0, e.1));
    }
}

} // verus!
