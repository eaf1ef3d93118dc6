use vstd::prelude::*;

use crate::paths::Edge;

verus! {

/// `x` and `y` share an edge of `es`, in either direction.
pub open spec fn touches(es: Set<Edge>, x: usize, y: usize) -> bool {
    es.contains((x, y)) || es.contains((y, x))
}

/// `p` steps from node to node over edges of `es`, ignoring their direction.
pub open spec fn is_chain(es: Set<Edge>, p: Seq<usize>) -> bool {
    &&& p.len() >= 1
    &&& forall|k: int| 0 <= k < p.len() - 1 ==> #[trigger] touches(es, p[k], p[k + 1])
}

/// `a` and `b` lie in the same weakly-connected part of `es`.
pub open spec fn linked(es: Set<Edge>, a: usize, b: usize) -> bool {
    exists|p: Seq<usize>| #[trigger] is_chain(es, p) && p[0] == a && p.last() == b
}

pub proof fn lemma_linked_refl(es: Set<Edge>, a: usize)
    ensures
        linked(es, a, a),
{
    assert(is_chain(es, seq![a]));
}

pub proof fn lemma_linked_edge(es: Set<Edge>, a: usize, b: usize)
    requires
        es.contains((a, b)),
    ensures
        linked(es, a, b),
        linked(es, b, a),
{
    let p = seq![a, b];
    assert(touches(es, p[0], p[1]));
    assert(is_chain(es, p));
    let q = seq![b, a];
    assert(touches(es, q[0], q[1]));
    assert(is_chain(es, q));
}

pub proof fn lemma_linked_trans(es: Set<Edge>, a: usize, b: usize, c: usize)
    requires
        linked(es, a, b),
        linked(es, b, c),
    ensures
        linked(es, a, c),
{
    let p = choose|p: Seq<usize>| #[trigger] is_chain(es, p) && p[0] == a && p.last() == b;
    let q = choose|q: Seq<usize>| #[trigger] is_chain(es, q) && q[0] == b && q.last() == c;
    let r = p + q.drop_first();
    assert forall|k: int| 0 <= k < r.len() - 1 implies #[trigger] touches(es, r[k], r[k + 1]) by {
        if k < p.len() - 1 {
            assert(r[k] == p[k] && r[k + 1] == p[k + 1]);
        } else {
            let m = k - (p.len() - 1);
            assert(r[k] == q[m] && r[k + 1] == q[m + 1]);
        }
    }
    assert(is_chain(es, r));
}

} // verus!
