use vstd::prelude::*;

use crate::linked::{is_chain, lemma_linked_edge, lemma_linked_refl, lemma_linked_trans, linked, touches};
use crate::disjoint::DisjointSets;
use crate::paths::Edge;

verus! {

/// A group of episodes that reduced edges hold together, with those edges.
pub struct Network {
    pub nodes: Vec<usize>,
    pub edges: Vec<Edge>,
}

impl Network {
    /// A network with no nodes and no edges.
    pub fn new() -> (r: Network)
        ensures
            r.nodes@ == Seq::<usize>::empty(),
            r.edges@ == Seq::<Edge>::empty(),
    {
        Network { nodes: Vec::new(), edges: Vec::new() }
    }

    /// `x` is an endpoint of some edge of this network.
    pub open spec fn spans(&self, x: usize) -> bool {
        exists|e: Edge| #[trigger] self.edges@.contains(e) && (e.0 == x || e.1 == x)
    }

    /// Nodes and edges are listed once each, there is at least one edge, and
    /// the nodes are exactly the endpoints of the edges.
    pub open spec fn well_formed(&self) -> bool {
        &&& self.nodes@.no_duplicates()
        &&& self.edges@.no_duplicates()
        &&& self.edges@.len() > 0
        &&& forall|x: usize| #[trigger] self.nodes@.contains(x) <==> self.spans(x)
    }
}

/// `nets` are the weakly-connected components of `edges`: together they hold
/// each edge, no node lies in two of them, and within one all nodes are
/// linked.
pub open spec fn is_partition(edges: Seq<Edge>, nets: Seq<Network>) -> bool {
    &&& forall|n: int| 0 <= n < nets.len() ==> (#[trigger] nets[n]).well_formed()
    &&& forall|e: Edge|
        edges.contains(e) <==> exists|n: int| 0 <= n < nets.len() && #[trigger] nets[n].edges@.contains(e)
    &&& forall|n: int, m: int, x: usize|
        0 <= n < nets.len() && 0 <= m < nets.len() && n != m && #[trigger] nets[n].nodes@.contains(x)
            ==> !#[trigger] nets[m].nodes@.contains(x)
    &&& forall|n: int, x: usize, y: usize|
        0 <= n < nets.len() && #[trigger] nets[n].nodes@.contains(x) && #[trigger] nets[n].nodes@.contains(y)
            ==> linked(edges.to_set(), x, y)
}

/// The networks of a list of edges.
pub struct Subnetworks {
    pub networks: Vec<Network>,
}

/// `x` is an endpoint of one of the edges.
pub open spec fn endpoint(edges: Seq<Edge>, x: usize) -> bool {
    exists|k: int| 0 <= k < edges.len() && (#[trigger] edges[k].0 == x || edges[k].1 == x)
}

/// The label that `labels` gives the node `x` of `nodes`.
pub open spec fn label_of(nodes: Seq<usize>, labels: Seq<usize>, x: usize) -> usize {
    labels[nodes.index_of(x)]
}

proof fn lemma_index_of(nodes: Seq<usize>, q: int)
    requires
        nodes.no_duplicates(),
        0 <= q < nodes.len(),
    ensures
        nodes.index_of(nodes[q]) == q,
{
    assert(nodes.contains(nodes[q]));
}

/// The position of `x` in `nodes`, where it occurs.
fn position_in(nodes: &Vec<usize>, x: usize) -> (q: usize)
    requires
        nodes@.contains(x),
    ensures
        q < nodes@.len(),
        nodes@[q as int] == x,
{
    let n = nodes.len();
    let mut j: usize = 0;
    while nodes[j] != x
        invariant
            n == nodes@.len(),
            nodes@.contains(x),
            j < nodes@.len(),
            forall|q: int| 0 <= q < j ==> nodes@[q] != x,
        decreases nodes@.len() - j,
    {
        proof {
            let w = nodes@.index_of(x);
            assert(w > j);
        }
        j = j + 1;
    }
    j
}

pub(crate) fn contains_node(nodes: &Vec<usize>, x: usize) -> (r: bool)
    ensures
        r == nodes@.contains(x),
{
    let mut j: usize = 0;
    while j < nodes.len()
        invariant
            j <= nodes@.len(),
            forall|q: int| 0 <= q < j ==> nodes@[q] != x,
        decreases nodes@.len() - j,
    {
        if nodes[j] == x {
            return true;
        }
        j = j + 1;
    }
    false
}

fn contains_edge(edges: &Vec<Edge>, e: Edge) -> (r: bool)
    ensures
        r == edges@.contains(e),
{
    let mut j: usize = 0;
    while j < edges.len()
        invariant
            j <= edges@.len(),
            forall|q: int| 0 <= q < j ==> edges@[q] != e,
        decreases edges@.len() - j,
    {
        if edges[j].0 == e.0 && edges[j].1 == e.1 {
            return true;
        }
        j = j + 1;
    }
    false
}

/// Adds `x` to `nodes` unless it is there already.
fn add_node(nodes: &mut Vec<usize>, x: usize)
    requires
        old(nodes)@.no_duplicates(),
    ensures
        final(nodes)@.no_duplicates(),
        forall|y: usize| #[trigger] final(nodes)@.contains(y) <==> (old(nodes)@.contains(y) || y == x),
{
    if !contains_node(nodes, x) {
        let ghost before = nodes@;
        nodes.push(x);
        proof {
            assert forall|y: usize| #[trigger] nodes@.contains(y) <==> (before.contains(y) || y == x) by {
                if before.contains(y) {
                    assert(nodes@[before.index_of(y)] == y);
                }
                if y == x {
                    assert(nodes@[before.len() as int] == y);
                }
            }
        }
    }
}

/// Every endpoint of the edges, each once.
fn collect_nodes(edges: &Vec<Edge>) -> (nodes: Vec<usize>)
    ensures
        nodes@.no_duplicates(),
        forall|x: usize| #[trigger] nodes@.contains(x) <==> endpoint(edges@, x),
{
    let mut nodes: Vec<usize> = Vec::new();
    let mut k: usize = 0;
    while k < edges.len()
        invariant
            k <= edges@.len(),
            nodes@.no_duplicates(),
            forall|x: usize| #[trigger] nodes@.contains(x) <==> endpoint(edges@.subrange(0, k as int), x),
        decreases edges@.len() - k,
    {
        let (s, t) = edges[k];
        add_node(&mut nodes, s);
        add_node(&mut nodes, t);
        proof {
            let pre = edges@.subrange(0, k as int);
            let post = edges@.subrange(0, k + 1);
            assert forall|x: usize| #[trigger] nodes@.contains(x) <==> endpoint(post, x) by {
                if endpoint(pre, x) {
                    let q = choose|q: int| 0 <= q < pre.len() && (#[trigger] pre[q].0 == x || pre[q].1 == x);
                    assert(post[q] == pre[q]);
                }
                if x == s || x == t {
                    assert(post[k as int] == (s, t));
                }
                if endpoint(post, x) {
                    let q = choose|q: int| 0 <= q < post.len() && (#[trigger] post[q].0 == x || post[q].1 == x);
                    if q < k {
                        assert(post[q] == pre[q]);
                    }
                }
            }
        }
        k = k + 1;
    }
    assert(edges@.subrange(0, edges@.len() as int) == edges@);
    nodes
}

/// `net` holds, once each, the edges whose source carries label `root`, and
/// their endpoints.
pub open spec fn gathers(
    net: Network,
    edges: Seq<Edge>,
    nodes: Seq<usize>,
    labels: Seq<usize>,
    root: usize,
) -> bool {
    &&& net.nodes@.no_duplicates()
    &&& net.edges@.no_duplicates()
    &&& forall|e: Edge|
        #[trigger] net.edges@.contains(e) <==> (edges.contains(e) && label_of(nodes, labels, e.0) == root)
    &&& forall|x: usize| #[trigger] net.nodes@.contains(x) <==> net.spans(x)
}

/// The edges whose source carries label `root`, and their endpoints.
#[verifier::loop_isolation(false)]
fn build_network(edges: &Vec<Edge>, nodes: &Vec<usize>, labels: &Vec<usize>, root: usize) -> (net: Network)
    requires
        nodes@.no_duplicates(),
        labels@.len() == nodes@.len(),
        forall|x: usize| #[trigger] nodes@.contains(x) <==> endpoint(edges@, x),
    ensures
        gathers(net, edges@, nodes@, labels@, root),
{
    let mut net = Network::new();
    let mut k: usize = 0;
    while k < edges.len()
        invariant
            k <= edges@.len(),
            net.nodes@.no_duplicates(),
            net.edges@.no_duplicates(),
            forall|e: Edge|
                #[trigger] net.edges@.contains(e) <==> (edges@.subrange(0, k as int).contains(e)
                    && label_of(nodes@, labels@, e.0) == root),
            forall|x: usize| #[trigger] net.nodes@.contains(x) <==> net.spans(x),
        decreases edges@.len() - k,
    {
        let (s, t) = edges[k];
        proof {
            assert(endpoint(edges@, s)) by {
                assert(edges@[k as int].0 == s);
            }
        }
        let q = position_in(nodes, s);
        let ghost pre = edges@.subrange(0, k as int);
        let ghost post = edges@.subrange(0, k + 1);
        proof {
            assert forall|e: Edge| pre.contains(e) implies #[trigger] post.contains(e) by {
                assert(post[pre.index_of(e)] == e);
            }
            assert(post[k as int] == (s, t));
            assert forall|e: Edge| #[trigger] post.contains(e) implies pre.contains(e) || e == (s, t) by {
                let j = post.index_of(e);
                if j < k {
                    assert(pre[j] == e);
                }
            }
            lemma_index_of(nodes@, q as int);
        }
        if labels[q] == root {
            let ghost before = net;
            if !contains_edge(&net.edges, (s, t)) {
                net.edges.push((s, t));
            }
            add_node(&mut net.nodes, s);
            add_node(&mut net.nodes, t);
            proof {
                assert forall|e: Edge| #[trigger] net.edges@.contains(e) <==> (before.edges@.contains(e) || e == (s, t)) by {
                    if before.edges@.contains(e) {
                        assert(net.edges@[before.edges@.index_of(e)] == e);
                    }
                    if e == (s, t) && !before.edges@.contains(e) {
                        assert(net.edges@[before.edges@.len() as int] == e);
                    }
                }
                assert forall|x: usize| #[trigger] net.nodes@.contains(x) <==> net.spans(x) by {
                    if net.nodes@.contains(x) {
                        if before.nodes@.contains(x) {
                            assert(before.spans(x));
                            let e = choose|e: Edge| #[trigger] before.edges@.contains(e) && (e.0 == x || e.1 == x);
                            assert(net.edges@.contains(e));
                        } else {
                            assert(net.edges@.contains((s, t)));
                        }
                    }
                    if net.spans(x) {
                        let e = choose|e: Edge| #[trigger] net.edges@.contains(e) && (e.0 == x || e.1 == x);
                        if before.edges@.contains(e) {
                            assert(before.spans(x));
                        }
                    }
                }
            }
        }
        k = k + 1;
    }
    assert(edges@.subrange(0, edges@.len() as int) == edges@);
    net
}

/// Nodes that share a label are linked, and both ends of each edge share a
/// label.
pub open spec fn labelling(edges: Seq<Edge>, nodes: Seq<usize>, labels: Seq<usize>) -> bool {
    &&& labels.len() == nodes.len()
    &&& forall|q1: int, q2: int|
        0 <= q1 < nodes.len() && 0 <= q2 < nodes.len() && #[trigger] labels[q1] == #[trigger] labels[q2]
            ==> linked(edges.to_set(), nodes[q1], nodes[q2])
}

/// Every edge among the first `k` has both ends under one label.
pub open spec fn edges_agree(edges: Seq<Edge>, nodes: Seq<usize>, labels: Seq<usize>, k: int) -> bool {
    forall|j: int|
        0 <= j < k ==> label_of(nodes, labels, #[trigger] edges[j].0) == label_of(nodes, labels, edges[j].1)
}

/// Labels the nodes so that two of them share a label exactly when edges link
/// them: a disjoint-set forest merges the sets of the two ends of each edge,
/// and each node is then labelled with the representative of its set.
fn label_components(edges: &Vec<Edge>, nodes: &Vec<usize>) -> (labels: Vec<usize>)
    requires
        nodes@.no_duplicates(),
        forall|x: usize| #[trigger] nodes@.contains(x) <==> endpoint(edges@, x),
    ensures
        labelling(edges@, nodes@, labels@),
        edges_agree(edges@, nodes@, labels@, edges@.len() as int),
{
    let ghost es = edges@.to_set();
    let n = nodes.len();
    let mut sets = DisjointSets::new(n);
    proof {
        assert forall|q1: int, q2: int|
            0 <= q1 < n && 0 <= q2 < n && #[trigger] sets.root(q1) == #[trigger] sets.root(q2) implies linked(
            es,
            nodes@[q1],
            nodes@[q2],
        ) by {
            lemma_linked_refl(es, nodes@[q1]);
        }
    }
    let mut k: usize = 0;
    while k < edges.len()
        invariant
            n == nodes@.len(),
            es == edges@.to_set(),
            nodes@.no_duplicates(),
            forall|x: usize| #[trigger] nodes@.contains(x) <==> endpoint(edges@, x),
            k <= edges@.len(),
            sets.wf(),
            sets.len() == n,
            forall|i: int| 0 <= i < n ==> #[trigger] sets.rank@[i] <= k,
            forall|q1: int, q2: int|
                0 <= q1 < n && 0 <= q2 < n && #[trigger] sets.root(q1) == #[trigger] sets.root(q2) ==> linked(
                    es,
                    nodes@[q1],
                    nodes@[q2],
                ),
            forall|j: int|
                0 <= j < k ==> sets.root(nodes@.index_of(#[trigger] edges@[j].0)) == sets.root(
                    nodes@.index_of(edges@[j].1),
                ),
        decreases edges@.len() - k,
    {
        let (s, t) = edges[k];
        proof {
            assert(endpoint(edges@, s) && endpoint(edges@, t)) by {
                assert(edges@[k as int].0 == s);
                assert(edges@[k as int].1 == t);
            }
        }
        let qs = position_in(nodes, s);
        let qt = position_in(nodes, t);
        let ghost before = sets;
        let w = sets.union(qs, qt);
        proof {
            let ra = before.root(qs as int);
            let rb = before.root(qt as int);
            assert(edges@[k as int] == (s, t));
            assert(edges@.contains((s, t)));
            lemma_linked_edge(es, s, t);
            assert forall|q1: int, q2: int|
                0 <= q1 < n && 0 <= q2 < n && #[trigger] sets.root(q1) == #[trigger] sets.root(q2) implies linked(
                es,
                nodes@[q1],
                nodes@[q2],
            ) by {
                let x = before.root(q1);
                let y = before.root(q2);
                if x != y {
                    let mx = x == ra || x == rb;
                    let my = y == ra || y == rb;
                    assert(mx && my);
                    if x == ra {
                        assert(before.root(q1) == before.root(qs as int));
                        assert(before.root(qt as int) == before.root(q2));
                        lemma_linked_trans(es, nodes@[q1], s, t);
                        lemma_linked_trans(es, nodes@[q1], t, nodes@[q2]);
                    } else {
                        assert(before.root(q1) == before.root(qt as int));
                        assert(before.root(qs as int) == before.root(q2));
                        lemma_linked_trans(es, nodes@[q1], t, s);
                        lemma_linked_trans(es, nodes@[q1], s, nodes@[q2]);
                    }
                }
            }
            lemma_index_of(nodes@, qs as int);
            lemma_index_of(nodes@, qt as int);
            assert forall|j: int|
                0 <= j < k + 1 implies sets.root(nodes@.index_of(#[trigger] edges@[j].0)) == sets.root(
                nodes@.index_of(edges@[j].1),
            ) by {
                let x = edges@[j].0;
                let y = edges@[j].1;
                assert(endpoint(edges@, x));
                assert(endpoint(edges@, y));
                assert(nodes@.contains(x) && nodes@.contains(y));
                let a = nodes@.index_of(x);
                let b = nodes@.index_of(y);
                assert(0 <= a < n && 0 <= b < n);
                if j == k {
                    assert(a == qs && b == qt);
                } else {
                    assert(before.root(a) == before.root(b));
                }
                assert(sets.root(a) == sets.root(b));
            }
        }
        k = k + 1;
    }
    let ghost settled = sets;
    let mut labels: Vec<usize> = Vec::new();
    let mut q: usize = 0;
    while q < n
        invariant
            n == nodes@.len(),
            sets.wf(),
            sets.len() == n,
            settled.len() == n,
            forall|y: int| 0 <= y < n ==> #[trigger] sets.root(y) == settled.root(y),
            q <= n,
            labels@.len() == q,
            forall|i: int| 0 <= i < q ==> #[trigger] labels@[i] == settled.root(i),
        decreases n - q,
    {
        let r = sets.find(q);
        labels.push(r);
        q = q + 1;
    }
    proof {
        assert forall|q1: int, q2: int|
            0 <= q1 < nodes@.len() && 0 <= q2 < nodes@.len() && #[trigger] labels@[q1] == #[trigger] labels@[q2]
                implies linked(es, nodes@[q1], nodes@[q2]) by {
            assert(settled.root(q1) == settled.root(q2));
        }
        assert forall|j: int|
            0 <= j < edges@.len() implies label_of(nodes@, labels@, #[trigger] edges@[j].0) == label_of(
            nodes@,
            labels@,
            edges@[j].1,
        ) by {
            let x = edges@[j].0;
            let y = edges@[j].1;
            assert(endpoint(edges@, x));
            assert(endpoint(edges@, y));
            assert(nodes@.contains(x) && nodes@.contains(y));
            let a = nodes@.index_of(x);
            let b = nodes@.index_of(y);
            assert(labels@[a] == settled.root(a));
            assert(labels@[b] == settled.root(b));
        }
    }
    labels
}

/// Where both sides of a labelling agree on every edge, each node of a
/// gathered network carries the network's label.
proof fn lemma_node_label(
    net: Network,
    edges: Seq<Edge>,
    nodes: Seq<usize>,
    labels: Seq<usize>,
    root: usize,
    x: usize,
)
    requires
        gathers(net, edges, nodes, labels, root),
        edges_agree(edges, nodes, labels, edges.len() as int),
        net.nodes@.contains(x),
    ensures
        label_of(nodes, labels, x) == root,
        endpoint(edges, x),
{
    assert(net.spans(x));
    let e = choose|e: Edge| #[trigger] net.edges@.contains(e) && (e.0 == x || e.1 == x);
    assert(edges.contains(e));
    let j = edges.index_of(e);
    assert(label_of(nodes, labels, edges[j].0) == label_of(nodes, labels, edges[j].1));
    assert(edges[j].0 == x || edges[j].1 == x);
}

impl Subnetworks {
    /// Wraps a list of networks.
    pub fn new(networks: Vec<Network>) -> (r: Subnetworks)
        ensures
            r.networks@ == networks@,
    {
        Subnetworks { networks }
    }

    /// Groups the edges into their weakly-connected components: a
    /// disjoint-set forest over the endpoints merges the two ends of every
    /// edge, and one final pass gathers the edges and nodes of each set.
    pub fn from_edges(edges: &Vec<Edge>) -> (r: Subnetworks)
        ensures
            is_partition(edges@, r.networks@),
    {
        let nodes = collect_nodes(edges);
        let labels = label_components(edges, &nodes);
        let ghost es = edges@.to_set();
        let mut roots: Vec<usize> = Vec::new();
        let mut k: usize = 0;
        while k < edges.len()
            invariant
                nodes@.no_duplicates(),
                forall|x: usize| #[trigger] nodes@.contains(x) <==> endpoint(edges@, x),
                labels@.len() == nodes@.len(),
                k <= edges@.len(),
                roots@.no_duplicates(),
                forall|r: usize| #[trigger] roots@.contains(r) <==> exists|j: int|
                    0 <= j < k && label_of(nodes@, labels@, #[trigger] edges@[j].0) == r,
            decreases edges@.len() - k,
        {
            let s = edges[k].0;
            proof {
                assert(endpoint(edges@, s)) by {
                    assert(edges@[k as int].0 == s);
                }
            }
            let q = position_in(&nodes, s);
            proof {
                lemma_index_of(nodes@, q as int);
            }
            let ghost before = roots@;
            add_node(&mut roots, labels[q]);
            proof {
                assert forall|r: usize| #[trigger] roots@.contains(r) <==> exists|j: int|
                    0 <= j < k + 1 && label_of(nodes@, labels@, #[trigger] edges@[j].0) == r by {
                    if r == labels@[q as int] {
                        assert(label_of(nodes@, labels@, edges@[k as int].0) == r);
                    }
                    if exists|j: int| 0 <= j < k + 1 && label_of(nodes@, labels@, #[trigger] edges@[j].0) == r {
                        let j = choose|j: int|
                            0 <= j < k + 1 && label_of(nodes@, labels@, #[trigger] edges@[j].0) == r;
                        if j < k {
                            assert(before.contains(r));
                        }
                    }
                }
            }
            k = k + 1;
        }
        let mut nets: Vec<Network> = Vec::new();
        let mut m: usize = 0;
        while m < roots.len()
            invariant
                nodes@.no_duplicates(),
                forall|x: usize| #[trigger] nodes@.contains(x) <==> endpoint(edges@, x),
                labels@.len() == nodes@.len(),
                m <= roots@.len(),
                nets@.len() == m,
                forall|i: int| 0 <= i < m ==> gathers(#[trigger] nets@[i], edges@, nodes@, labels@, roots@[i]),
            decreases roots@.len() - m,
        {
            let net = build_network(edges, &nodes, &labels, roots[m]);
            nets.push(net);
            m = m + 1;
        }
        proof {
            let ns = nets@;
            assert forall|n: int| 0 <= n < ns.len() implies (#[trigger] ns[n]).well_formed() by {
                assert(gathers(ns[n], edges@, nodes@, labels@, roots@[n]));
                assert(roots@.contains(roots@[n]));
                let j = choose|j: int|
                    0 <= j < edges@.len() && label_of(nodes@, labels@, #[trigger] edges@[j].0) == roots@[n];
                assert(edges@.contains(edges@[j]));
                assert(ns[n].edges@.contains(edges@[j]));
            }
            assert forall|e: Edge|
                edges@.contains(e) <==> exists|n: int| 0 <= n < ns.len() && #[trigger] ns[n].edges@.contains(e) by {
                if edges@.contains(e) {
                    let j = edges@.index_of(e);
                    let r = label_of(nodes@, labels@, edges@[j].0);
                    assert(roots@.contains(r));
                    let n = roots@.index_of(r);
                    assert(gathers(ns[n], edges@, nodes@, labels@, roots@[n]));
                    assert(ns[n].edges@.contains(e));
                }
                if exists|n: int| 0 <= n < ns.len() && #[trigger] ns[n].edges@.contains(e) {
                    let n = choose|n: int| 0 <= n < ns.len() && #[trigger] ns[n].edges@.contains(e);
                    assert(gathers(ns[n], edges@, nodes@, labels@, roots@[n]));
                }
            }
            assert forall|n: int, m2: int, x: usize|
                0 <= n < ns.len() && 0 <= m2 < ns.len() && n != m2 && #[trigger] ns[n].nodes@.contains(x)
                    implies !#[trigger] ns[m2].nodes@.contains(x) by {
                assert(gathers(ns[n], edges@, nodes@, labels@, roots@[n]));
                assert(gathers(ns[m2], edges@, nodes@, labels@, roots@[m2]));
                lemma_node_label(ns[n], edges@, nodes@, labels@, roots@[n], x);
                if ns[m2].nodes@.contains(x) {
                    lemma_node_label(ns[m2], edges@, nodes@, labels@, roots@[m2], x);
                }
            }
            assert forall|n: int, x: usize, y: usize|
                0 <= n < ns.len() && #[trigger] ns[n].nodes@.contains(x) && #[trigger] ns[n].nodes@.contains(y)
                    implies linked(es, x, y) by {
                assert(gathers(ns[n], edges@, nodes@, labels@, roots@[n]));
                lemma_node_label(ns[n], edges@, nodes@, labels@, roots@[n], x);
                lemma_node_label(ns[n], edges@, nodes@, labels@, roots@[n], y);
                assert(nodes@.contains(x) && nodes@.contains(y));
                let qx = nodes@.index_of(x);
                let qy = nodes@.index_of(y);
                assert(labels@[qx] == labels@[qy]);
                assert(nodes@[qx] == x && nodes@[qy] == y);
            }
        }
        Subnetworks::new(nets)
    }
}

/// The weakly-connected components of the edges, as networks.
pub fn networks(tred: Vec<Edge>) -> (r: Vec<Network>)
    ensures
        is_partition(tred@, r@),
{
    Subnetworks::from_edges(&tred).networks
}

/// Within a partition, the network that holds `u` holds every node linked
/// to `u`.
proof fn lemma_linked_stays(edges: Seq<Edge>, nets: Seq<Network>, b: int, p: Seq<usize>, k: int)
    requires
        is_partition(edges, nets),
        0 <= b < nets.len(),
        is_chain(edges.to_set(), p),
        nets[b].nodes@.contains(p[0]),
        0 <= k < p.len(),
    ensures
        nets[b].nodes@.contains(p[k]),
    decreases k,
{
    if k > 0 {
        lemma_linked_stays(edges, nets, b, p, k - 1);
        let x = p[k - 1];
        let y = p[k - 1 + 1];
        assert(touches(edges.to_set(), x, y));
        let e = if edges.to_set().contains((x, y)) { (x, y) } else { (y, x) };
        assert(edges.contains(e));
        let c = choose|c: int| 0 <= c < nets.len() && #[trigger] nets[c].edges@.contains(e);
        assert(nets[c].well_formed());
        assert(nets[c].spans(x) && nets[c].spans(y));
        assert(nets[c].nodes@.contains(x));
        assert(nets[c].nodes@.contains(y));
    }
}

/// The network of one partition that shares an edge with a network of
/// another partition of the same edges holds the same nodes and edges.
proof fn lemma_matching_network(edges: Seq<Edge>, n1: Seq<Network>, n2: Seq<Network>, a: int, b: int, e: Edge)
    requires
        is_partition(edges, n1),
        is_partition(edges, n2),
        0 <= a < n1.len(),
        0 <= b < n2.len(),
        n1[a].edges@.contains(e),
        n2[b].edges@.contains(e),
    ensures
        forall|x: usize| n1[a].nodes@.contains(x) ==> #[trigger] n2[b].nodes@.contains(x),
        forall|f: Edge| n1[a].edges@.contains(f) ==> #[trigger] n2[b].edges@.contains(f),
{
    let es = edges.to_set();
    assert(n1[a].well_formed() && n2[b].well_formed());
    assert(n1[a].spans(e.0) && n2[b].spans(e.0));
    assert(n1[a].nodes@.contains(e.0));
    assert(n2[b].nodes@.contains(e.0));
    assert forall|x: usize| n1[a].nodes@.contains(x) implies #[trigger] n2[b].nodes@.contains(x) by {
        assert(linked(es, e.0, x));
        let p = choose|p: Seq<usize>| #[trigger] is_chain(es, p) && p[0] == e.0 && p.last() == x;
        lemma_linked_stays(edges, n2, b, p, p.len() - 1);
    }
    assert forall|f: Edge| n1[a].edges@.contains(f) implies #[trigger] n2[b].edges@.contains(f) by {
        assert(edges.contains(f));
        let c = choose|c: int| 0 <= c < n2.len() && #[trigger] n2[c].edges@.contains(f);
        assert(n1[a].spans(f.0));
        assert(n1[a].nodes@.contains(f.0));
        assert(n2[b].nodes@.contains(f.0));
        assert(n2[c].well_formed());
        assert(n2[c].spans(f.0));
        assert(n2[c].nodes@.contains(f.0));
    }
}

/// Two partitions of the same edges into weakly-connected components differ
/// at most in the order of their networks: each network of one has a network
/// of the other with the same nodes and the same edges.
pub proof fn lemma_partition_unique(edges: Seq<Edge>, n1: Seq<Network>, n2: Seq<Network>, a: int)
    requires
        is_partition(edges, n1),
        is_partition(edges, n2),
        0 <= a < n1.len(),
    ensures
        exists|b: int|
            0 <= b < n2.len() && #[trigger] n2[b].nodes@.to_set() == n1[a].nodes@.to_set()
                && n2[b].edges@.to_set() == n1[a].edges@.to_set(),
{
    assert(n1[a].well_formed());
    let e = n1[a].edges@[0];
    assert(n1[a].edges@.contains(e));
    assert(edges.contains(e));
    let b = choose|b: int| 0 <= b < n2.len() && #[trigger] n2[b].edges@.contains(e);
    lemma_matching_network(edges, n1, n2, a, b, e);
    lemma_matching_network(edges, n2, n1, b, a, e);
    assert(n2[b].nodes@.to_set() =~= n1[a].nodes@.to_set());
    assert(n2[b].edges@.to_set() =~= n1[a].edges@.to_set());
}

} // verus!
