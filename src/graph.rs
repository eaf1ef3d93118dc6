use vstd::prelude::*;

use crate::episode::{sort_episodes, sorted_by_number, Episode};
use crate::network::{is_partition, lemma_partition_unique, networks, Network};
use crate::paths::Edge;
use crate::reduce::{
    adjacency_reduced_edges, breaks_order, distinct_numbers, lemma_no_references_no_edges,
    reduced_edges, references_earlier, GraphError,
};

verus! {

/// Everything a run produces: the episodes in order of their numbers, the
/// reduced reference edges, and the networks those edges form.
pub struct CongressionalGraph {
    pub episodes: Vec<Episode>,
    pub adjacency_reduced_edges: Vec<Edge>,
    pub networks: Vec<Network>,
}

fn copy_edges(v: &Vec<Edge>) -> (r: Vec<Edge>)
    ensures
        r@ == v@,
{
    let mut r: Vec<Edge> = Vec::new();
    let mut i: usize = 0;
    while i < v.len()
        invariant
            i <= v@.len(),
            r@ == v@.subrange(0, i as int),
        decreases v@.len() - i,
    {
        r.push(v[i]);
        i = i + 1;
    }
    r
}

/// Builds the reference graph of `links`, reduces it, and splits the reduced
/// edges into networks; `episodes` come back sorted by number. Fails, with
/// nothing else produced, where a reference points at an episode not listed
/// before the one that makes it.
pub fn analyze(episodes: Vec<Episode>, links: Vec<(usize, Vec<usize>)>) -> (res: Result<
    CongressionalGraph,
    GraphError,
>)
    requires
        distinct_numbers(links@),
    ensures
        res is Ok <==> references_earlier(links@),
        res matches Ok(g) ==> {
            &&& g.episodes@.to_multiset() == episodes@.to_multiset()
            &&& sorted_by_number(g.episodes@)
            &&& g.adjacency_reduced_edges@.to_set() == reduced_edges(links@)
            &&& g.adjacency_reduced_edges@.no_duplicates()
            &&& is_partition(g.adjacency_reduced_edges@, g.networks@)
        },
        res matches Err(GraphError::OutOfOrderReference { episode, reference }) ==> breaks_order(
            links@,
            episode,
            reference,
        ),
{
    let episodes = sort_episodes(episodes);
    let tred = match adjacency_reduced_edges(&links) {
        Ok(tred) => tred,
        Err(e) => {
            return Err(e);
        },
    };
    let networks = networks(copy_edges(&tred));
    Ok(CongressionalGraph { episodes, networks, adjacency_reduced_edges: tred })
}

/// The networks cover the reduced edges exactly: each reduced edge lies in
/// exactly one network, and every endpoint of a reduced edge lies in exactly
/// one network.
pub proof fn lemma_networks_cover_reduction(
    links: Seq<(usize, Vec<usize>)>,
    edges: Seq<Edge>,
    nets: Seq<Network>,
)
    requires
        edges.to_set() == reduced_edges(links),
        is_partition(edges, nets),
    ensures
        forall|e: Edge|
            reduced_edges(links).contains(e) <==> exists|n: int|
                0 <= n < nets.len() && #[trigger] nets[n].edges@.contains(e),
        forall|n: int, m: int, e: Edge|
            0 <= n < nets.len() && 0 <= m < nets.len() && #[trigger] nets[n].edges@.contains(e)
                && #[trigger] nets[m].edges@.contains(e) ==> n == m,
        forall|e: Edge|
            #[trigger] reduced_edges(links).contains(e) ==> exists|n: int|
                0 <= n < nets.len() && #[trigger] nets[n].nodes@.contains(e.0) && nets[n].nodes@.contains(e.1),
        forall|n: int, m: int, x: usize|
            0 <= n < nets.len() && 0 <= m < nets.len() && #[trigger] nets[n].nodes@.contains(x)
                && #[trigger] nets[m].nodes@.contains(x) ==> n == m,
{
    assert forall|e: Edge|
        reduced_edges(links).contains(e) <==> exists|n: int|
            0 <= n < nets.len() && #[trigger] nets[n].edges@.contains(e) by {
        assert(reduced_edges(links).contains(e) == edges.contains(e));
    }
    assert forall|n: int, m: int, e: Edge|
        0 <= n < nets.len() && 0 <= m < nets.len() && #[trigger] nets[n].edges@.contains(e)
            && #[trigger] nets[m].edges@.contains(e) implies n == m by {
        assert(nets[n].well_formed());
        assert(nets[m].well_formed());
        assert(nets[n].spans(e.0) && nets[m].spans(e.0));
        assert(nets[n].nodes@.contains(e.0));
        assert(nets[m].nodes@.contains(e.0));
    }
    assert forall|e: Edge|
        #[trigger] reduced_edges(links).contains(e) implies exists|n: int|
            0 <= n < nets.len() && #[trigger] nets[n].nodes@.contains(e.0) && nets[n].nodes@.contains(e.1) by {
        assert(edges.contains(e));
        let n = choose|n: int| 0 <= n < nets.len() && #[trigger] nets[n].edges@.contains(e);
        assert(nets[n].well_formed());
        assert(nets[n].spans(e.0) && nets[n].spans(e.1));
        assert(nets[n].nodes@.contains(e.0) && nets[n].nodes@.contains(e.1));
    }
}

/// Where no episode references another, there are no reduced edges and no
/// networks.
pub proof fn lemma_no_references_nothing_left(
    links: Seq<(usize, Vec<usize>)>,
    edges: Seq<Edge>,
    nets: Seq<Network>,
)
    requires
        forall|i: int| 0 <= i < links.len() ==> (#[trigger] links[i]).1@.len() == 0,
        edges.to_set() == reduced_edges(links),
        is_partition(edges, nets),
    ensures
        edges.len() == 0,
        nets.len() == 0,
{
    lemma_no_references_no_edges(links);
    if edges.len() > 0 {
        assert(edges.to_set().contains(edges[0]));
    }
    if nets.len() > 0 {
        assert(nets[0].well_formed());
        let e = nets[0].edges@[0];
        assert(nets[0].edges@.contains(e));
        assert(edges.contains(e));
        assert(edges.to_set().contains(e));
    }
}

/// Two runs on the same references agree: they keep the same reduced edges,
/// and network `a` of one run has a network in the other with the same nodes
/// and edges.
pub proof fn lemma_analysis_deterministic(
    links: Seq<(usize, Vec<usize>)>,
    edges1: Seq<Edge>,
    nets1: Seq<Network>,
    edges2: Seq<Edge>,
    nets2: Seq<Network>,
    a: int,
)
    requires
        edges1.to_set() == reduced_edges(links),
        edges2.to_set() == reduced_edges(links),
        is_partition(edges1, nets1),
        is_partition(edges2, nets2),
        0 <= a < nets1.len(),
    ensures
        edges1.to_set() == edges2.to_set(),
        exists|b: int|
            0 <= b < nets2.len() && #[trigger] nets2[b].nodes@.to_set() == nets1[a].nodes@.to_set()
                && nets2[b].edges@.to_set() == nets1[a].edges@.to_set(),
{
    assert forall|e: Edge| edges1.contains(e) == edges2.contains(e) by {
        assert(edges1.to_set().contains(e) == edges2.to_set().contains(e));
    }
    assert(is_partition(edges2, nets1));
    lemma_partition_unique(edges2, nets1, nets2, a);
}

} // verus!
