use vstd::prelude::*;

use crate::paths::{
    has_detour, is_path, lemma_edge_reaches, lemma_path_last_step, lemma_reaches_step,
    lemma_reduction_keeps_reach, lemma_reduction_minimal, ranked, reaches, reduction, Edge,
};

verus! {

/// Why a list of episodes and their references cannot be turned into a graph.
#[derive(Debug, Clone, Copy, PartialEq, Eq, Structural)]
pub enum GraphError {
    /// `episode` refers to `reference`, which is not declared before it.
    OutOfOrderReference { episode: usize, reference: usize },
}

/// No two entries share an episode number.
pub open spec fn distinct_numbers(links: Seq<(usize, Vec<usize>)>) -> bool {
    forall|i: int, j: int|
        0 <= i < links.len() && 0 <= j < links.len() && i != j ==> links[i].0 != links[j].0
}

/// Some entry before position `i` has the number `r`.
pub open spec fn declared_before(links: Seq<(usize, Vec<usize>)>, i: int, r: usize) -> bool {
    exists|j: int| 0 <= j < i && #[trigger] links[j].0 == r
}

/// Every reference points at an episode declared earlier in the list.
pub open spec fn references_earlier(links: Seq<(usize, Vec<usize>)>) -> bool {
    forall|i: int, r: usize|
        0 <= i < links.len() && #[trigger] links[i].1@.contains(r) ==> declared_before(links, i, r)
}

/// The entry numbered `episode` lists `reference`, which no entry before it
/// carries.
pub open spec fn breaks_order(links: Seq<(usize, Vec<usize>)>, episode: usize, reference: usize) -> bool {
    exists|i: int|
        0 <= i < links.len() && links[i].0 == episode && #[trigger] links[i].1@.contains(reference)
            && !declared_before(links, i, reference)
}

/// The full reference graph: an edge from each referenced episode to the
/// episode that references it.
pub open spec fn reference_edges(links: Seq<(usize, Vec<usize>)>) -> Set<Edge> {
    Set::new(|e: Edge| refers(links, e.0, e.1))
}

/// Some entry numbered `b` lists `a` among its references.
pub open spec fn refers(links: Seq<(usize, Vec<usize>)>, a: usize, b: usize) -> bool {
    exists|i: int| 0 <= i < links.len() && links[i].0 == b && #[trigger] links[i].1@.contains(a)
}

/// The position in the list of the entry numbered `a`.
pub open spec fn position(links: Seq<(usize, Vec<usize>)>, a: usize) -> int {
    choose|j: int| 0 <= j < links.len() && links[j].0 == a
}

/// The edges that the reduction of the reference graph keeps.
pub open spec fn reduced_edges(links: Seq<(usize, Vec<usize>)>) -> Set<Edge> {
    reduction(reference_edges(links))
}

/// Along the reference graph, the edges into the episode at `v` come exactly
/// from the numbers that it lists.
pub proof fn lemma_edge_into(links: Seq<(usize, Vec<usize>)>, v: int, x: usize)
    requires
        distinct_numbers(links),
        0 <= v < links.len(),
    ensures
        reference_edges(links).contains((x, links[v].0)) <==> links[v].1@.contains(x),
{
    if reference_edges(links).contains((x, links[v].0)) {
        let i = choose|i: int|
            0 <= i < links.len() && links[i].0 == links[v].0 && #[trigger] links[i].1@.contains(x);
        assert(i == v);
    }
    if links[v].1@.contains(x) {
        assert(refers(links, x, links[v].0));
        assert(reference_edges(links).contains((x, links[v].0)));
    }
}

/// Entry `j` is the `q`-th reference of entry `i`, or reaches it.
pub open spec fn feeds(links: Seq<(usize, Vec<usize>)>, j: int, i: int, q: int) -> bool {
    links[i].1@[q] == links[j].0 || reaches(reference_edges(links), links[j].0, links[i].1@[q])
}

/// What reaches the episode at `v` is what it lists, and what reaches those.
pub proof fn lemma_reaches_into(links: Seq<(usize, Vec<usize>)>, j: int, v: int)
    requires
        distinct_numbers(links),
        0 <= v < links.len(),
        0 <= j < links.len(),
    ensures
        reaches(reference_edges(links), links[j].0, links[v].0) <==> exists|q: int|
            0 <= q < links[v].1@.len() && #[trigger] feeds(links, j, v, q),
{
    let es = reference_edges(links);
    let a = links[j].0;
    let b = links[v].0;
    let refs = links[v].1@;
    if reaches(es, a, b) {
        let p = choose|p: Seq<usize>| #[trigger] is_path(es, p) && p[0] == a && p.last() == b;
        lemma_path_last_step(es, p);
        let w = p[p.len() - 2];
        lemma_edge_into(links, v, w);
        let q = refs.index_of(w);
        if p.len() == 2 {
            assert(refs[q] == a);
        } else {
            assert(reaches(es, a, refs[q]));
        }
        assert(feeds(links, j, v, q));
    }
    if exists|q: int| 0 <= q < refs.len() && #[trigger] feeds(links, j, v, q) {
        let q = choose|q: int| 0 <= q < refs.len() && #[trigger] feeds(links, j, v, q);
        let x = refs[q];
        assert(refs.contains(x));
        lemma_edge_into(links, v, x);
        if x == a {
            lemma_edge_reaches(es, a, b);
        } else {
            lemma_reaches_step(es, a, x, b);
        }
    }
}

/// Finds the position before `limit` whose entry is numbered `r`.
fn find_position(links: &Vec<(usize, Vec<usize>)>, limit: usize, r: usize) -> (res: Option<usize>)
    requires
        limit <= links@.len(),
    ensures
        match res {
            Some(j) => j < limit && links@[j as int].0 == r,
            None => !declared_before(links@, limit as int, r),
        },
{
    let mut j: usize = 0;
    while j < limit
        invariant
            j <= limit <= links@.len(),
            forall|q: int| 0 <= q < j ==> links@[q].0 != r,
        decreases limit - j,
    {
        if links[j].0 == r {
            return Some(j);
        }
        j = j + 1;
    }
    None
}

/// Resolves the references of the entry at `i` to the positions that carry
/// those numbers.
fn resolve(links: &Vec<(usize, Vec<usize>)>, i: usize) -> (res: Result<Vec<usize>, GraphError>)
    requires
        i < links@.len(),
    ensures
        match res {
            Ok(ps) => {
                &&& ps@.len() == links@[i as int].1@.len()
                &&& forall|k: int|
                    0 <= k < ps@.len() ==> #[trigger] ps@[k] < i && links@[ps@[k] as int].0
                        == links@[i as int].1@[k]
            },
            Err(GraphError::OutOfOrderReference { episode, reference }) => {
                &&& episode == links@[i as int].0
                &&& links@[i as int].1@.contains(reference)
                &&& !declared_before(links@, i as int, reference)
            },
        },
{
    let refs = &links[i].1;
    let mut ps: Vec<usize> = Vec::new();
    let mut k: usize = 0;
    while k < refs.len()
        invariant
            i < links@.len(),
            refs == &links@[i as int].1,
            k <= refs@.len(),
            ps@.len() == k,
            forall|q: int|
                0 <= q < k ==> #[trigger] ps@[q] < i && links@[ps@[q] as int].0 == refs@[q],
        decreases refs@.len() - k,
    {
        let r = refs[k];
        match find_position(links, i, r) {
            Some(j) => ps.push(j),
            None => {
                assert(refs@.contains(r)) by {
                    assert(refs@[k as int] == r);
                }
                return Err(GraphError::OutOfOrderReference { episode: links[i].0, reference: r });
            },
        }
        k = k + 1;
    }
    Ok(ps)
}

/// `r` occurs among the first `k` items of `s`.
fn occurs_before(s: &Vec<usize>, k: usize, r: usize) -> (res: bool)
    requires
        k <= s@.len(),
    ensures
        res == s@.subrange(0, k as int).contains(r),
{
    let mut j: usize = 0;
    while j < k
        invariant
            j <= k <= s@.len(),
            forall|q: int| 0 <= q < j ==> s@[q] != r,
        decreases k - j,
    {
        if s[j] == r {
            assert(s@.subrange(0, k as int)[j as int] == r);
            return true;
        }
        j = j + 1;
    }
    false
}

/// Row `v` of `anc` marks exactly the entries that reach entry `v`.
pub open spec fn ancestry_row(links: Seq<(usize, Vec<usize>)>, row: Seq<bool>, v: int) -> bool {
    &&& row.len() == links.len()
    &&& forall|j: int|
        0 <= j < links.len() ==> (#[trigger] row[j] <==> reaches(
            reference_edges(links),
            links[j].0,
            links[v].0,
        ))
}

/// Marks each entry that reaches entry `i`, given the resolved positions of
/// its references and the rows of all entries before it.
#[verifier::loop_isolation(false)]
fn ancestry_of(
    links: &Vec<(usize, Vec<usize>)>,
    anc: &Vec<Vec<bool>>,
    ps: &Vec<usize>,
    i: usize,
) -> (row: Vec<bool>)
    requires
        distinct_numbers(links@),
        i < links@.len(),
        anc@.len() == i,
        forall|v: int| 0 <= v < i ==> ancestry_row(links@, #[trigger] anc@[v]@, v),
        ps@.len() == links@[i as int].1@.len(),
        forall|k: int|
            0 <= k < ps@.len() ==> #[trigger] ps@[k] < i && links@[ps@[k] as int].0
                == links@[i as int].1@[k],
    ensures
        ancestry_row(links@, row@, i as int),
{
    let ghost es = reference_edges(links@);
    let n = links.len();
    let mut row: Vec<bool> = Vec::new();
    while row.len() < n
        invariant
            n == links@.len(),
            row@.len() <= n,
            forall|j: int| 0 <= j < row@.len() ==> !#[trigger] row@[j],
        decreases n - row@.len(),
    {
        row.push(false);
    }
    let mut k: usize = 0;
    while k < ps.len()
        invariant
            distinct_numbers(links@),
            es == reference_edges(links@),
            n == links@.len(),
            i < n,
            anc@.len() == i,
            forall|v: int| 0 <= v < i ==> ancestry_row(links@, #[trigger] anc@[v]@, v),
            ps@.len() == links@[i as int].1@.len(),
            forall|q: int|
                0 <= q < ps@.len() ==> #[trigger] ps@[q] < i && links@[ps@[q] as int].0
                    == links@[i as int].1@[q],
            k <= ps@.len(),
            row@.len() == n,
            forall|j: int|
                0 <= j < n ==> (#[trigger] row@[j] <==> exists|q: int|
                    0 <= q < k && #[trigger] feeds(links@, j, i as int, q)),
        decreases ps@.len() - k,
    {
        let p = ps[k];
        assert(ps@[k as int] < i);
        let prow = &anc[p];
        assert(ancestry_row(links@, prow@, p as int));
        let ghost old_row = row@;
        let mut j: usize = 0;
        while j < n
            invariant
                distinct_numbers(links@),
                es == reference_edges(links@),
                n == links@.len(),
                row@.len() == n,
                p < i < n,
                prow@.len() == n,
                ancestry_row(links@, prow@, p as int),
                links@[p as int].0 == links@[i as int].1@[k as int],
                k < ps@.len(),
                j <= n,
                forall|q: int| 0 <= q < j ==> (#[trigger] row@[q] <==> (old_row[q] || q == p || prow@[q])),
                forall|q: int| j <= q < n ==> #[trigger] row@[q] == old_row[q],
            decreases n - j,
        {
            if j == p || prow[j] {
                row.set(j, true);
            }
            j = j + 1;
        }
        assert forall|jj: int| 0 <= jj < n implies (#[trigger] row@[jj] <==> exists|q: int|
            0 <= q < k + 1 && #[trigger] feeds(links@, jj, i as int, q)) by {
            if old_row[jj] {
                let q = choose|q: int| 0 <= q < k && #[trigger] feeds(links@, jj, i as int, q);
                assert(0 <= q < k + 1 && feeds(links@, jj, i as int, q));
            }
            if jj == p || prow@[jj] {
                assert(feeds(links@, jj, i as int, k as int));
            }
            if exists|q: int| 0 <= q < k + 1 && #[trigger] feeds(links@, jj, i as int, q) {
                let q = choose|q: int| 0 <= q < k + 1 && #[trigger] feeds(links@, jj, i as int, q);
                if q == k {
                    if links@[i as int].1@[k as int] == links@[jj].0 {
                        assert(jj == p);
                    } else {
                        assert(prow@[jj]);
                    }
                } else {
                    assert(old_row[jj]);
                }
            }
        }
        k = k + 1;
    }
    proof {
        assert forall|j: int| 0 <= j < n implies (#[trigger] row@[j] <==> reaches(
            es,
            links@[j].0,
            links@[i as int].0,
        )) by {
            lemma_reaches_into(links@, j, i as int);
        }
    }
    row
}

/// Whether some reference of entry `i` other than the one resolved to `p`
/// is itself reached from `p`: the edge from `p` into `i` then has a detour.
fn detour_exists(anc: &Vec<Vec<bool>>, ps: &Vec<usize>, p: usize) -> (res: bool)
    requires
        forall|k: int| 0 <= k < ps@.len() ==> #[trigger] ps@[k] < anc@.len(),
        forall|v: int| 0 <= v < anc@.len() ==> p < (#[trigger] anc@[v])@.len(),
    ensures
        res == exists|k: int| 0 <= k < ps@.len() && #[trigger] anc@[ps@[k] as int]@[p as int],
{
    let mut k: usize = 0;
    while k < ps.len()
        invariant
            k <= ps@.len(),
            forall|q: int| 0 <= q < ps@.len() ==> #[trigger] ps@[q] < anc@.len(),
            forall|v: int| 0 <= v < anc@.len() ==> p < (#[trigger] anc@[v])@.len(),
            forall|q: int| 0 <= q < k ==> !#[trigger] anc@[ps@[q] as int]@[p as int],
        decreases ps@.len() - k,
    {
        let w = ps[k];
        if anc[w][p] {
            return true;
        }
        k = k + 1;
    }
    false
}

/// The transitive reduction of the reference graph: each reference that no
/// longer chain of references already implies, as a pair (referenced episode,
/// referencing episode). The entries must come in an order where each refers
/// only to entries before it; otherwise a reference that breaks this is
/// reported and nothing else is produced.
pub fn adjacency_reduced_edges(links: &Vec<(usize, Vec<usize>)>) -> (res: Result<Vec<Edge>, GraphError>)
    requires
        distinct_numbers(links@),
    ensures
        res is Ok <==> references_earlier(links@),
        res matches Ok(edges) ==> edges@.to_set() == reduced_edges(links@) && edges@.no_duplicates(),
        res matches Err(GraphError::OutOfOrderReference { episode, reference }) ==> breaks_order(
            links@,
            episode,
            reference,
        ),
{
    let ghost es = reference_edges(links@);
    let ghost red = reduced_edges(links@);
    let n = links.len();
    let mut anc: Vec<Vec<bool>> = Vec::new();
    let mut out: Vec<Edge> = Vec::new();
    let mut i: usize = 0;
    while i < n
        invariant
            distinct_numbers(links@),
            n == links@.len(),
            i <= n,
            es == reference_edges(links@),
            red == reduction(es),
            anc@.len() == i,
            forall|v: int| 0 <= v < i ==> ancestry_row(links@, #[trigger] anc@[v]@, v),
            forall|v: int, r: usize|
                0 <= v < i && #[trigger] links@[v].1@.contains(r) ==> declared_before(links@, v, r),
            out@.no_duplicates(),
            forall|e: Edge|
                #[trigger] out@.contains(e) <==> (red.contains(e) && exists|v: int|
                    0 <= v < i && #[trigger] links@[v].0 == e.1),
        decreases n - i,
    {
        let ps = match resolve(links, i) {
            Ok(ps) => ps,
            Err(GraphError::OutOfOrderReference { episode, reference }) => {
                proof {
                    assert(links@[i as int].1@.contains(reference));
                    assert(!declared_before(links@, i as int, reference));
                    assert(!references_earlier(links@));
                    assert(episode == links@[i as int].0);
                    let w = i as int;
                    assert(0 <= w < links@.len() && links@[w].0 == episode && links@[w].1@.contains(reference)
                        && !declared_before(links@, w, reference));
                    assert(breaks_order(links@, episode, reference));
                }
                return Err(GraphError::OutOfOrderReference { episode, reference });
            },
        };
        let refs = &links[i].1;
        let number = links[i].0;
        let ghost out_before = out@;
        let mut k: usize = 0;
        while k < ps.len()
            invariant
                distinct_numbers(links@),
                n == links@.len(),
                i < n,
                es == reference_edges(links@),
                red == reduction(es),
                anc@.len() == i,
                forall|v: int| 0 <= v < i ==> ancestry_row(links@, #[trigger] anc@[v]@, v),
                refs == &links@[i as int].1,
                number == links@[i as int].0,
                ps@.len() == refs@.len(),
                forall|q: int|
                    0 <= q < ps@.len() ==> #[trigger] ps@[q] < i && links@[ps@[q] as int].0
                        == refs@[q],
                k <= ps@.len(),
                out@.no_duplicates(),
                forall|e: Edge|
                    #[trigger] out@.contains(e) <==> (out_before.contains(e) || (red.contains(e)
                        && e.1 == number && refs@.subrange(0, k as int).contains(e.0))),
                forall|e: Edge|
                    #[trigger] out_before.contains(e) <==> (red.contains(e) && exists|v: int|
                        0 <= v < i && #[trigger] links@[v].0 == e.1),
            decreases ps@.len() - k,
        {
            let p = ps[k];
            let r = refs[k];
            assert(ps@[k as int] < i);
            let repeated = occurs_before(refs, k, r);
            let detour = detour_exists(&anc, &ps, p);
            proof {
                assert(refs@.contains(r)) by {
                    assert(refs@[k as int] == r);
                }
                lemma_edge_into(links@, i as int, r);
                assert(es.contains((r, number)));
                // the edge has a detour exactly when some listed reference is reached from `r`
                if detour {
                    let q = choose|q: int| 0 <= q < ps@.len() && #[trigger] anc@[ps@[q] as int]@[p as int];
                    let w = refs@[q];
                    assert(ancestry_row(links@, anc@[ps@[q] as int]@, ps@[q] as int));
                    assert(reaches(es, r, w));
                    assert(refs@.contains(w));
                    lemma_edge_into(links@, i as int, w);
                    assert(has_detour(es, r, number));
                }
                if has_detour(es, r, number) {
                    let w = choose|w: usize| #[trigger] reaches(es, r, w) && es.contains((w, number));
                    lemma_edge_into(links@, i as int, w);
                    let q = refs@.index_of(w);
                    assert(ancestry_row(links@, anc@[ps@[q] as int]@, ps@[q] as int));
                    assert(anc@[ps@[q] as int]@[p as int]);
                }
                assert(red.contains((r, number)) == !detour);
            }
            let ghost out_mid = out@;
            if !detour && !repeated {
                proof {
                    if out_mid.contains((r, number)) {
                        if !out_before.contains((r, number)) {
                            assert(refs@.subrange(0, k as int).contains(r));
                        } else {
                            let v = choose|v: int| 0 <= v < i && #[trigger] links@[v].0 == number;
                            assert(links@[v].0 == links@[i as int].0);
                        }
                    }
                }
                out.push((r, number));
            }
            proof {
                if !detour && !repeated {
                    assert(out@ == out_mid.push((r, number)));
                } else {
                    assert(out@ == out_mid);
                }
                assert forall|e: Edge|
                    #[trigger] out@.contains(e) <==> (out_before.contains(e) || (red.contains(e)
                        && e.1 == number && refs@.subrange(0, k + 1).contains(e.0))) by {
                    if refs@.subrange(0, k + 1).contains(e.0) {
                        let q = refs@.subrange(0, k + 1).index_of(e.0);
                        if q < k {
                            assert(refs@.subrange(0, k as int)[q] == e.0);
                        }
                    }
                    if refs@.subrange(0, k as int).contains(e.0) {
                        let q = refs@.subrange(0, k as int).index_of(e.0);
                        assert(refs@.subrange(0, k + 1)[q] == e.0);
                    }
                    assert(refs@.subrange(0, k + 1)[k as int] == r);
                    if out@.contains(e) && !out_mid.contains(e) {
                        assert(e == (r, number));
                    }
                    if out_mid.contains(e) {
                        let idx = out_mid.index_of(e);
                        assert(out@[idx] == e);
                    }
                    if e == (r, number) && red.contains(e) && !out_mid.contains(e) {
                        assert(!repeated);
                        assert(out@[out@.len() - 1] == e);
                    }
                }
            }
            k = k + 1;
        }
        let row = ancestry_of(links, &anc, &ps, i);
        let ghost anc_before = anc@;
        anc.push(row);
        proof {
            assert forall|v: int| 0 <= v < i + 1 implies ancestry_row(links@, #[trigger] anc@[v]@, v) by {
                if v < i {
                    assert(anc@[v] == anc_before[v]);
                }
            }
            assert forall|r: usize| #[trigger] links@[i as int].1@.contains(r) implies declared_before(
                links@,
                i as int,
                r,
            ) by {
                let q = refs@.index_of(r);
                assert(links@[ps@[q] as int].0 == r);
            }
            assert(refs@.subrange(0, ps@.len() as int) == refs@);
            assert forall|e: Edge|
                #[trigger] out@.contains(e) <==> (red.contains(e) && exists|v: int|
                    0 <= v < i + 1 && #[trigger] links@[v].0 == e.1) by {
                if red.contains(e) && e.1 == number {
                    assert(es.contains(e));
                    lemma_edge_into(links@, i as int, e.0);
                }
                if red.contains(e) && (exists|v: int| 0 <= v < i + 1 && #[trigger] links@[v].0 == e.1) {
                    if e.1 != number {
                        let v = choose|v: int| 0 <= v < i + 1 && #[trigger] links@[v].0 == e.1;
                        assert(v < i);
                    }
                }
            }
        }
        i = i + 1;
    }
    Ok(out)
}

/// Along a well-ordered list, every reference edge climbs in list position.
pub proof fn lemma_reference_edges_ranked(links: Seq<(usize, Vec<usize>)>)
    requires
        distinct_numbers(links),
        references_earlier(links),
    ensures
        ranked(reference_edges(links), |a: usize| position(links, a)),
{
    let es = reference_edges(links);
    let rank = |a: usize| position(links, a);
    assert forall|a: usize, b: usize| #[trigger] es.contains((a, b)) implies rank(a) < rank(b) by {
        assert(refers(links, a, b));
        let i = choose|i: int| 0 <= i < links.len() && links[i].0 == b && #[trigger] links[i].1@.contains(a);
        assert(declared_before(links, i, a));
        let j = choose|j: int| 0 <= j < i && #[trigger] links[j].0 == a;
        assert(rank(a) == j);
        assert(rank(b) == i);
    }
}

/// The reduced edges reach exactly what the full references reach: for every
/// pair of episodes, one is reachable from the other along the reduced edges
/// if and only if it is along the references.
pub proof fn lemma_reduced_keeps_reach(links: Seq<(usize, Vec<usize>)>, a: usize, b: usize)
    requires
        distinct_numbers(links),
        references_earlier(links),
    ensures
        reaches(reduced_edges(links), a, b) <==> reaches(reference_edges(links), a, b),
{
    lemma_reference_edges_ranked(links);
    lemma_reduction_keeps_reach(reference_edges(links), |a: usize| position(links, a), a, b);
}

/// No reduced edge is implied by the other reduced edges: without it, its
/// target can no longer be reached from its source.
pub proof fn lemma_reduced_minimal(links: Seq<(usize, Vec<usize>)>, e: Edge)
    requires
        reduced_edges(links).contains(e),
    ensures
        !reaches(reduced_edges(links).remove(e), e.0, e.1),
{
    lemma_reduction_minimal(reference_edges(links), e);
}

/// Where no episode references another, nothing is left to reduce.
pub proof fn lemma_no_references_no_edges(links: Seq<(usize, Vec<usize>)>)
    requires
        forall|i: int| 0 <= i < links.len() ==> (#[trigger] links[i]).1@.len() == 0,
    ensures
        reduced_edges(links) == Set::<Edge>::empty(),
{
    assert forall|e: Edge| !#[trigger] reference_edges(links).contains(e) by {
        if refers(links, e.0, e.1) {
            let i = choose|i: int| 0 <= i < links.len() && links[i].0 == e.1 && #[trigger] links[i].1@.contains(e.0);
            assert(links[i].1@.len() == 0);
        }
    }
    assert(reduced_edges(links) =~= Set::<Edge>::empty());
}

} // verus!
