use vstd::prelude::*;

verus! {

/// Every parent is a node, and each step from a node to its parent climbs in
/// rank.
pub open spec fn forest(parent: Seq<usize>, rank: Seq<usize>) -> bool {
    &&& parent.len() == rank.len()
    &&& forall|i: int| 0 <= i < parent.len() ==> (#[trigger] parent[i] as int) < parent.len()
    &&& forall|i: int|
        0 <= i < parent.len() && #[trigger] parent[i] != i ==> rank[i] < rank[parent[i] as int]
}

/// The root reached from `x` by following parents.
pub open spec fn root_of(parent: Seq<usize>, rank: Seq<usize>, x: int) -> int
    decreases usize::MAX - rank[x],
    when forest(parent, rank) && 0 <= x < parent.len()
{
    if parent[x] == x {
        x
    } else {
        root_of(parent, rank, parent[x] as int)
    }
}

pub proof fn lemma_root(parent: Seq<usize>, rank: Seq<usize>, x: int)
    requires
        forest(parent, rank),
        0 <= x < parent.len(),
    ensures
        0 <= root_of(parent, rank, x) < parent.len(),
        parent[root_of(parent, rank, x)] == root_of(parent, rank, x),
        root_of(parent, rank, x) != x ==> rank[x] < rank[root_of(parent, rank, x)],
    decreases usize::MAX - rank[x],
{
    if parent[x] != x {
        assert(rank[x] < rank[parent[x] as int]);
        lemma_root(parent, rank, parent[x] as int);
    }
}

/// Raising ranks, while the forest stays ordered by them, moves no root.
pub proof fn lemma_rank_change(parent: Seq<usize>, rank: Seq<usize>, rank2: Seq<usize>, x: int)
    requires
        forest(parent, rank),
        forest(parent, rank2),
        0 <= x < parent.len(),
    ensures
        root_of(parent, rank2, x) == root_of(parent, rank, x),
    decreases usize::MAX - rank[x],
{
    if parent[x] != x {
        assert(rank[x] < rank[parent[x] as int]);
        lemma_rank_change(parent, rank, rank2, parent[x] as int);
    }
}

/// Pointing a node at a node of higher rank keeps the forest.
pub proof fn lemma_repoint_forest(parent: Seq<usize>, rank: Seq<usize>, c: int, r: usize)
    requires
        forest(parent, rank),
        0 <= c < parent.len(),
        r < parent.len(),
        r == c || rank[c] < rank[r as int],
    ensures
        forest(parent.update(c, r as usize), rank),
{
    let p2 = parent.update(c, r as usize);
    assert forall|i: int| 0 <= i < p2.len() implies (#[trigger] p2[i] as int) < p2.len() by {
        if i != c {
            assert(p2[i] == parent[i]);
        }
    }
    assert forall|i: int| 0 <= i < p2.len() && #[trigger] p2[i] != i implies rank[i] < rank[p2[i] as int] by {
        if i != c {
            assert(p2[i] == parent[i]);
        }
    }
}

/// Pointing `c` straight at its root `r` moves no root.
pub proof fn lemma_compress(parent: Seq<usize>, rank: Seq<usize>, c: int, r: usize, y: int)
    requires
        forest(parent, rank),
        0 <= c < parent.len(),
        0 <= y < parent.len(),
        r == root_of(parent, rank, c),
        forest(parent.update(c, r as usize), rank),
    ensures
        root_of(parent.update(c, r as usize), rank, y) == root_of(parent, rank, y),
    decreases usize::MAX - rank[y],
{
    let p2 = parent.update(c, r as usize);
    lemma_root(parent, rank, c);
    if y == c {
        if parent[c] != c {
            assert(p2[r as int] == parent[r as int]);
            assert(root_of(p2, rank, r as int) == r);
        }
    } else if parent[y] != y {
        assert(p2[y] == parent[y]);
        assert(rank[y] < rank[parent[y] as int]);
        lemma_compress(parent, rank, c, r, parent[y] as int);
    } else {
        assert(p2[y] == parent[y]);
    }
}

/// Hanging root `u` below root `v` moves the roots of `u`'s tree to `v` and
/// no other root.
pub proof fn lemma_link(parent: Seq<usize>, rank: Seq<usize>, u: int, v: usize, y: int)
    requires
        forest(parent, rank),
        0 <= u < parent.len(),
        v < parent.len(),
        0 <= y < parent.len(),
        u != v,
        parent[u] == u,
        parent[v as int] == v,
        forest(parent.update(u, v), rank),
    ensures
        root_of(parent.update(u, v), rank, y) == if root_of(parent, rank, y) == u {
            v as int
        } else {
            root_of(parent, rank, y)
        },
    decreases usize::MAX - rank[y],
{
    let p2 = parent.update(u, v);
    assert(p2[v as int] == v);
    assert(root_of(p2, rank, v as int) == v);
    if y == u {
        assert(p2[u] == v);
    } else if parent[y] != y {
        assert(p2[y] == parent[y]);
        assert(rank[y] < rank[parent[y] as int]);
        lemma_link(parent, rank, u, v, parent[y] as int);
    } else {
        assert(p2[y] == parent[y]);
    }
}

/// Disjoint sets over the nodes `0..n`, merged by rank and compressed on
/// every lookup.
pub struct DisjointSets {
    pub parent: Vec<usize>,
    pub rank: Vec<usize>,
}

impl DisjointSets {
    /// The parents and ranks form an ordered forest.
    pub open spec fn wf(&self) -> bool {
        forest(self.parent@, self.rank@)
    }

    /// The number of nodes.
    pub open spec fn len(&self) -> nat {
        self.parent@.len()
    }

    /// The representative of the set that holds `x`.
    pub open spec fn root(&self, x: int) -> int {
        root_of(self.parent@, self.rank@, x)
    }

    /// Every node alone in a set of its own.
    pub fn new(n: usize) -> (s: DisjointSets)
        ensures
            s.wf(),
            s.len() == n,
            forall|i: int| 0 <= i < n ==> #[trigger] s.root(i) == i,
            forall|i: int| 0 <= i < n ==> #[trigger] s.rank@[i] == 0,
    {
        let mut parent: Vec<usize> = Vec::new();
        let mut rank: Vec<usize> = Vec::new();
        let mut i: usize = 0;
        while i < n
            invariant
                i <= n,
                parent@.len() == i,
                rank@.len() == i,
                forall|j: int| 0 <= j < i ==> #[trigger] parent@[j] == j,
                forall|j: int| 0 <= j < i ==> #[trigger] rank@[j] == 0,
            decreases n - i,
        {
            parent.push(i);
            rank.push(0);
            i = i + 1;
        }
        let s = DisjointSets { parent, rank };
        assert forall|j: int| 0 <= j < n implies #[trigger] s.root(j) == j by {
            assert(s.parent@[j] == j);
        }
        s
    }

    /// The representative of `x`'s set; the path from `x` is compressed on
    /// the way.
    #[verifier::rlimit(50)]
    pub fn find(&mut self, x: usize) -> (r: usize)
        requires
            old(self).wf(),
            x < old(self).len(),
        ensures
            final(self).wf(),
            final(self).len() == old(self).len(),
            final(self).rank@ == old(self).rank@,
            r == old(self).root(x as int),
            forall|y: int| 0 <= y < old(self).len() ==> #[trigger] final(self).root(y) == old(self).root(y),
    {
        let ghost orig = *self;
        let mut r = x;
        while self.parent[r] != r
            invariant
                *self == orig,
                self.wf(),
                r < self.len(),
                self.root(r as int) == orig.root(x as int),
            decreases usize::MAX - self.rank@[r as int],
        {
            proof {
                assert(self.rank@[r as int] < self.rank@[self.parent@[r as int] as int]);
            }
            r = self.parent[r];
        }
        let mut c = x;
        while self.parent[c] != c
            invariant
                self.wf(),
                self.len() == orig.len(),
                self.rank@ == orig.rank@,
                c < self.len(),
                r < self.len(),
                self.root(c as int) == r,
                r == orig.root(x as int),
                forall|y: int| 0 <= y < orig.len() ==> #[trigger] self.root(y) == orig.root(y),
            decreases usize::MAX - self.rank@[c as int],
        {
            let next = self.parent[c];
            let ghost before = *self;
            proof {
                assert(self.rank@[c as int] < self.rank@[next as int]);
                assert(before.root(next as int) == r);
                lemma_root(before.parent@, before.rank@, c as int);
                lemma_repoint_forest(before.parent@, before.rank@, c as int, r);
            }
            self.parent.set(c, r);
            proof {
                assert(self.parent@ == before.parent@.update(c as int, r));
                assert(self.rank@ == before.rank@);
                assert forall|y: int| 0 <= y < orig.len() implies #[trigger] self.root(y) == orig.root(y) by {
                    lemma_compress(before.parent@, before.rank@, c as int, r, y);
                    assert(before.root(y) == orig.root(y));
                    assert(self.root(y) == root_of(before.parent@.update(c as int, r), before.rank@, y));
                }
                lemma_compress(before.parent@, before.rank@, c as int, r, next as int);
            }
            c = next;
        }
        r
    }

    /// Merges the sets of `a` and `b`: the root of lower rank goes under the
    /// other, and equal ranks raise the rank of the root that stays.
    #[verifier::rlimit(50)]
    pub fn union(&mut self, a: usize, b: usize) -> (w: Ghost<int>)
        requires
            old(self).wf(),
            a < old(self).len(),
            b < old(self).len(),
            forall|i: int| 0 <= i < old(self).len() ==> #[trigger] old(self).rank@[i] < usize::MAX,
        ensures
            final(self).wf(),
            final(self).len() == old(self).len(),
            forall|i: int| 0 <= i < old(self).len() ==> #[trigger] final(self).rank@[i] <= old(self).rank@[i] + 1,
            w@ == old(self).root(a as int) || w@ == old(self).root(b as int),
            forall|y: int|
                0 <= y < old(self).len() ==> #[trigger] final(self).root(y) == if old(self).root(y)
                    == old(self).root(a as int) || old(self).root(y) == old(self).root(b as int) {
                    w@
                } else {
                    old(self).root(y)
                },
    {
        let ghost orig = *self;
        let ra = self.find(a);
        let rb = self.find(b);
        proof {
            assert(self.root(a as int) == ra);
            assert(self.root(b as int) == rb);
            lemma_root(self.parent@, self.rank@, a as int);
            lemma_root(self.parent@, self.rank@, b as int);
            assert(ra < self.len() && rb < self.len());
            assert(self.parent@[ra as int] == ra && self.parent@[rb as int] == rb);
        }
        if ra == rb {
            return Ghost(ra as int);
        }
        let (low, high) = if self.rank[ra] < self.rank[rb] {
            (ra, rb)
        } else {
            (rb, ra)
        };
        let ghost found = *self;
        if self.rank[low] == self.rank[high] {
            let h = self.rank[high];
            self.rank.set(high, h + 1);
            proof {
                assert forall|i: int| 0 <= i < self.parent@.len() && #[trigger] self.parent@[i] != i implies self.rank@[i]
                    < self.rank@[self.parent@[i] as int] by {
                    assert(found.rank@[i] < found.rank@[found.parent@[i] as int]);
                }
                assert(self.wf());
                assert forall|y: int| 0 <= y < found.len() implies #[trigger] self.root(y) == found.root(y) by {
                    lemma_rank_change(found.parent@, found.rank@, self.rank@, y);
                }
            }
        }
        let ghost raised = *self;
        proof {
            assert(raised.wf());
            assert(raised.parent@ == found.parent@);
            assert(forall|y: int| 0 <= y < found.len() ==> #[trigger] raised.root(y) == found.root(y));
            assert(raised.rank@[low as int] < raised.rank@[high as int]);
            lemma_repoint_forest(raised.parent@, raised.rank@, low as int, high);
        }
        self.parent.set(low, high);
        proof {
            assert(self.parent@ == raised.parent@.update(low as int, high));
            assert forall|y: int| 0 <= y < orig.len() implies #[trigger] self.root(y) == if orig.root(y) == orig.root(
                a as int,
            ) || orig.root(y) == orig.root(b as int) {
                high as int
            } else {
                orig.root(y)
            } by {
                assert(raised.root(y) == orig.root(y));
                lemma_link(raised.parent@, raised.rank@, low as int, high, y);
            }
        }
        Ghost(high as int)
    }
}

} // verus!
