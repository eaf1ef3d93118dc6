use vstd::multiset::Multiset;
use vstd::prelude::*;

verus! {

/// One episode of the show. Only `number` matters to the reference graph;
/// the rest is carried along for whoever reads the result.
pub struct Episode {
    pub slug: String,
    pub number: usize,
    /// Publication time, in milliseconds since the Unix epoch (UTC).
    pub published_at: i64,
    pub title: String,
    pub preview: Option<String>,
}

/// The display slug of an episode: `CD-` followed by its number as written.
pub fn slug_from_num_str(num_str: &str) -> (r: String)
    ensures
        r@ == seq!['C', 'D', '-'] + num_str@,
{
    let mut s = String::from_str("CD-");
    proof {
        reveal_strlit("CD-");
    }
    s.append(num_str);
    s
}

/// Episode numbers never decrease along `eps`.
pub open spec fn sorted_by_number(eps: Seq<Episode>) -> bool {
    forall|i: int, j: int| 0 <= i < j < eps.len() ==> eps[i].number <= eps[j].number
}

/// The position of an episode with the smallest number; the first of them.
fn lowest(eps: &Vec<Episode>) -> (q: usize)
    requires
        eps@.len() > 0,
    ensures
        q < eps@.len(),
        forall|j: int| 0 <= j < eps@.len() ==> eps@[q as int].number <= #[trigger] eps@[j].number,
{
    let mut q: usize = 0;
    let mut j: usize = 1;
    while j < eps.len()
        invariant
            eps@.len() > 0,
            q < j <= eps@.len(),
            forall|i: int| 0 <= i < j ==> eps@[q as int].number <= #[trigger] eps@[i].number,
        decreases eps@.len() - j,
    {
        if eps[j].number < eps[q].number {
            q = j;
        }
        j = j + 1;
    }
    q
}

/// The episodes in order of their numbers; equal numbers keep no particular
/// order.
pub fn sort_episodes(episodes: Vec<Episode>) -> (r: Vec<Episode>)
    ensures
        r@.to_multiset() == episodes@.to_multiset(),
        sorted_by_number(r@),
{
    let mut rest = episodes;
    let mut out: Vec<Episode> = Vec::new();
    proof {
        out@.to_multiset_ensures();
        assert(out@.to_multiset() =~= Multiset::empty());
        assert(out@.to_multiset().add(rest@.to_multiset()) =~= episodes@.to_multiset());
    }
    while rest.len() > 0
        invariant
            out@.to_multiset().add(rest@.to_multiset()) == episodes@.to_multiset(),
            sorted_by_number(out@),
            forall|i: int, j: int|
                0 <= i < out@.len() && 0 <= j < rest@.len() ==> #[trigger] out@[i].number <= #[trigger] rest@[j].number,
        decreases rest@.len(),
    {
        let q = lowest(&rest);
        let ghost before_rest = rest@;
        let ghost before_out = out@;
        let e = rest.remove(q);
        out.push(e);
        proof {
            before_rest.to_multiset_ensures();
            before_out.to_multiset_ensures();
            assert(rest@ == before_rest.remove(q as int));
            assert(out@ == before_out.push(before_rest[q as int]));
            assert(before_rest.remove(q as int).to_multiset() =~= before_rest.to_multiset().remove(
                before_rest[q as int],
            ));
            assert(out@.to_multiset() =~= before_out.to_multiset().insert(before_rest[q as int]));
            assert(out@.to_multiset().add(rest@.to_multiset()) =~= episodes@.to_multiset());
            assert forall|i: int, j: int|
                0 <= i < out@.len() && 0 <= j < rest@.len() implies #[trigger] out@[i].number
                    <= #[trigger] rest@[j].number by {
                let jj = if j < q { j } else { j + 1 };
                assert(rest@[j] == before_rest[jj]);
            }
        }
    }
    proof {
        rest@.to_multiset_ensures();
        assert(rest@.to_multiset().len() == 0);
        assert(rest@.to_multiset() =~= Multiset::empty());
        assert(out@.to_multiset() =~= out@.to_multiset().add(rest@.to_multiset()));
    }
    out
}

} // verus!
