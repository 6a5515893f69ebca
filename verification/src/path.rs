use vstd::prelude::*;

use crate::graph::Graph;
use crate::search::SearchResult;
use crate::search::dv;
use crate::search::result_wf;

verus! {

/// `hp` is a reconstructed shortest walk from `start` to `target`: the
/// node at position `x` was settled at distance `x`, consecutive nodes are
/// joined by edges, and the hop count equals the recorded distance of
/// `target`.
pub open spec fn is_path_handles(
    g: Graph,
    r: SearchResult,
    start: int,
    target: int,
    hp: Seq<usize>,
) -> bool {
    &&& hp.len() == dv(r.dist@[target]) + 1
    &&& hp[0] as int == start
    &&& hp[hp.len() - 1] as int == target
    &&& forall|x: int|
        0 <= x < hp.len()
            ==> ((#[trigger] hp[x] as int) < g.n()
                && dv(r.dist@[hp[x] as int]) == x)
    &&& forall|x: int| 1 <= x < hp.len() ==> g.edge_between(hp[x - 1] as int, #[trigger] hp[x] as int)
}

/// Walk backward from `target` along recorded predecessors until `start`,
/// then reverse. Succeeds exactly when the search settled `target`; every
/// backward step is checked to descend by exactly one hop, and a step that
/// does not (impossible for a sound search result) stops reconstruction
/// instead of looping.
#[verifier::rlimit(60)]
pub fn reconstruct_path(g: &Graph, r: &SearchResult, start: usize, target: usize) -> (p: Option<
    Vec<usize>,
>)
    requires
        g.wf(),
        result_wf(*g, start as int, *r),
        g.valid_node(target as int),
    ensures
        p is Some <==> r.dist@[target as int] is Some,
        p matches Some(pp) ==> is_path_handles(*g, *r, start as int, target as int, pp@),
{
    let n = g.node_count();
    if r.dist[target].is_none() {
        return Option::None;
    }
    let mut rev: Vec<usize> = Vec::new();
    rev.push(target);
    let mut cur: usize = target;
    while cur != start
        invariant
            g.wf(),
            result_wf(*g, start as int, *r),
            n as int == g.n(),
            (target as int) < n as int,
            (cur as int) < n as int,
            r.dist@[target as int] is Some,
            r.dist@[cur as int] is Some,
            rev@.len() >= 1,
            rev@[0] == target,
            rev@[rev@.len() - 1] == cur,
            dv(r.dist@[cur as int]) == dv(r.dist@[target as int]) - (rev@.len() - 1),
            forall|m: int|
                0 <= m < rev@.len()
                    ==> ((#[trigger] rev@[m] as int) < n as int
                        && dv(r.dist@[rev@[m] as int]) == dv(r.dist@[target as int]) - m),
            forall|m: int|
                1 <= m < rev@.len()
                    ==> g.edge_between(#[trigger] rev@[m] as int, rev@[m - 1] as int),
        decreases dv(r.dist@[cur as int]),
    {
        proof {
            assert(r.pred@[cur as int] is Some);
        }
        match r.pred[cur] {
            Option::Some(u) => {
                if u >= n {
                    // a sound search result never points outside the graph
                    return Option::None;
                }
                let du_opt = r.dist[u];
                let dc_opt = r.dist[cur];
                match (du_opt, dc_opt) {
                    (Option::Some(a), Option::Some(b)) => {
                        if a < b && b - a == 1 {
                            rev.push(u);
                            cur = u;
                        } else {
                            // the backward step must descend by exactly one hop
                            return Option::None;
                        }
                    },
                    _ => {
                        // unsettled predecessor: inconsistent state
                        return Option::None;
                    },
                }
            },
            Option::None => {
                // no predecessor recorded before reaching the start
                return Option::None;
            },
        }
    }
    proof {
        assert(dv(r.dist@[start as int]) == 0);
        assert(rev@.len() == dv(r.dist@[target as int]) + 1);
    }
    let mut path: Vec<usize> = Vec::new();
    let mut m: usize = rev.len();
    while m > 0
        invariant
            m as int <= rev@.len(),
            path@.len() == rev@.len() - m as int,
            forall|x: int|
                0 <= x < path@.len()
                    ==> #[trigger] path@[x] == rev@[rev@.len() - 1 - x],
        decreases m as int,
    {
        m = m - 1;
        path.push(rev[m]);
    }
    proof {
        let hp = path@;
        let l = rev@.len() as int;
        assert(hp.len() == l);
        assert(hp[0] == rev@[l - 1]);
        assert(hp[hp.len() - 1] == rev@[0]);
        assert forall|x: int|
            1 <= x < hp.len()
                implies g.edge_between(hp[x - 1] as int, #[trigger] hp[x] as int) by {
            assert(hp[x - 1] == rev@[l - x]);
            assert(hp[x] == rev@[l - 1 - x]);
            assert(g.edge_between(rev@[l - x] as int, rev@[l - x - 1] as int));
        }
    }
    Option::Some(path)
}

/// A query from a node to itself: the reconstructed path is the one-node
/// sequence holding the start, whose recorded distance is zero.
pub proof fn lemma_self_path(g: Graph, r: SearchResult, start: int, hp: Seq<usize>)
    requires
        g.wf(),
        result_wf(g, start, r),
        is_path_handles(g, r, start, start, hp),
    ensures
        dv(r.dist@[start]) == 0,
        hp.len() == 1,
        hp[0] as int == start,
{
}

/// A reconstructed path's hop count equals the recorded distance of the
/// target, that distance is the least of any walk, and every consecutive
/// pair on the path is joined by an edge.
pub proof fn lemma_path_matches_distance(
    g: Graph,
    r: SearchResult,
    start: int,
    target: int,
    hp: Seq<usize>,
)
    requires
        g.wf(),
        result_wf(g, start, r),
        crate::search::distances_exact(g, start, r.dist@),
        0 <= target < g.n(),
        r.dist@[target] is Some,
        is_path_handles(g, r, start, target, hp),
    ensures
        hp.len() - 1 == dv(r.dist@[target]),
        crate::search::is_min_dist(g, start, target, (hp.len() - 1) as nat),
        forall|x: int| 1 <= x < hp.len() ==> g.edge_between(hp[x - 1] as int, #[trigger] hp[x] as int),
{
    assert(crate::search::has_path(g, start, target, dv(r.dist@[target]) as nat));
    assert forall|k: nat| #[trigger] crate::search::has_path(g, start, target, k)
            implies (hp.len() - 1) as nat <= k by {
        assert(r.dist@[target] is Some && dv(r.dist@[target]) <= k);
    }
}

} // verus!
