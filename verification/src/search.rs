use vstd::prelude::*;

use crate::graph::Graph;

verus! {

/// The distance recorded for a node, as an integer; `-1` stands for
/// "not reached".
pub open spec fn dv(o: Option<usize>) -> int {
    match o {
        Option::Some(d) => d as int,
        Option::None => -1,
    }
}

/// There is a walk of exactly `k` hops from `s` to `t`.
pub open spec fn has_path(g: Graph, s: int, t: int, k: nat) -> bool
    decreases k,
{
    if k == 0 {
        s == t && g.valid_node(s)
    } else {
        exists|m: int| g.edge_between(s, m) && has_path(g, m, t, (k - 1) as nat)
    }
}

/// `t` can be reached from `s` in some number of hops.
pub open spec fn reachable(g: Graph, s: int, t: int) -> bool {
    exists|k: nat| has_path(g, s, t, k)
}

/// `d` is the least hop count of any walk from `s` to `t`.
pub open spec fn is_min_dist(g: Graph, s: int, t: int, d: nat) -> bool {
    &&& has_path(g, s, t, d)
    &&& forall|k: nat| #[trigger] has_path(g, s, t, k) ==> d <= k
}

/// Hop distances and the predecessor of each settled node on a shortest
/// path, as produced by `shortest_path_search`.
pub struct SearchResult {
    /// `dist[v]` is `Some(d)` when `v` was reached in `d` hops.
    pub dist: Vec<Option<usize>>,
    /// `pred[v]` is the node `v` was first reached from.
    pub pred: Vec<Option<usize>>,
}

/// Every settled node other than the start has a settled predecessor one
/// hop nearer the start, joined to it by an edge.
pub open spec fn chain_ok(g: Graph, start: int, dist: Seq<Option<usize>>, pred: Seq<Option<usize>>) -> bool {
    forall|v: int|
        #![trigger pred[v]]
        0 <= v < dist.len() && v != start && dist[v] is Some ==> {
            &&& 1 <= dv(dist[v])
            &&& pred[v] is Some
            &&& 0 <= dv(pred[v]) < dist.len()
            &&& dist[dv(pred[v])] is Some
            &&& dv(dist[dv(pred[v])]) == dv(dist[v]) - 1
            &&& g.edge_between(dv(pred[v]), v)
        }
}

/// Structural soundness of a search result for `g` and `start`.
pub open spec fn result_wf(g: Graph, start: int, r: SearchResult) -> bool {
    &&& r.dist@.len() == g.n()
    &&& r.pred@.len() == g.n()
    &&& 0 <= start < g.n()
    &&& r.dist@[start] == Option::Some(0usize)
    &&& r.pred@[start] is None
    &&& chain_ok(g, start, r.dist@, r.pred@)
}

/// No settled node has an unsettled neighbor, and distances of neighbors
/// differ by at most one hop.
pub open spec fn relaxed(g: Graph, dist: Seq<Option<usize>>) -> bool {
    forall|u: int, v: int|
        0 <= u < dist.len() && 0 <= v < dist.len() && (#[trigger] dist[u]) is Some
            && g.edge_between(u, v)
            ==> (#[trigger] dist[v]) is Some && dv(dist[v]) <= dv(dist[u]) + 1
}

/// The recorded distances are exactly the least hop counts: every settled
/// node is reached by a walk of its recorded length, and no walk beats a
/// recorded distance; unsettled nodes have no walk at all.
pub open spec fn distances_exact(g: Graph, start: int, dist: Seq<Option<usize>>) -> bool {
    &&& forall|v: int|
        0 <= v < dist.len() && (#[trigger] dist[v]) is Some
            ==> has_path(g, start, v, dv(dist[v]) as nat)
    &&& forall|v: int, k: nat|
        0 <= v < dist.len() && #[trigger] has_path(g, start, v, k)
            ==> dist[v] is Some && dv(dist[v]) <= k
}

/// A walk can be extended by one edge at its far end.
pub proof fn lemma_has_path_extend(g: Graph, s: int, m: int, t: int, k: nat)
    requires
        has_path(g, s, m, k),
        g.edge_between(m, t),
    ensures
        has_path(g, s, t, (k + 1) as nat),
    decreases k,
{
    if k == 0 {
        assert(g.edge_between(s, t));
        assert(has_path(g, t, t, 0));
    } else {
        let m1 = choose|m1: int| g.edge_between(s, m1) && has_path(g, m1, m, (k - 1) as nat);
        lemma_has_path_extend(g, m1, m, t, (k - 1) as nat);
    }
}

/// A walk of at least one hop has a next-to-last node.
pub proof fn lemma_has_path_last(g: Graph, s: int, t: int, k: nat)
    requires
        has_path(g, s, t, k),
        k >= 1,
    ensures
        exists|u: int| #[trigger] g.edge_between(u, t) && has_path(g, s, u, (k - 1) as nat),
    decreases k,
{
    let m = choose|m: int| g.edge_between(s, m) && has_path(g, m, t, (k - 1) as nat);
    if k == 1 {
        assert(m == t);
        assert(g.edge_between(s, t) && has_path(g, s, s, 0));
    } else {
        lemma_has_path_last(g, m, t, (k - 1) as nat);
        let u = choose|u: int| #[trigger] g.edge_between(u, t) && has_path(g, m, u, (k - 2) as nat);
        assert(g.edge_between(s, m) && has_path(g, m, u, (k - 2) as nat));
        assert(has_path(g, s, u, (k - 1) as nat));
    }
}

/// Following the predecessor chain shows that each settled node really is
/// reached by a walk of its recorded length.
pub proof fn lemma_chain_has_path(g: Graph, start: int, dist: Seq<Option<usize>>, pred: Seq<Option<usize>>, v: int)
    requires
        dist.len() == g.n(),
        0 <= start < g.n(),
        dist[start] == Option::Some(0usize),
        chain_ok(g, start, dist, pred),
        0 <= v < dist.len(),
        dist[v] is Some,
    ensures
        has_path(g, start, v, dv(dist[v]) as nat),
    decreases dv(dist[v]),
{
    if v == start {
        assert(dv(dist[v]) == 0);
        assert(g.valid_node(start));
    } else {
        let u = dv(pred[v]);
        lemma_chain_has_path(g, start, dist, pred, u);
        lemma_has_path_extend(g, start, u, v, dv(dist[u]) as nat);
    }
}

/// In a fully relaxed state that settles the start at distance zero, no
/// walk is shorter than the recorded distance of its endpoint.
pub proof fn lemma_relaxed_min(g: Graph, start: int, dist: Seq<Option<usize>>, v: int, k: nat)
    requires
        dist.len() == g.n(),
        0 <= start < g.n(),
        dist[start] == Option::Some(0usize),
        relaxed(g, dist),
        0 <= v < dist.len(),
        has_path(g, start, v, k),
    ensures
        dist[v] is Some && dv(dist[v]) <= k,
    decreases k,
{
    if k == 0 {
        assert(v == start);
    } else {
        lemma_has_path_last(g, start, v, k);
        let u = choose|u: int| #[trigger] g.edge_between(u, v) && has_path(g, start, u, (k - 1) as nat);
        lemma_relaxed_min(g, start, dist, u, (k - 1) as nat);
    }
}

/// A sequence of distinct values below `n` has at most `n` elements.
pub proof fn lemma_distinct_bounded_len(q: Seq<usize>, n: int)
    requires
        q.no_duplicates(),
        forall|j: int| 0 <= j < q.len() ==> (#[trigger] q[j] as int) < n,
        0 <= n,
    ensures
        q.len() <= n,
    decreases n,
{
    if n == 0 {
        if q.len() > 0 {
            assert((q[0] as int) < 0);
        }
    } else {
        if exists|j: int| 0 <= j < q.len() && (#[trigger] q[j] as int) == n - 1 {
            let j = choose|j: int| 0 <= j < q.len() && (#[trigger] q[j] as int) == n - 1;
            let q2 = q.remove(j);
            assert forall|m: int| 0 <= m < q2.len() implies (#[trigger] q2[m] as int) < n - 1 by {
                if m < j {
                    assert(q2[m] == q[m]);
                    assert(q[m] != q[j]);
                } else {
                    assert(q2[m] == q[m + 1]);
                    assert(q[m + 1] != q[j]);
                }
            }
            assert(q2.no_duplicates()) by {
                assert forall|m1: int, m2: int|
                    0 <= m1 < q2.len() && 0 <= m2 < q2.len() && m1 != m2
                        implies q2[m1] != q2[m2] by {
                    let i1 = if m1 < j { m1 } else { m1 + 1 };
                    let i2 = if m2 < j { m2 } else { m2 + 1 };
                    assert(q2[m1] == q[i1]);
                    assert(q2[m2] == q[i2]);
                }
            }
            lemma_distinct_bounded_len(q2, n - 1);
        } else {
            assert forall|m: int| 0 <= m < q.len() implies (#[trigger] q[m] as int) < n - 1 by {
                assert((q[m] as int) != n - 1);
            }
            lemma_distinct_bounded_len(q, n - 1);
        }
    }
}

/// A node is settled by the search exactly when some walk reaches it: the
/// search reports "no path" for a target if and only if none exists.
pub proof fn lemma_settled_iff_reachable(g: Graph, start: int, dist: Seq<Option<usize>>, t: int)
    requires
        distances_exact(g, start, dist),
        0 <= t < dist.len(),
    ensures
        dist[t] is Some <==> reachable(g, start, t),
{
    if dist[t] is Some {
        assert(has_path(g, start, t, dv(dist[t]) as nat));
    }
    if reachable(g, start, t) {
        let k = choose|k: nat| has_path(g, start, t, k);
        assert(has_path(g, start, t, k));
    }
}

/// One relaxation step of the search: settling the unsettled neighbor `v`
/// of the queue entry `u` at distance `du + 1` keeps every invariant of the
/// search state.
pub proof fn lemma_bfs_push(
    g: Graph,
    start: int,
    old_dist: Seq<Option<usize>>,
    old_pred: Seq<Option<usize>>,
    old_queue: Seq<usize>,
    i: int,
    u: usize,
    du: usize,
    v: usize,
    new_dist: Seq<Option<usize>>,
    new_pred: Seq<Option<usize>>,
    new_queue: Seq<usize>,
)
    requires
        g.wf(),
        0 <= start < g.n(),
        old_dist.len() == g.n(),
        old_pred.len() == g.n(),
        old_dist[start] == Option::Some(0usize),
        old_pred[start] is None,
        0 <= i < old_queue.len() <= g.n(),
        u == old_queue[i],
        old_dist[u as int] == Option::Some(du),
        du as int <= i,
        forall|j: int|
            0 <= j < old_queue.len()
                ==> ((#[trigger] old_queue[j] as int) < g.n()
                    && old_dist[old_queue[j] as int] is Some),
        forall|w: int|
            0 <= w < g.n() && (#[trigger] old_dist[w]) is Some
                ==> old_queue.contains(w as usize),
        old_queue.no_duplicates(),
        chain_ok(g, start, old_dist, old_pred),
        forall|j: int| 0 <= j < old_queue.len() ==> dv(#[trigger] old_dist[old_queue[j] as int]) <= j,
        forall|j1: int, j2: int|
            0 <= j1 <= j2 < old_queue.len()
                ==> dv(old_dist[#[trigger] old_queue[j1] as int])
                    <= dv(old_dist[#[trigger] old_queue[j2] as int]),
        dv(old_dist[old_queue[old_queue.len() - 1] as int]) <= du as int + 1,
        g.edge_between(u as int, v as int),
        old_dist[v as int] is None,
        new_dist == old_dist.update(v as int, Option::Some((du + 1) as usize)),
        new_pred == old_pred.update(v as int, Option::Some(u)),
        new_queue == old_queue.push(v),
        du as int + 1 <= usize::MAX,
    ensures
        new_dist.len() == g.n(),
        new_pred.len() == g.n(),
        new_dist[start] == Option::Some(0usize),
        new_pred[start] is None,
        i < new_queue.len() <= g.n(),
        new_queue[i] == u,
        new_dist[u as int] == Option::Some(du),
        forall|j: int|
            0 <= j < new_queue.len()
                ==> ((#[trigger] new_queue[j] as int) < g.n()
                    && new_dist[new_queue[j] as int] is Some),
        forall|w: int|
            0 <= w < g.n() && (#[trigger] new_dist[w]) is Some
                ==> new_queue.contains(w as usize),
        new_queue.no_duplicates(),
        chain_ok(g, start, new_dist, new_pred),
        forall|j: int| 0 <= j < new_queue.len() ==> dv(#[trigger] new_dist[new_queue[j] as int]) <= j,
        forall|j1: int, j2: int|
            0 <= j1 <= j2 < new_queue.len()
                ==> dv(new_dist[#[trigger] new_queue[j1] as int])
                    <= dv(new_dist[#[trigger] new_queue[j2] as int]),
        dv(new_dist[new_queue[new_queue.len() - 1] as int]) <= du as int + 1,
        forall|w: int|
            0 <= w < g.n() && (#[trigger] old_dist[w]) is Some ==> new_dist[w] == old_dist[w],
        forall|j: int| 0 <= j < old_queue.len() ==> new_queue[j] == old_queue[j],
        new_dist[v as int] == Option::Some((du + 1) as usize),
{
    let n = g.n();
    assert(!old_queue.contains(v)) by {
        if old_queue.contains(v) {
            let j = choose|j: int| 0 <= j < old_queue.len() && old_queue[j] == v;
            assert(old_dist[old_queue[j] as int] is Some);
        }
    }
    assert(new_queue.no_duplicates()) by {
        assert forall|m1: int, m2: int|
            0 <= m1 < new_queue.len() && 0 <= m2 < new_queue.len() && m1 != m2
                implies new_queue[m1] != new_queue[m2] by {
            if m1 == old_queue.len() {
                assert(new_queue[m2] == old_queue[m2]);
                assert(old_queue.contains(old_queue[m2]));
            } else if m2 == old_queue.len() {
                assert(new_queue[m1] == old_queue[m1]);
                assert(old_queue.contains(old_queue[m1]));
            }
        }
    }
    lemma_distinct_bounded_len(new_queue, n);
    crate::graph::lemma_push_contains(old_queue, v);
    assert(v as int != start);
    assert(chain_ok(g, start, new_dist, new_pred)) by {
        assert forall|w: int|
            0 <= w < new_dist.len() && w != start && (#[trigger] new_dist[w]) is Some
                implies {
                &&& 1 <= dv(new_dist[w])
                &&& new_pred[w] is Some
                &&& 0 <= dv(new_pred[w]) < new_dist.len()
                &&& new_dist[dv(new_pred[w])] is Some
                &&& dv(new_dist[dv(new_pred[w])]) == dv(new_dist[w]) - 1
                &&& g.edge_between(dv(new_pred[w]), w)
            } by {
            if w == v as int {
                assert(new_pred[w] == Option::Some(u));
                assert(new_dist[u as int] == Option::Some(du));
            } else {
                assert(new_dist[w] == old_dist[w]);
                assert(new_pred[w] == old_pred[w]);
                assert(old_dist[dv(old_pred[w])] is Some);
                assert(dv(old_pred[w]) != v as int);
                assert(new_dist[dv(new_pred[w])] == old_dist[dv(old_pred[w])]);
            }
        }
    }
    assert forall|j1: int, j2: int|
        0 <= j1 <= j2 < new_queue.len()
            implies dv(new_dist[#[trigger] new_queue[j1] as int])
                <= dv(new_dist[#[trigger] new_queue[j2] as int]) by {
        if j2 < old_queue.len() {
            assert(old_queue.contains(old_queue[j1]));
            assert(old_queue.contains(old_queue[j2]));
            assert(old_queue[j1] as int != v as int && old_queue[j2] as int != v as int);
        } else {
            assert(new_queue[j2] == v);
            assert(dv(new_dist[v as int]) == du as int + 1);
            if j1 < old_queue.len() {
                assert(old_queue.contains(old_queue[j1]));
                assert(dv(old_dist[old_queue[j1] as int])
                    <= dv(old_dist[old_queue[old_queue.len() - 1] as int]));
            }
        }
    }
    assert forall|j: int|
        0 <= j < new_queue.len()
            implies dv(#[trigger] new_dist[new_queue[j] as int]) <= j by {
        if j < old_queue.len() {
            assert(new_queue[j] == old_queue[j]);
            assert(old_queue.contains(old_queue[j]));
            assert(old_queue[j] as int != v as int);
        } else {
            assert(new_queue[j] == v);
        }
    }
}

/// At the end of the search every settled node was processed, so the state
/// is fully relaxed and the recorded distances are exact.
#[verifier::rlimit(60)]
pub proof fn lemma_search_exact(
    g: Graph,
    start: int,
    dist: Seq<Option<usize>>,
    pred: Seq<Option<usize>>,
    queue: Seq<usize>,
)
    requires
        g.wf(),
        g.n() <= usize::MAX,
        0 <= start < g.n(),
        dist.len() == g.n(),
        pred.len() == g.n(),
        dist[start] == Option::Some(0usize),
        chain_ok(g, start, dist, pred),
        forall|j: int|
            0 <= j < queue.len()
                ==> ((#[trigger] queue[j] as int) < g.n() && dist[queue[j] as int] is Some),
        forall|w: int|
            0 <= w < g.n() && (#[trigger] dist[w]) is Some ==> queue.contains(w as usize),
        forall|j: int, w: int|
            0 <= j < queue.len() && 0 <= w < g.n()
                && g.edge_between(#[trigger] queue[j] as int, w)
                ==> (#[trigger] dist[w]) is Some
                    && dv(dist[w]) <= dv(dist[queue[j] as int]) + 1,
    ensures
        distances_exact(g, start, dist),
{
    assert(relaxed(g, dist)) by {
        assert forall|x: int, w: int|
            0 <= x < dist.len() && 0 <= w < dist.len() && (#[trigger] dist[x]) is Some
                && g.edge_between(x, w)
                implies (#[trigger] dist[w]) is Some && dv(dist[w]) <= dv(dist[x]) + 1 by {
            assert(queue.contains(x as usize));
            let j = choose|j: int| 0 <= j < queue.len() && queue[j] == x as usize;
            assert(g.edge_between(queue[j] as int, w));
        }
    }
    assert forall|w: int|
        0 <= w < dist.len() && (#[trigger] dist[w]) is Some
            implies has_path(g, start, w, dv(dist[w]) as nat) by {
        lemma_chain_has_path(g, start, dist, pred, w);
    }
    assert forall|w: int, k: nat|
        0 <= w < dist.len() && #[trigger] has_path(g, start, w, k)
            implies dist[w] is Some && dv(dist[w]) <= k by {
        lemma_relaxed_min(g, start, dist, w, k);
    }
}

/// Breadth-first search over the whole component of `start`: all edges cost
/// one hop, every reachable node is settled at its exact least hop count,
/// and each settled node records the neighbor it was first reached from.
#[verifier::rlimit(60)]
pub fn shortest_path_search(g: &Graph, start: usize) -> (r: SearchResult)
    requires
        g.wf(),
        g.valid_node(start as int),
    ensures
        result_wf(*g, start as int, r),
        distances_exact(*g, start as int, r.dist@),
{
    let n = g.node_count();
    let mut dist: Vec<Option<usize>> = vec![Option::None; n];
    let mut pred: Vec<Option<usize>> = vec![Option::None; n];
    dist[start] = Option::Some(0);
    let mut queue: Vec<usize> = Vec::new();
    queue.push(start);
    let mut i: usize = 0;
    proof {
        assert(queue@[0] == start);
        assert(queue@.contains(start));
        assert forall|v: int|
            0 <= v < n as int && (#[trigger] dist@[v]) is Some
                implies queue@.contains(v as usize) by {
            if v != start as int {
                assert(dist@[v] is None);
            }
            assert(v == start as int);
        }
    }
    while i < queue.len()
        invariant
            g.wf(),
            n as int == g.n(),
            (start as int) < n as int,
            dist@.len() == n as int,
            pred@.len() == n as int,
            dist@[start as int] == Option::Some(0usize),
            pred@[start as int] is None,
            i as int <= queue@.len() <= n as int,
            forall|j: int|
                0 <= j < queue@.len()
                    ==> ((#[trigger] queue@[j] as int) < n as int
                        && dist@[queue@[j] as int] is Some),
            forall|v: int|
                0 <= v < n as int && (#[trigger] dist@[v]) is Some
                    ==> queue@.contains(v as usize),
            queue@.no_duplicates(),
            chain_ok(*g, start as int, dist@, pred@),
            forall|j: int| 0 <= j < queue@.len() ==> dv(#[trigger] dist@[queue@[j] as int]) <= j,
            forall|j1: int, j2: int|
                0 <= j1 <= j2 < queue@.len()
                    ==> dv(dist@[#[trigger] queue@[j1] as int]) <= dv(dist@[#[trigger] queue@[j2] as int]),
            (i as int) < queue@.len()
                ==> dv(dist@[queue@[queue@.len() - 1] as int]) <= dv(dist@[queue@[i as int] as int]) + 1,
            forall|j: int, v: int|
                0 <= j < i as int && 0 <= v < n as int
                    && g.edge_between(#[trigger] queue@[j] as int, v)
                    ==> (#[trigger] dist@[v]) is Some
                        && dv(dist@[v]) <= dv(dist@[queue@[j] as int]) + 1,
        decreases n as int - i as int,
    {
        let u = queue[i];
        let du = dist[u].unwrap();
        let deg = g.adj[u].len();
        let mut k: usize = 0;
        while k < deg
            invariant
                g.wf(),
                n as int == g.n(),
                (start as int) < n as int,
                u == queue@[i as int],
                (i as int) < queue@.len(),
                dist@[u as int] == Option::Some(du),
                du as int <= i as int,
                deg == g.adj@[u as int]@.len(),
                k as int <= deg as int,
                dist@.len() == n as int,
                pred@.len() == n as int,
                dist@[start as int] == Option::Some(0usize),
                pred@[start as int] is None,
                i as int <= queue@.len() <= n as int,
                forall|j: int|
                    0 <= j < queue@.len()
                        ==> ((#[trigger] queue@[j] as int) < n as int
                            && dist@[queue@[j] as int] is Some),
                forall|v: int|
                    0 <= v < n as int && (#[trigger] dist@[v]) is Some
                        ==> queue@.contains(v as usize),
                queue@.no_duplicates(),
                chain_ok(*g, start as int, dist@, pred@),
                forall|j: int| 0 <= j < queue@.len() ==> dv(#[trigger] dist@[queue@[j] as int]) <= j,
                forall|j1: int, j2: int|
                    0 <= j1 <= j2 < queue@.len()
                        ==> dv(dist@[#[trigger] queue@[j1] as int]) <= dv(dist@[#[trigger] queue@[j2] as int]),
                dv(dist@[queue@[queue@.len() - 1] as int]) <= du as int + 1,
                forall|j: int, v: int|
                    0 <= j < i as int && 0 <= v < n as int
                        && g.edge_between(#[trigger] queue@[j] as int, v)
                        ==> (#[trigger] dist@[v]) is Some
                            && dv(dist@[v]) <= dv(dist@[queue@[j] as int]) + 1,
                forall|m: int|
                    0 <= m < k as int
                        ==> (#[trigger] dist@[g.adj@[u as int]@[m] as int]) is Some
                            && dv(dist@[g.adj@[u as int]@[m] as int]) <= du as int + 1,
            decreases deg as int - k as int,
        {
            let v = g.adj[u][k];
            assert((v as int) < n as int);
            assert(g.edge_between(u as int, v as int)) by {
                assert(g.adj@[u as int]@[k as int] == v);
                assert(g.adj@[u as int]@.contains(v));
            }
            if dist[v].is_none() {
                let ghost old_dist = dist@;
                let ghost old_pred = pred@;
                let ghost old_queue = queue@;
                dist[v] = Option::Some(du + 1);
                pred[v] = Option::Some(u);
                queue.push(v);
                proof {
                    lemma_bfs_push(
                        *g,
                        start as int,
                        old_dist,
                        old_pred,
                        old_queue,
                        i as int,
                        u,
                        du,
                        v,
                        dist@,
                        pred@,
                        queue@,
                    );
                }
            }
            k = k + 1;
        }
        proof {
            assert forall|v: int|
                0 <= v < n as int && g.edge_between(u as int, v)
                    implies (#[trigger] dist@[v]) is Some
                        && dv(dist@[v]) <= dv(dist@[u as int]) + 1 by {
                let m = choose|m: int|
                    0 <= m < g.adj@[u as int]@.len() && g.adj@[u as int]@[m] == v as usize;
                assert(dist@[g.adj@[u as int]@[m] as int] is Some);
            }
        }
        i = i + 1;
        proof {
            if (i as int) < queue@.len() {
                assert(dv(dist@[queue@[i as int] as int]) >= du as int);
            }
        }
    }
    let r = SearchResult { dist, pred };
    proof {
        lemma_search_exact(*g, start as int, r.dist@, r.pred@, queue@);
    }
    r
}

} // verus!
