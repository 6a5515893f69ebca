use vstd::prelude::*;

use crate::graph::Graph;
use crate::index::LabelIndex;
use crate::path::is_path_handles;
use crate::path::reconstruct_path;
use crate::search::dv;
use crate::search::has_path;
use crate::search::is_min_dist;
use crate::search::reachable;
use crate::search::shortest_path_search;

verus! {

/// Outcome of one shortest-path query.
pub enum QueryOutcome {
    /// The labels along a shortest path, start first.
    Found(Vec<String>),
    /// The start or end label names no known node.
    InvalidLabel,
    /// Both labels resolve, but no walk joins them.
    NoPath,
}

/// `hp` is a shortest walk from `s` to `t`: endpoints as given, every hop
/// an edge, and no walk has fewer hops.
pub open spec fn is_shortest_walk(g: Graph, s: int, t: int, hp: Seq<usize>) -> bool {
    &&& hp.len() >= 1
    &&& hp[0] as int == s
    &&& hp[hp.len() - 1] as int == t
    &&& forall|x: int| 0 <= x < hp.len() ==> (#[trigger] hp[x] as int) < g.n()
    &&& forall|x: int| 1 <= x < hp.len() ==> g.edge_between(hp[x - 1] as int, #[trigger] hp[x] as int)
    &&& is_min_dist(g, s, t, (hp.len() - 1) as nat)
}

/// `p` spells out the labels of the handle walk `hp`.
pub open spec fn labels_match(g: Graph, hp: Seq<usize>, p: Seq<String>) -> bool {
    &&& p.len() == hp.len()
    &&& forall|x: int| 0 <= x < hp.len() ==> (#[trigger] p[x])@ == g.labels@[hp[x] as int]@
}

/// Resolve the two labels and answer the query: the labels of a shortest
/// path when one exists, `NoPath` when the endpoints are known but not
/// joined by any walk, and `InvalidLabel` when a label is unknown.
pub fn run_query(g: &Graph, li: &LabelIndex, start_label: &String, end_label: &String) -> (r:
    QueryOutcome)
    requires
        g.wf(),
        li.handles_below(g.n()),
    ensures
        r is InvalidLabel <==> (li.lookup_spec(start_label@) is None || li.lookup_spec(
            end_label@,
        ) is None),
        (li.lookup_spec(start_label@) is Some && li.lookup_spec(end_label@) is Some) ==> {
            let s = dv(li.lookup_spec(start_label@));
            let t = dv(li.lookup_spec(end_label@));
            &&& (r is NoPath <==> !reachable(*g, s, t))
            &&& (r matches QueryOutcome::Found(p) ==> reachable(*g, s, t) && exists|hp: Seq<usize>|
                #[trigger] is_shortest_walk(*g, s, t, hp) && labels_match(*g, hp, p@))
        },
{
    let so = li.lookup(start_label);
    let eo = li.lookup(end_label);
    match (so, eo) {
        (Option::Some(s), Option::Some(t)) => {
            proof {
                crate::index::lemma_lookup_in_range(li.pairs@, start_label@);
                crate::index::lemma_lookup_in_range(li.pairs@, end_label@);
            }
            let sr = shortest_path_search(g, s);
            match reconstruct_path(g, &sr, s, t) {
                Option::Some(handles) => {
                    let p = g.labels_of(&handles);
                    proof {
                        let hp = handles@;
                        assert(is_path_handles(*g, sr, s as int, t as int, hp));
                        assert(has_path(*g, s as int, t as int, dv(sr.dist@[t as int]) as nat));
                        assert(hp[0] as int == s as int);
                        assert(is_min_dist(*g, s as int, t as int, (hp.len() - 1) as nat)) by {
                            assert(hp.len() - 1 == dv(sr.dist@[t as int]));
                            assert forall|k: nat| #[trigger] has_path(*g, s as int, t as int, k)
                                    implies (hp.len() - 1) as nat <= k by {
                                assert(sr.dist@[t as int] is Some && dv(sr.dist@[t as int]) <= k);
                            }
                        }
                        assert(is_shortest_walk(*g, s as int, t as int, hp));
                        assert(labels_match(*g, hp, p@));
                        assert(dv(li.lookup_spec(start_label@)) == s as int);
                        assert(dv(li.lookup_spec(end_label@)) == t as int);
                        assert(is_shortest_walk(
                            *g,
                            dv(li.lookup_spec(start_label@)),
                            dv(li.lookup_spec(end_label@)),
                            hp,
                        ));
                        assert(reachable(
                            *g,
                            dv(li.lookup_spec(start_label@)),
                            dv(li.lookup_spec(end_label@)),
                        ));
                    }
                    QueryOutcome::Found(p)
                },
                Option::None => {
                    proof {
                        if reachable(*g, s as int, t as int) {
                            let k = choose|k: nat| has_path(*g, s as int, t as int, k);
                            assert(sr.dist@[t as int] is Some);
                        }
                        assert(!reachable(
                            *g,
                            dv(li.lookup_spec(start_label@)),
                            dv(li.lookup_spec(end_label@)),
                        ));
                    }
                    QueryOutcome::NoPath
                },
            }
        },
        _ => QueryOutcome::InvalidLabel,
    }
}

} // verus!
