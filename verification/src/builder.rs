use vstd::prelude::*;

use crate::graph::Graph;
use crate::index::LabelIndex;
use crate::index::lookup_in;
use crate::parse::EdgeRecord;
use crate::parse::NodeRecord;

verus! {

/// The handle a node key resolves to: the position of the last record
/// carrying that key (duplicate keys overwrite, last wins).
pub open spec fn key_resolve(nodes: Seq<NodeRecord>, key: Seq<char>) -> Option<int>
    decreases nodes.len(),
{
    if nodes.len() == 0 {
        Option::None
    } else if nodes.last().key@ == key {
        Option::Some(nodes.len() - 1)
    } else {
        key_resolve(nodes.drop_last(), key)
    }
}

/// The resolved handle as an integer; `-1` stands for "unknown key".
pub open spec fn rv(o: Option<int>) -> int {
    match o {
        Option::Some(v) => v,
        Option::None => -1,
    }
}

/// Both endpoint keys of an edge record name known nodes.
pub open spec fn edge_resolvable(nodes: Seq<NodeRecord>, e: EdgeRecord) -> bool {
    key_resolve(nodes, e.key1@) is Some && key_resolve(nodes, e.key2@) is Some
}

pub proof fn lemma_key_resolve_range(nodes: Seq<NodeRecord>, key: Seq<char>)
    ensures
        key_resolve(nodes, key) is Some ==> 0 <= rv(key_resolve(nodes, key)) < nodes.len(),
    decreases nodes.len(),
{
    if nodes.len() == 0 {
    } else if nodes.last().key@ == key {
    } else {
        lemma_key_resolve_range(nodes.drop_last(), key);
    }
}

/// A key index whose pairs are `(nodes[m].key, m)` resolves exactly as
/// `key_resolve` over the records does.
pub proof fn lemma_key_index_resolves(
    pairs: Seq<(String, usize)>,
    nodes: Seq<NodeRecord>,
    key: Seq<char>,
)
    requires
        pairs.len() == nodes.len(),
        forall|m: int|
            0 <= m < pairs.len()
                ==> ((#[trigger] pairs[m]).0@ == nodes[m].key@ && pairs[m].1 as int == m),
    ensures
        match (lookup_in(pairs, key), key_resolve(nodes, key)) {
            (Option::None, Option::None) => true,
            (Option::Some(h), Option::Some(i)) => h as int == i,
            _ => false,
        },
    decreases pairs.len(),
{
    if pairs.len() == 0 {
    } else if pairs.last().0@ == key {
        assert(pairs[pairs.len() - 1].1 as int == pairs.len() - 1);
    } else {
        assert forall|m: int|
            0 <= m < pairs.drop_last().len()
                implies ((#[trigger] pairs.drop_last()[m]).0@ == nodes.drop_last()[m].key@
                    && pairs.drop_last()[m].1 as int == m) by {
            assert(pairs.drop_last()[m] == pairs[m]);
            assert(nodes.drop_last()[m] == nodes[m]);
        }
        lemma_key_index_resolves(pairs.drop_last(), nodes.drop_last(), key);
    }
}

/// With pairwise-distinct keys, each record's key resolves to the record's
/// own position.
pub proof fn lemma_unique_key_resolve(nodes: Seq<NodeRecord>, i: int)
    requires
        forall|m1: int, m2: int|
            0 <= m1 < m2 < nodes.len()
                ==> (#[trigger] nodes[m1]).key@ != (#[trigger] nodes[m2]).key@,
        0 <= i < nodes.len(),
    ensures
        key_resolve(nodes, nodes[i].key@) == Option::Some(i),
    decreases nodes.len(),
{
    if i == nodes.len() - 1 {
    } else {
        assert(nodes.last().key@ != nodes[i].key@);
        assert forall|m1: int, m2: int|
            0 <= m1 < m2 < nodes.drop_last().len()
                implies (#[trigger] nodes.drop_last()[m1]).key@
                    != (#[trigger] nodes.drop_last()[m2]).key@ by {
            assert(nodes.drop_last()[m1] == nodes[m1]);
            assert(nodes.drop_last()[m2] == nodes[m2]);
        }
        lemma_unique_key_resolve(nodes.drop_last(), i);
    }
}

/// When node keys and labels are pairwise distinct, each record's key and
/// its label both resolve to the same handle: the record's own position in
/// the node file.
pub proof fn lemma_unique_records_one_handle(nodes: Seq<NodeRecord>, li: LabelIndex, i: int)
    requires
        li.pairs@.len() == nodes.len(),
        forall|m: int|
            0 <= m < nodes.len()
                ==> ((#[trigger] li.pairs@[m]).0@ == nodes[m].label@
                    && li.pairs@[m].1 as int == m),
        forall|m1: int, m2: int|
            0 <= m1 < m2 < nodes.len()
                ==> (#[trigger] nodes[m1]).key@ != (#[trigger] nodes[m2]).key@,
        forall|m1: int, m2: int|
            0 <= m1 < m2 < nodes.len()
                ==> (#[trigger] nodes[m1]).label@ != (#[trigger] nodes[m2]).label@,
        0 <= i < nodes.len(),
    ensures
        key_resolve(nodes, nodes[i].key@) == Option::Some(i),
        lookup_in(li.pairs@, nodes[i].label@) == Option::Some(li.pairs@[i].1),
        li.pairs@[i].1 as int == i,
{
    lemma_unique_key_resolve(nodes, i);
    assert forall|m1: int, m2: int|
        0 <= m1 < m2 < li.pairs@.len()
            implies (#[trigger] li.pairs@[m1]).0@ != (#[trigger] li.pairs@[m2]).0@ by {
        assert(li.pairs@[m1].0@ == nodes[m1].label@);
        assert(li.pairs@[m2].0@ == nodes[m2].label@);
    }
    crate::index::lemma_unique_lookup(li.pairs@, i);
}

/// Build the labeled graph and the label index from parsed records: one
/// node per node record in file order, then one undirected edge per edge
/// record whose two keys resolve; edges with an unknown key are skipped.
pub fn build_graph(node_recs: &Vec<NodeRecord>, edge_recs: &Vec<EdgeRecord>) -> (res: (
    Graph,
    LabelIndex,
    Vec<usize>,
))
    ensures
        res.0.wf(),
        res.0.n() == node_recs@.len(),
        forall|x: int|
            0 <= x < res.0.n() ==> (#[trigger] res.0.labels@[x])@ == node_recs@[x].label@,
        res.1.pairs@.len() == node_recs@.len(),
        forall|m: int|
            0 <= m < res.1.pairs@.len()
                ==> ((#[trigger] res.1.pairs@[m]).0@ == node_recs@[m].label@
                    && res.1.pairs@[m].1 as int == m),
        res.1.handles_below(res.0.n()),
        forall|j: int|
            0 <= j < edge_recs@.len() && edge_resolvable(node_recs@, #[trigger] edge_recs@[j])
                ==> res.0.edge_between(
                    rv(key_resolve(node_recs@, edge_recs@[j].key1@)),
                    rv(key_resolve(node_recs@, edge_recs@[j].key2@)),
                ),
        forall|a: int, b: int|
            #[trigger] res.0.edge_between(a, b) ==> exists|j: int|
                0 <= j < edge_recs@.len() && edge_resolvable(node_recs@, #[trigger] edge_recs@[j])
                    && ((rv(key_resolve(node_recs@, edge_recs@[j].key1@)) == a && rv(
                    key_resolve(node_recs@, edge_recs@[j].key2@),
                ) == b) || (rv(key_resolve(node_recs@, edge_recs@[j].key1@)) == b && rv(
                    key_resolve(node_recs@, edge_recs@[j].key2@),
                ) == a)),
        forall|m: int|
            0 <= m < res.2@.len()
                ==> ((#[trigger] res.2@[m] as int) < edge_recs@.len() && !edge_resolvable(
                    node_recs@,
                    edge_recs@[res.2@[m] as int],
                )),
        forall|j: int|
            0 <= j < edge_recs@.len() && !edge_resolvable(node_recs@, #[trigger] edge_recs@[j])
                ==> res.2@.contains(j as usize),
{
    let mut g = Graph::new();
    let mut key_idx = LabelIndex::new();
    let mut li = LabelIndex::new();
    let mut i: usize = 0;
    while i < node_recs.len()
        invariant
            g.wf(),
            g.n() == i as int,
            i as int <= node_recs@.len(),
            forall|x: int| 0 <= x < i as int ==> (#[trigger] g.labels@[x])@ == node_recs@[x].label@,
            key_idx.pairs@.len() == i as int,
            forall|m: int|
                0 <= m < i as int
                    ==> ((#[trigger] key_idx.pairs@[m]).0@ == node_recs@[m].key@
                        && key_idx.pairs@[m].1 as int == m),
            li.pairs@.len() == i as int,
            forall|m: int|
                0 <= m < i as int
                    ==> ((#[trigger] li.pairs@[m]).0@ == node_recs@[m].label@
                        && li.pairs@[m].1 as int == m),
            forall|a: int, b: int| !g.edge_between(a, b),
        decreases node_recs@.len() - i as int,
    {
        let rec: &NodeRecord = &node_recs[i];
        let h = g.add_node(rec.label.clone());
        key_idx.insert(rec.key.clone(), h);
        li.insert(rec.label.clone(), h);
        i = i + 1;
    }
    let ghost nrecs = node_recs@;
    let mut skipped: Vec<usize> = Vec::new();
    let mut j: usize = 0;
    while j < edge_recs.len()
        invariant
            g.wf(),
            g.n() == nrecs.len(),
            nrecs == node_recs@,
            j as int <= edge_recs@.len(),
            forall|x: int| 0 <= x < g.n() ==> (#[trigger] g.labels@[x])@ == nrecs[x].label@,
            key_idx.pairs@.len() == nrecs.len(),
            forall|m: int|
                0 <= m < key_idx.pairs@.len()
                    ==> ((#[trigger] key_idx.pairs@[m]).0@ == nrecs[m].key@
                        && key_idx.pairs@[m].1 as int == m),
            li.pairs@.len() == nrecs.len(),
            forall|m: int|
                0 <= m < li.pairs@.len()
                    ==> ((#[trigger] li.pairs@[m]).0@ == nrecs[m].label@
                        && li.pairs@[m].1 as int == m),
            forall|jj: int|
                0 <= jj < j as int && edge_resolvable(nrecs, #[trigger] edge_recs@[jj])
                    ==> g.edge_between(
                        rv(key_resolve(nrecs, edge_recs@[jj].key1@)),
                        rv(key_resolve(nrecs, edge_recs@[jj].key2@)),
                    ),
            forall|a: int, b: int|
                #[trigger] g.edge_between(a, b) ==> exists|jj: int|
                    0 <= jj < j as int && edge_resolvable(nrecs, #[trigger] edge_recs@[jj]) && ((rv(
                        key_resolve(nrecs, edge_recs@[jj].key1@),
                    ) == a && rv(key_resolve(nrecs, edge_recs@[jj].key2@)) == b) || (rv(
                        key_resolve(nrecs, edge_recs@[jj].key1@),
                    ) == b && rv(key_resolve(nrecs, edge_recs@[jj].key2@)) == a)),
            forall|m: int|
                0 <= m < skipped@.len()
                    ==> ((#[trigger] skipped@[m] as int) < j as int && !edge_resolvable(
                        nrecs,
                        edge_recs@[skipped@[m] as int],
                    )),
            forall|jj: int|
                0 <= jj < j as int && !edge_resolvable(nrecs, #[trigger] edge_recs@[jj])
                    ==> skipped@.contains(jj as usize),
        decreases edge_recs@.len() - j as int,
    {
        let e: &EdgeRecord = &edge_recs[j];
        let r1 = key_idx.lookup(&e.key1);
        let r2 = key_idx.lookup(&e.key2);
        proof {
            lemma_key_index_resolves(key_idx.pairs@, nrecs, e.key1@);
            lemma_key_index_resolves(key_idx.pairs@, nrecs, e.key2@);
            lemma_key_resolve_range(nrecs, e.key1@);
            lemma_key_resolve_range(nrecs, e.key2@);
        }
        match (r1, r2) {
            (Option::Some(a), Option::Some(b)) => {
                let ghost old_g = g;
                g.add_edge(a, b, e.label.clone());
                proof {
                    assert forall|x: int, y: int| #[trigger] g.edge_between(x, y)
                            implies exists|jj: int|
                            0 <= jj < j as int + 1 && edge_resolvable(
                                nrecs,
                                #[trigger] edge_recs@[jj],
                            ) && ((rv(key_resolve(nrecs, edge_recs@[jj].key1@)) == x && rv(
                                key_resolve(nrecs, edge_recs@[jj].key2@),
                            ) == y) || (rv(key_resolve(nrecs, edge_recs@[jj].key1@)) == y && rv(
                                key_resolve(nrecs, edge_recs@[jj].key2@),
                            ) == x)) by {
                        if old_g.edge_between(x, y) {
                            let jj = choose|jj: int|
                                0 <= jj < j as int && edge_resolvable(
                                    nrecs,
                                    #[trigger] edge_recs@[jj],
                                ) && ((rv(key_resolve(nrecs, edge_recs@[jj].key1@)) == x && rv(
                                    key_resolve(nrecs, edge_recs@[jj].key2@),
                                ) == y) || (rv(key_resolve(nrecs, edge_recs@[jj].key1@)) == y
                                    && rv(key_resolve(nrecs, edge_recs@[jj].key2@)) == x));
                            assert(0 <= jj < j as int + 1 && edge_resolvable(
                                nrecs,
                                edge_recs@[jj],
                            ));
                        } else {
                            assert(edge_resolvable(nrecs, edge_recs@[j as int]));
                            assert(rv(key_resolve(nrecs, edge_recs@[j as int].key1@)) == a as int);
                            assert(rv(key_resolve(nrecs, edge_recs@[j as int].key2@)) == b as int);
                        }
                    }
                }
            },
            _ => {
                let ghost old_skipped = skipped@;
                skipped.push(j);
                proof {
                    crate::graph::lemma_push_contains(old_skipped, j);
                }
            },
        }
        j = j + 1;
    }
    (g, li, skipped)
}

} // verus!
