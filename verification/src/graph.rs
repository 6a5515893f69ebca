use vstd::prelude::*;

verus! {

/// A labeled undirected graph. A node handle is an index into `labels`;
/// adjacency lists are kept symmetric, so stepping across an edge works
/// from either endpoint.
pub struct Graph {
    /// Display label of each node; a node's handle is its index here.
    pub labels: Vec<String>,
    /// Adjacency lists over node handles, kept symmetric.
    pub adj: Vec<Vec<usize>>,
    /// Edge records `(a, b, label)`, kept for diagnostics only.
    pub edges: Vec<(usize, usize, String)>,
}

impl Graph {
    /// Number of nodes.
    pub open spec fn n(&self) -> int {
        self.labels@.len() as int
    }

    pub open spec fn valid_node(&self, v: int) -> bool {
        0 <= v < self.n()
    }

    /// There is an undirected edge between `a` and `b`.
    pub open spec fn edge_between(&self, a: int, b: int) -> bool {
        &&& self.valid_node(a)
        &&& self.valid_node(b)
        &&& self.adj@[a]@.contains(b as usize)
    }

    /// Well-formedness: adjacency matches the node set, every stored handle
    /// is a real node, and adjacency is symmetric.
    pub open spec fn wf(&self) -> bool {
        &&& self.adj@.len() == self.labels@.len()
        &&& forall|a: int, j: int|
            0 <= a < self.n() && 0 <= j < self.adj@[a]@.len()
                ==> (#[trigger] self.adj@[a]@[j] as int) < self.n()
        &&& forall|a: int, b: int| #[trigger] self.edge_between(a, b) ==> self.edge_between(b, a)
        &&& forall|e: int|
            0 <= e < self.edges@.len()
                ==> ((#[trigger] self.edges@[e]).0 as int) < self.n()
                    && (self.edges@[e].1 as int) < self.n()
    }

    /// Traversal over an edge is symmetric: an edge that can be crossed from
    /// `a` to `b` can be crossed from `b` to `a`.
    pub proof fn lemma_edge_symmetric(&self, a: int, b: int)
        requires
            self.wf(),
            self.edge_between(a, b),
        ensures
            self.edge_between(b, a),
    {
    }

    pub fn new() -> (g: Graph)
        ensures
            g.wf(),
            g.n() == 0,
            g.edges@.len() == 0,
            forall|a: int, b: int| !g.edge_between(a, b),
    {
        Graph { labels: Vec::new(), adj: Vec::new(), edges: Vec::new() }
    }

    pub fn node_count(&self) -> (c: usize)
        ensures
            c as int == self.n(),
    {
        self.labels.len()
    }

    /// Insert a fresh node carrying `label`; its handle is the old node count.
    /// No edge is created or destroyed.
    pub fn add_node(&mut self, label: String) -> (h: usize)
        requires
            old(self).wf(),
        ensures
            final(self).wf(),
            h as int == old(self).n(),
            final(self).n() == old(self).n() + 1,
            final(self).labels@ == old(self).labels@.push(label),
            final(self).edges@ == old(self).edges@,
            forall|a: int, b: int|
                final(self).edge_between(a, b) <==> old(self).edge_between(a, b),
    {
        let h = self.labels.len();
        self.labels.push(label);
        self.adj.push(Vec::new());
        proof {
            assert forall|a: int, b: int|
                self.edge_between(a, b) <==> old(self).edge_between(a, b) by {
                if self.edge_between(a, b) {
                    if a == h as int {
                        assert(self.adj@[a]@.len() == 0);
                        assert(!self.adj@[a]@.contains(b as usize));
                    } else {
                        assert(self.adj@[a] == old(self).adj@[a]);
                        if b == h as int {
                            let j = choose|j: int|
                                0 <= j < old(self).adj@[a]@.len()
                                    && old(self).adj@[a]@[j] == b as usize;
                            assert((old(self).adj@[a]@[j] as int) < old(self).n());
                            assert(false);
                        }
                    }
                }
                if old(self).edge_between(a, b) {
                    assert(self.adj@[a] == old(self).adj@[a]);
                }
            }
        }
        h
    }

    /// Insert an undirected edge between existing nodes `a` and `b` with a
    /// diagnostic label. Exactly the pair `{a, b}` becomes connected beyond
    /// what already was.
    pub fn add_edge(&mut self, a: usize, b: usize, label: String)
        requires
            old(self).wf(),
            old(self).valid_node(a as int),
            old(self).valid_node(b as int),
        ensures
            final(self).wf(),
            final(self).n() == old(self).n(),
            final(self).labels@ == old(self).labels@,
            final(self).edges@ == old(self).edges@.push((a, b, label)),
            forall|x: int, y: int|
                final(self).edge_between(x, y)
                    <==> old(self).edge_between(x, y)
                        || (x == a as int && y == b as int)
                        || (x == b as int && y == a as int),
    {
        // pins the node count below usize::MAX for the casts in the proof
        let nn = self.labels.len();
        let ghost old_self = *self;
        self.adj[a].push(b);
        let ghost mid_self = *self;
        self.adj[b].push(a);
        self.edges.push((a, b, label));
        proof {
            let n = old_self.labels@.len() as int;
            assert(n == nn as int);
            assert(self.labels@ == old_self.labels@);
            assert(self.adj@.len() == old_self.adj@.len());
            assert(self.adj@[b as int]@ == mid_self.adj@[b as int]@.push(a));
            assert(mid_self.adj@[a as int]@ == old_self.adj@[a as int]@.push(b));
            assert forall|x: int, y: int| #![trigger self.edge_between(x, y)]
                self.edge_between(x, y)
                    <==> old_self.edge_between(x, y)
                        || (x == a as int && y == b as int)
                        || (x == b as int && y == a as int) by {
                if 0 <= x < n && 0 <= y < n {
                    let yu = y as usize;
                    lemma_push_contains(old_self.adj@[a as int]@, b);
                    lemma_push_contains(mid_self.adj@[b as int]@, a);
                    if x == b as int {
                        assert(self.adj@[x]@.contains(yu)
                            <==> mid_self.adj@[x]@.contains(yu) || yu == a);
                        if x == a as int {
                            assert(mid_self.adj@[x]@.contains(yu)
                                <==> old_self.adj@[x]@.contains(yu) || yu == b);
                        } else {
                            assert(mid_self.adj@[x] == old_self.adj@[x]);
                        }
                    } else if x == a as int {
                        assert(self.adj@[x] == mid_self.adj@[x]);
                        assert(mid_self.adj@[x]@.contains(yu)
                            <==> old_self.adj@[x]@.contains(yu) || yu == b);
                    } else {
                        assert(self.adj@[x] == old_self.adj@[x]);
                    }
                    assert(yu == a <==> y == a as int);
                    assert(yu == b <==> y == b as int);
                }
            }
            assert forall|x: int, j: int|
                0 <= x < self.n() && 0 <= j < self.adj@[x]@.len()
                    implies (#[trigger] self.adj@[x]@[j] as int) < self.n() by {
                if x != a as int && x != b as int {
                    assert(self.adj@[x] == old_self.adj@[x]);
                } else {
                    lemma_push_contains(old_self.adj@[a as int]@, b);
                    lemma_push_contains(mid_self.adj@[b as int]@, a);
                    let v = self.adj@[x]@[j];
                    assert(self.adj@[x]@.contains(v));
                    if x == b as int {
                        if mid_self.adj@[x]@.contains(v) {
                            if x == a as int {
                                if old_self.adj@[x]@.contains(v) {
                                    let m = choose|m: int|
                                        0 <= m < old_self.adj@[x]@.len()
                                            && old_self.adj@[x]@[m] == v;
                                    assert((old_self.adj@[x]@[m] as int) < n);
                                }
                            } else {
                                assert(mid_self.adj@[x] == old_self.adj@[x]);
                                let m = choose|m: int|
                                    0 <= m < old_self.adj@[x]@.len()
                                        && old_self.adj@[x]@[m] == v;
                                assert((old_self.adj@[x]@[m] as int) < n);
                            }
                        }
                    } else {
                        assert(self.adj@[x] == mid_self.adj@[x]);
                        if old_self.adj@[x]@.contains(v) {
                            let m = choose|m: int|
                                0 <= m < old_self.adj@[x]@.len()
                                    && old_self.adj@[x]@[m] == v;
                            assert((old_self.adj@[x]@[m] as int) < n);
                        }
                    }
                }
            }
            assert forall|x: int, y: int| #[trigger] self.edge_between(x, y)
                    implies self.edge_between(y, x) by {
                assert(self.edge_between(y, x)
                    <==> old_self.edge_between(y, x)
                        || (y == a as int && x == b as int)
                        || (y == b as int && x == a as int));
                assert(old_self.edge_between(x, y) ==> old_self.edge_between(y, x));
            }
        }
    }

    /// Labels of the given node handles, in order.
    pub fn labels_of(&self, p: &Vec<usize>) -> (ls: Vec<String>)
        requires
            forall|x: int| 0 <= x < p@.len() ==> (#[trigger] p@[x] as int) < self.n(),
        ensures
            ls@.len() == p@.len(),
            forall|x: int|
                0 <= x < p@.len() ==> (#[trigger] ls@[x])@ == self.labels@[p@[x] as int]@,
    {
        let mut ls: Vec<String> = Vec::new();
        let mut i: usize = 0;
        while i < p.len()
            invariant
                i <= p@.len(),
                ls@.len() == i as int,
                forall|x: int| 0 <= x < p@.len() ==> (#[trigger] p@[x] as int) < self.n(),
                forall|x: int|
                    0 <= x < i as int ==> (#[trigger] ls@[x])@ == self.labels@[p@[x] as int]@,
            decreases p@.len() - i as int,
        {
            ls.push(self.labels[p[i]].clone());
            i = i + 1;
        }
        ls
    }
}

/// Membership in a sequence after a push: exactly the old members plus the
/// pushed value.
pub proof fn lemma_push_contains(s: Seq<usize>, v: usize)
    ensures
        forall|x: usize| #[trigger] s.push(v).contains(x) <==> s.contains(x) || x == v,
{
    assert forall|x: usize| #[trigger] s.push(v).contains(x) <==> s.contains(x) || x == v by {
        if s.push(v).contains(x) {
            let j = choose|j: int| 0 <= j < s.push(v).len() && s.push(v)[j] == x;
            if j < s.len() {
                assert(s[j] == x);
            }
        }
        if s.contains(x) {
            let j = choose|j: int| 0 <= j < s.len() && s[j] == x;
            assert(s.push(v)[j] == x);
        }
        assert(s.push(v)[s.len() as int] == v);
    }
}

} // verus!
