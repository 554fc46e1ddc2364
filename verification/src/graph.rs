//! Directed support graphs: the edge set of one letter of the automaton.
use vstd::prelude::*;

verus! {

/// A directed graph is a set of edges over the states `0..dim`.
#[derive(Debug)]
pub struct Graph {
    dim: usize,
    edges: Vec<(usize, usize)>,
}

impl View for Graph {
    type V = Seq<(usize, usize)>;

    closed spec fn view(&self) -> Seq<(usize, usize)> {
        self.edges@
    }
}

impl Clone for Graph {
    fn clone(&self) -> (r: Self)
        ensures
            r@ == self@,
            r.spec_dim() == self.spec_dim(),
    {
        let mut edges: Vec<(usize, usize)> = Vec::new();
        let mut i: usize = 0;
        while i < self.edges.len()
            invariant
                0 <= i <= self.edges@.len(),
                edges@ == self.edges@.take(i as int),
            decreases self.edges@.len() - i,
        {
            edges.push(self.edges[i]);
            proof {
                assert(self.edges@.take(i + 1) =~= self.edges@.take(i as int).push(
                    self.edges@[i as int],
                ));
            }
            i = i + 1;
        }
        proof {
            assert(self.edges@.take(self.edges@.len() as int) =~= self.edges@);
        }
        Graph { dim: self.dim, edges }
    }
}

impl Graph {
    pub closed spec fn spec_dim(&self) -> usize {
        self.dim
    }

    /// Whether the graph holds the edge `(i, j)`.
    pub open spec fn spec_has_edge(&self, i: usize, j: usize) -> bool {
        self@.contains((i, j))
    }

    /// All edges lie within `0..dim`.
    pub open spec fn edges_within(&self) -> bool {
        forall|k: int|
            0 <= k < self@.len() ==> (#[trigger] self@[k]).0 < self.spec_dim() && self@[k].1
                < self.spec_dim()
    }

    /// Create a graph from a list of edges; duplicates collapse.
    pub fn new(dim: usize, edge_list: &Vec<(usize, usize)>) -> (r: Graph)
        ensures
            r.spec_dim() == dim,
            r@.no_duplicates(),
            forall|e: (usize, usize)| r@.contains(e) <==> edge_list@.contains(e),
    {
        let mut edges: Vec<(usize, usize)> = Vec::new();
        let mut i: usize = 0;
        while i < edge_list.len()
            invariant
                0 <= i <= edge_list@.len(),
                edges@.no_duplicates(),
                forall|e: (usize, usize)| edges@.contains(e) <==> edge_list@.take(i as int).contains(e),
            decreases edge_list@.len() - i,
        {
            let e = edge_list[i];
            let ghost pre_edges = edges@;
            let dup = contains_pair(&edges, e);
            if !dup {
                edges.push(e);
            }
            proof {
                let pre = edge_list@.take(i as int);
                let post = edge_list@.take(i + 1);
                assert(post =~= pre.push(edge_list@[i as int]));
                assert forall|e2: (usize, usize)| edges@.contains(e2) <==> post.contains(e2) by {
                    if post.contains(e2) {
                        let k = choose|k: int| 0 <= k < post.len() && #[trigger] post[k] == e2;
                        if k < i {
                            assert(pre[k] == e2);
                            assert(pre.contains(e2));
                            assert(pre_edges.contains(e2));
                            if dup {
                            } else {
                                let k2 = choose|k2: int|
                                    0 <= k2 < pre_edges.len() && #[trigger] pre_edges[k2] == e2;
                                assert(edges@[k2] == e2);
                            }
                            assert(edges@.contains(e2));
                        } else {
                            assert(e2 == edge_list@[i as int]);
                            if dup {
                                assert(pre_edges.contains(e2));
                            } else {
                                assert(edges@[pre_edges.len() as int] == e2);
                            }
                            assert(edges@.contains(e2));
                        }
                    }
                    if edges@.contains(e2) {
                        let k = choose|k: int| 0 <= k < edges@.len() && #[trigger] edges@[k] == e2;
                        if k < pre_edges.len() {
                            assert(pre_edges[k] == e2);
                            assert(pre_edges.contains(e2));
                            assert(pre.contains(e2));
                            let k3 = choose|k3: int| 0 <= k3 < pre.len() && #[trigger] pre[k3] == e2;
                            assert(post[k3] == e2);
                        } else {
                            assert(e2 == edge_list@[i as int]);
                            assert(post[i as int] == e2);
                        }
                        assert(post.contains(e2));
                    }
                }
            }
            i = i + 1;
        }
        proof {
            assert(edge_list@.take(edge_list@.len() as int) =~= edge_list@);
        }
        Graph { dim, edges }
    }

    /// Create a graph from an owned list of edges.
    pub fn from_vec(dim: usize, vec: Vec<(usize, usize)>) -> (r: Graph)
        ensures
            r.spec_dim() == dim,
            r@.no_duplicates(),
            forall|e: (usize, usize)| r@.contains(e) <==> vec@.contains(e),
    {
        Graph::new(dim, &vec)
    }

    /// The edges of the graph.
    pub fn iter(&self) -> (r: &Vec<(usize, usize)>)
        ensures
            r@ == self@,
    {
        &self.edges
    }

    /// The distinct successors of a node.
    pub fn get_successors(&self, i: usize) -> (r: Vec<usize>)
        ensures
            r@.no_duplicates(),
            forall|j: usize| r@.contains(j) <==> self.spec_has_edge(i, j),
    {
        let mut r: Vec<usize> = Vec::new();
        let mut k: usize = 0;
        while k < self.edges.len()
            invariant
                0 <= k <= self@.len(),
                r@.no_duplicates(),
                forall|j: usize| r@.contains(j) <==> self@.take(k as int).contains((i, j)),
            decreases self@.len() - k,
        {
            let (i0, j0) = self.edges[k];
            let ghost pre_r = r@;
            let hit = i0 == i && !contains_usize(&r, j0);
            if hit {
                r.push(j0);
            }
            proof {
                let pre = self@.take(k as int);
                let post = self@.take(k + 1);
                assert(post =~= pre.push(self@[k as int]));
                assert forall|j: usize| r@.contains(j) <==> post.contains((i, j)) by {
                    if post.contains((i, j)) {
                        let m = choose|m: int| 0 <= m < post.len() && #[trigger] post[m] == (i, j);
                        if m < k {
                            assert(pre[m] == (i, j));
                            assert(pre.contains((i, j)));
                            assert(pre_r.contains(j));
                            let m2 = choose|m2: int|
                                0 <= m2 < pre_r.len() && #[trigger] pre_r[m2] == j;
                            assert(r@[m2] == j);
                        } else {
                            assert((i, j) == self@[k as int]);
                            if hit {
                                assert(r@[pre_r.len() as int] == j);
                            } else {
                                if i0 == i {
                                    assert(pre_r.contains(j0));
                                    let m2 = choose|m2: int|
                                        0 <= m2 < pre_r.len() && #[trigger] pre_r[m2] == j;
                                    assert(r@[m2] == j);
                                }
                            }
                        }
                        assert(r@.contains(j));
                    }
                    if r@.contains(j) {
                        let m = choose|m: int| 0 <= m < r@.len() && #[trigger] r@[m] == j;
                        if m < pre_r.len() {
                            assert(pre_r[m] == j);
                            assert(pre_r.contains(j));
                            assert(pre.contains((i, j)));
                            let m3 = choose|m3: int|
                                0 <= m3 < pre.len() && #[trigger] pre[m3] == (i, j);
                            assert(post[m3] == (i, j));
                        } else {
                            assert(j == j0 && i0 == i);
                            assert(post[k as int] == (i, j));
                        }
                        assert(post.contains((i, j)));
                    }
                }
            }
            k = k + 1;
        }
        proof {
            assert(self@.take(self@.len() as int) =~= self@);
        }
        r
    }

    pub fn dim(&self) -> (r: usize)
        ensures
            r == self.spec_dim(),
    {
        self.dim
    }
}

/// Linear membership test for an edge list.
pub fn contains_pair(v: &Vec<(usize, usize)>, e: (usize, usize)) -> (r: bool)
    ensures
        r == v@.contains(e),
{
    let mut i: usize = 0;
    while i < v.len()
        invariant
            0 <= i <= v@.len(),
            forall|j: int| 0 <= j < i ==> v@[j] != e,
        decreases v@.len() - i,
    {
        if v[i].0 == e.0 && v[i].1 == e.1 {
            return true;
        }
        i = i + 1;
    }
    false
}

/// Linear membership test for an index list.
pub fn contains_usize(v: &Vec<usize>, x: usize) -> (r: bool)
    ensures
        r == v@.contains(x),
{
    let mut i: usize = 0;
    while i < v.len()
        invariant
            0 <= i <= v@.len(),
            forall|j: int| 0 <= j < i ==> v@[j] != x,
        decreases v@.len() - i,
    {
        if v[i] == x {
            return true;
        }
        i = i + 1;
    }
    false
}

} // verus!
