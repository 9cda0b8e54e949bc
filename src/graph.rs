use vstd::prelude::*;

verus! {

/// A directed edge: source, destination and cost.
pub type Edge = (u64, u64, u64);

/// `v` occurs in `edges` as a source or as a destination.
pub open spec fn is_endpoint(edges: Seq<Edge>, v: u64) -> bool {
    exists|k: int| #![trigger edges[k]] 0 <= k < edges.len() && (edges[k].0 == v || edges[k].1 == v)
}

/// The outgoing edges of `v` as (destination, cost) pairs, in edge-list order.
pub open spec fn out_edges(edges: Seq<Edge>, v: u64) -> Seq<(u64, u64)>
    decreases edges.len(),
{
    if edges.len() == 0 {
        Seq::empty()
    } else {
        let rest = out_edges(edges.drop_last(), v);
        let e = edges.last();
        if e.0 == v {
            rest.push((e.1, e.2))
        } else {
            rest
        }
    }
}

/// A weighted directed multigraph built once from an edge list.
pub struct Graph {
    nodes: Vec<u64>,
    edges: Vec<Edge>,
}

impl View for Graph {
    type V = Seq<Edge>;

    /// The edge list the graph was built from, parallel edges included.
    closed spec fn view(&self) -> Seq<Edge> {
        self.edges@
    }
}

/// Position of `v` in `s`, if it occurs there.
fn index_in(s: &Vec<u64>, v: u64) -> (r: Option<usize>)
    ensures
        match r {
            Some(i) => i < s@.len() && s@[i as int] == v,
            None => !s@.contains(v),
        },
{
    let mut i: usize = 0;
    while i < s.len()
        invariant
            i <= s@.len(),
            forall|x: int| 0 <= x < i ==> s@[x] != v,
        decreases s@.len() - i,
    {
        if s[i] == v {
            return Some(i);
        }
        i = i + 1;
    }
    None
}

impl Graph {
    /// The distinct nodes of the graph.
    pub closed spec fn node_seq(&self) -> Seq<u64> {
        self.nodes@
    }

    /// The node list is duplicate-free and holds exactly the edges' endpoints.
    pub closed spec fn wf(&self) -> bool {
        &&& self.nodes@.no_duplicates()
        &&& forall|i: int| 0 <= i < self.nodes@.len() ==> is_endpoint(self.edges@, #[trigger] self.nodes@[i])
        &&& forall|k: int|
            0 <= k < self.edges@.len() ==> self.nodes@.contains(#[trigger] self.edges@[k].0)
                && self.nodes@.contains(self.edges@[k].1)
    }

    pub proof fn lemma_wf(&self)
        requires
            self.wf(),
        ensures
            self.node_seq().no_duplicates(),
            forall|i: int|
                0 <= i < self.node_seq().len() ==> is_endpoint(self@, #[trigger] self.node_seq()[i]),
            forall|k: int|
                0 <= k < self@.len() ==> self.node_seq().contains(#[trigger] self@[k].0)
                    && self.node_seq().contains(self@[k].1),
    {
    }

    /// Builds the graph; every edge is kept, parallel ones included.
    pub fn from_edge_list(edges: &Vec<Edge>) -> (g: Graph)
        ensures
            g.wf(),
            g@ == edges@,
    {
        let mut nodes: Vec<u64> = Vec::new();
        let mut kept: Vec<Edge> = Vec::new();
        let mut k: usize = 0;
        while k < edges.len()
            invariant
                k <= edges@.len(),
                kept@ == edges@.subrange(0, k as int),
                nodes@.no_duplicates(),
                forall|i: int| 0 <= i < nodes@.len() ==> is_endpoint(kept@, #[trigger] nodes@[i]),
                forall|x: int|
                    0 <= x < kept@.len() ==> nodes@.contains(#[trigger] kept@[x].0)
                        && nodes@.contains(kept@[x].1),
            decreases edges@.len() - k,
        {
            let e = edges[k];
            let ghost prev = kept@;
            let ghost nodes0 = nodes@;
            kept.push(e);
            assert(kept@[k as int] == e);
            assert forall|i: int| 0 <= i < nodes@.len() implies is_endpoint(kept@, #[trigger] nodes@[i]) by {
                let x = choose|x: int| #![trigger prev[x]] 0 <= x < prev.len() && (prev[x].0 == nodes@[i] || prev[x].1 == nodes@[i]);
                assert(kept@[x] == prev[x]);
            }
            match index_in(&nodes, e.0) {
                Some(i) => {
                    assert(nodes@[i as int] == e.0);
                },
                None => {
                    nodes.push(e.0);
                    assert(is_endpoint(kept@, e.0)) by { assert(kept@[k as int].0 == e.0); }
                    assert(nodes@[nodes@.len() - 1] == e.0);
                },
            }
            assert(nodes@.contains(e.0));
            assert(forall|y: int| 0 <= y < nodes0.len() ==> nodes@[y] == nodes0[y]);
            let ghost nodes1 = nodes@;
            match index_in(&nodes, e.1) {
                Some(i) => {
                    assert(nodes@[i as int] == e.1);
                },
                None => {
                    nodes.push(e.1);
                    assert(is_endpoint(kept@, e.1)) by { assert(kept@[k as int].1 == e.1); }
                    assert(nodes@[nodes@.len() - 1] == e.1);
                },
            }
            assert(nodes@.contains(e.1));
            assert(forall|y: int| 0 <= y < nodes1.len() ==> nodes@[y] == nodes1[y]);
            assert(nodes@.contains(e.0)) by {
                let y = choose|y: int| 0 <= y < nodes1.len() && nodes1[y] == e.0;
                assert(nodes@[y] == nodes1[y]);
            }
            assert forall|x: int| 0 <= x < kept@.len() implies nodes@.contains(#[trigger] kept@[x].0)
                && nodes@.contains(kept@[x].1) by {
                if x < k {
                    assert(kept@[x] == prev[x]);
                    let y0 = choose|y: int| 0 <= y < nodes0.len() && nodes0[y] == prev[x].0;
                    assert(nodes@[y0] == nodes1[y0]);
                    let y1 = choose|y: int| 0 <= y < nodes0.len() && nodes0[y] == prev[x].1;
                    assert(nodes@[y1] == nodes1[y1]);
                }
            }
            k = k + 1;
        }
        assert(kept@ =~= edges@);
        Graph { nodes, edges: kept }
    }

    /// The outgoing (destination, cost) pairs of `node`; empty when it has none.
    pub fn neighbors(&self, node: u64) -> (r: Vec<(u64, u64)>)
        ensures
            r@ == out_edges(self@, node),
    {
        let mut r: Vec<(u64, u64)> = Vec::new();
        let mut k: usize = 0;
        while k < self.edges.len()
            invariant
                k <= self.edges@.len(),
                r@ == out_edges(self.edges@.subrange(0, k as int), node),
            decreases self.edges@.len() - k,
        {
            let e = self.edges[k];
            proof {
                let next = self.edges@.subrange(0, k + 1);
                assert(next.drop_last() =~= self.edges@.subrange(0, k as int));
                assert(next.last() == e);
            }
            if e.0 == node {
                r.push((e.1, e.2));
            }
            k = k + 1;
        }
        assert(self.edges@.subrange(0, k as int) =~= self.edges@);
        r
    }

    pub fn node_count(&self) -> (r: usize)
        ensures
            r == self.node_seq().len(),
    {
        self.nodes.len()
    }

    pub fn node_at(&self, i: usize) -> (r: u64)
        requires
            i < self.node_seq().len(),
        ensures
            r == self.node_seq()[i as int],
    {
        self.nodes[i]
    }

    pub fn edge_count(&self) -> (r: usize)
        ensures
            r == self@.len(),
    {
        self.edges.len()
    }

    pub fn edge_at(&self, k: usize) -> (r: Edge)
        requires
            k < self@.len(),
        ensures
            r == self@[k as int],
    {
        self.edges[k]
    }

    /// Position of `v` among the nodes, if it is one.
    pub fn node_index(&self, v: u64) -> (r: Option<usize>)
        ensures
            match r {
                Some(i) => i < self.node_seq().len() && self.node_seq()[i as int] == v,
                None => !self.node_seq().contains(v),
            },
    {
        index_in(&self.nodes, v)
    }

    /// Whether `v` is a node of the graph.
    pub fn contains_node(&self, v: u64) -> (r: bool)
        requires
            self.wf(),
        ensures
            r == is_endpoint(self@, v),
    {
        let found = index_in(&self.nodes, v);
        proof {
            if is_endpoint(self@, v) {
                let k = choose|k: int| #![trigger self.edges@[k]] 0 <= k < self.edges@.len() && (self.edges@[k].0 == v || self.edges@[k].1 == v);
                assert(self.nodes@.contains(self.edges@[k].0));
            }
            if let Some(i) = found {
                assert(is_endpoint(self@, self.nodes@[i as int]));
            }
        }
        found.is_some()
    }
}

} // verus!
