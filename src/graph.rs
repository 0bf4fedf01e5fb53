//! Undirected graphs given by adjacency lists, and the induction of edge-index
//! sets from node sets.
//!
//! Every undirected edge `{u, v}` with `u < v` belongs to its smaller endpoint
//! `u`. Its global index is `offset(u)` plus the number of neighbours of `u`
//! that are greater than `u` and come before `v` in the adjacency list of `u`.
use crate::bitmap::{lists_in_order, BitmapSet};
use vstd::prelude::*;

verus! {

/// The number of entries of `a[0..j]` that are greater than `u`.
pub open spec fn larger_before(a: Seq<u32>, u: int, j: int) -> nat
    decreases j,
{
    if j <= 0 {
        0
    } else {
        larger_before(a, u, j - 1) + if a[j - 1] > u {
            1nat
        } else {
            0nat
        }
    }
}

/// `larger_before` grows with `j`, by one at most per step.
pub proof fn lemma_larger_before_mono(a: Seq<u32>, u: int, j: int, k: int)
    requires
        0 <= j <= k,
    ensures
        larger_before(a, u, j) <= larger_before(a, u, k),
        larger_before(a, u, k) <= larger_before(a, u, j) + (k - j),
    decreases k - j,
{
    if j < k {
        lemma_larger_before_mono(a, u, j, k - 1);
    }
}

/// The number of edges owned by the nodes before `k`.
pub open spec fn owned_total(adj: Seq<Vec<u32>>, k: int) -> nat
    decreases k,
{
    if k <= 0 {
        0
    } else {
        owned_total(adj, k - 1) + larger_before(adj[k - 1]@, k - 1, adj[k - 1]@.len() as int)
    }
}

/// `owned_total` does not decrease.
pub proof fn lemma_owned_total_mono(adj: Seq<Vec<u32>>, j: int, k: int)
    requires
        0 <= j <= k,
    ensures
        owned_total(adj, j) <= owned_total(adj, k),
    decreases k - j,
{
    if j < k {
        lemma_owned_total_mono(adj, j, k - 1);
    }
}

/// Every neighbour id is a node.
pub open spec fn neighbours_known(adj: Seq<Vec<u32>>) -> bool {
    forall|u: int, j: int| 0 <= u < adj.len() && 0 <= j < adj[u]@.len() ==> #[trigger] adj[u]@[j] < adj.len()
}

/// A graph over nodes `0..n`, with the prefix sums that give every edge its index.
pub struct Graph {
    /// The neighbours of each node.
    pub adj: Vec<Vec<u32>>,
    /// `acc[u]` counts the edges owned by the nodes before `u`; `acc[n] == m`.
    pub acc: Vec<u64>,
}

/// Why a list of adjacency lists does not make a graph.
#[derive(Debug, Clone, Copy, PartialEq, Eq, Structural)]
pub enum GraphError {
    /// Node ids must fit in 32 bits.
    TooManyNodes,
    /// A neighbour id that is not a node: the node and the position in its list.
    UnknownNeighbour(usize, usize),
    /// The number of edges does not fit in 64 bits.
    TooManyEdges,
}

impl Graph {
    /// The number of nodes.
    pub open spec fn num_nodes(&self) -> int {
        self.adj@.len() as int
    }

    /// The neighbours of node `u`.
    pub open spec fn nbrs(&self, u: int) -> Seq<u32> {
        self.adj@[u]@
    }

    /// The number of edges owned by node `u`.
    pub open spec fn owned(&self, u: int) -> nat {
        larger_before(self.nbrs(u), u, self.nbrs(u).len() as int)
    }

    /// The global index of the edge at position `j` of the list of `u`.
    pub open spec fn edge_index(&self, u: int, j: int) -> int {
        self.acc@[u] + larger_before(self.nbrs(u), u, j)
    }

    /// Well-formedness: ids fit in 32 bits, neighbours are nodes, and `acc`
    /// holds the running sum of the owned edge counts.
    pub open spec fn wf(&self) -> bool {
        &&& self.num_nodes() <= u32::MAX as int + 1
        &&& self.acc@.len() == self.num_nodes() + 1
        &&& self.acc@[0] == 0
        &&& forall|u: int| 0 <= u < self.num_nodes() ==> #[trigger] self.acc@[u + 1]
            == self.acc@[u] + self.owned(u)
        &&& forall|u: int, j: int|
            0 <= u < self.num_nodes() && 0 <= j < self.nbrs(u).len() ==> #[trigger] self.nbrs(
                u,
            )[j] < self.num_nodes()
    }

    /// The number of edges.
    pub open spec fn num_edges(&self) -> int {
        self.acc@[self.num_nodes()] as int
    }

    /// The edge at position `j` of the list of `u` lies inside `s` and is owned by `u`.
    pub open spec fn is_induced(&self, s: Set<u64>, u: int, j: int) -> bool {
        &&& 0 <= u < self.num_nodes()
        &&& 0 <= j < self.nbrs(u).len()
        &&& self.nbrs(u)[j] > u
        &&& s.contains(u as u64)
        &&& s.contains(self.nbrs(u)[j] as u64)
    }

    /// The indices of the edges with both endpoints in `s`.
    pub open spec fn induced_edges(&self, s: Set<u64>) -> Set<u64> {
        Set::new(
            |e: u64| exists|u: int, j: int| #[trigger] self.is_induced(s, u, j) && e == self.edge_index(u, j),
        )
    }

    /// Builds a graph from adjacency lists, computing the edge offsets.
    pub fn from_adjacency(adj: Vec<Vec<u32>>) -> (r: Result<Graph, GraphError>)
        ensures
            r matches Ok(g) ==> g.wf() && g.adj@ == adj@,
            (r == Err::<Graph, GraphError>(GraphError::TooManyNodes)) <==> adj@.len() > u32::MAX
                as int + 1,
            r matches Err(GraphError::UnknownNeighbour(u, j)) ==> u < adj@.len() && j
                < adj@[u as int]@.len() && adj@[u as int]@[j as int] >= adj@.len(),
            adj@.len() <= u32::MAX as int + 1 && neighbours_known(adj@) ==> (r
                == Err::<Graph, GraphError>(GraphError::TooManyEdges) <==> owned_total(
                adj@,
                adj@.len() as int,
            ) > u64::MAX),
    {
        let n = adj.len();
        if n as u64 > u32::MAX as u64 + 1 {
            return Err(GraphError::TooManyNodes);
        }
        let mut u: usize = 0;
        while u < n
            invariant
                u <= n == adj@.len(),
                forall|x: int, j: int|
                    0 <= x < u && 0 <= j < adj@[x]@.len() ==> #[trigger] adj@[x]@[j] < n,
            decreases n - u,
        {
            let mut j: usize = 0;
            while j < adj[u].len()
                invariant
                    u < n == adj@.len(),
                    j <= adj@[u as int]@.len(),
                    forall|x: int, k: int|
                        0 <= x < u && 0 <= k < adj@[x]@.len() ==> #[trigger] adj@[x]@[k] < n,
                    forall|k: int| 0 <= k < j ==> #[trigger] adj@[u as int]@[k] < n,
                decreases adj@[u as int]@.len() - j,
            {
                if adj[u][j] as usize >= n {
                    return Err(GraphError::UnknownNeighbour(u, j));
                }
                j = j + 1;
            }
            u = u + 1;
        }
        let mut acc: Vec<u64> = Vec::new();
        acc.push(0);
        let mut u: usize = 0;
        while u < n
            invariant
                u <= n == adj@.len(),
                acc@.len() == u + 1,
                acc@[0] == 0,
                forall|x: int| 0 <= x < u ==> #[trigger] acc@[x + 1] == acc@[x] + larger_before(
                    adj@[x]@,
                    x,
                    adj@[x]@.len() as int,
                ),
                acc@[u as int] == owned_total(adj@, u as int),
                n <= u32::MAX as int + 1,
                neighbours_known(adj@),
            decreases n - u,
        {
            let mut count: u64 = acc[u];
            let mut j: usize = 0;
            while j < adj[u].len()
                invariant
                    u < n == adj@.len(),
                    acc@.len() == u + 1,
                    j <= adj@[u as int]@.len(),
                    count == acc@[u as int] + larger_before(adj@[u as int]@, u as int, j as int),
                    acc@[u as int] == owned_total(adj@, u as int),
                    n <= u32::MAX as int + 1,
                    neighbours_known(adj@),
                decreases adj@[u as int]@.len() - j,
            {
                if adj[u][j] as usize > u {
                    if count == u64::MAX {
                        proof {
                            lemma_larger_before_mono(adj@[u as int]@, u as int, j + 1 as int, adj@[u as int]@.len() as int);
                            lemma_owned_total_mono(adj@, u + 1 as int, n as int);
                        }
                        return Err(GraphError::TooManyEdges);
                    }
                    count = count + 1;
                }
                j = j + 1;
            }
            acc.push(count);
            u = u + 1;
        }
        let g = Graph { adj, acc };
        assert(g.wf());
        Ok(g)
    }

    /// The number of nodes.
    pub fn n(&self) -> (r: usize)
        ensures
            r == self.num_nodes(),
    {
        self.adj.len()
    }

    /// The number of edges.
    pub fn m(&self) -> (r: u64)
        requires
            self.wf(),
        ensures
            r == self.num_edges(),
    {
        self.acc[self.adj.len()]
    }

    /// For each row of a column of node sets, the indices of the edges that it
    /// induces, as wide sets.
    pub fn covered_edges(&self, column: &Vec<BitmapSet>) -> (r: Vec<BitmapSet>)
        requires
            self.wf(),
            forall|i: int| 0 <= i < column@.len() ==> (#[trigger] column@[i]).wf(),
            forall|i: int, x: u64| 0 <= i < column@.len() && #[trigger] column@[i]@.contains(x) ==> x < self.num_nodes(),
        ensures
            r@.len() == column@.len(),
            forall|i: int| 0 <= i < r@.len() ==> (#[trigger] r@[i]).wf() && r@[i] is Wide && r@[i]@
                == self.induced_edges(column@[i]@),
    {
        let mut out: Vec<BitmapSet> = Vec::new();
        let mut i: usize = 0;
        while i < column.len()
            invariant
                self.wf(),
                forall|k: int| 0 <= k < column@.len() ==> (#[trigger] column@[k]).wf(),
                forall|k: int, x: u64| 0 <= k < column@.len() && #[trigger] column@[k]@.contains(x) ==> x < self.num_nodes(),
                i <= column@.len(),
                out@.len() == i,
                forall|k: int| 0 <= k < i ==> (#[trigger] out@[k]).wf() && out@[k] is Wide && out@[k]@
                    == self.induced_edges(column@[k]@),
            decreases column@.len() - i,
        {
            assert(forall|x: u64| column@[i as int]@.contains(x) ==> x < self.num_nodes());
            out.push(self.edgeset(&column[i]));
            i = i + 1;
        }
        out
    }

    /// The indices of the edges with both endpoints in `nodes`, as a wide set.
    pub fn edgeset(&self, nodes: &BitmapSet) -> (r: BitmapSet)
        requires
            self.wf(),
            nodes.wf(),
            forall|x: u64| nodes@.contains(x) ==> x < self.num_nodes(),
        ensures
            r.wf(),
            r is Wide,
            r@ == self.induced_edges(nodes@),
    {
        let ghost s = nodes@;
        let ns = nodes.to_vec();
        let mut out = BitmapSet::new_wide();
        let mut i: usize = 0;
        while i < ns.len()
            invariant
                self.wf(),
                nodes.wf(),
                s == nodes@,
                forall|x: u64| s.contains(x) ==> x < self.num_nodes(),
                lists_in_order(ns@, s),
                i <= ns.len(),
                out.wf(),
                out is Wide,
                forall|e: u64|
                    out@.contains(e) ==> exists|k: int, j: int|
                        0 <= k < i && #[trigger] self.is_induced(s, ns@[k] as int, j) && e
                            == self.edge_index(ns@[k] as int, j),
                forall|k: int, j: int|
                    0 <= k < i && #[trigger] self.is_induced(s, ns@[k] as int, j) ==> out@.contains(
                        self.edge_index(ns@[k] as int, j) as u64,
                    ),
            decreases ns.len() - i,
        {
            let u = ns[i];
            assert(s.contains(u));
            let ui = u as usize;
            let nb = &self.adj[ui];
            let shift = self.acc[ui];
            let ghost uu = u as int;
            assert(self.acc@[uu + 1] == self.acc@[uu] + self.owned(uu));
            let mut offset: u64 = 0;
            let mut j: usize = 0;
            while j < nb.len()
                invariant
                    self.wf(),
                    nodes.wf(),
                    s == nodes@,
                    lists_in_order(ns@, s),
                    i < ns.len(),
                    ns@[i as int] == u,
                    uu == u as int,
                    uu < self.num_nodes(),
                    *nb == self.adj@[uu],
                    shift == self.acc@[uu],
                    self.acc@[uu + 1] == self.acc@[uu] + self.owned(uu),
                    j <= nb@.len(),
                    offset == larger_before(nb@, uu, j as int),
                    out.wf(),
                    out is Wide,
                    forall|e: u64|
                        out@.contains(e) ==> (exists|k: int, jj: int|
                            0 <= k < i && #[trigger] self.is_induced(s, ns@[k] as int, jj) && e
                                == self.edge_index(ns@[k] as int, jj)) || (exists|jj: int|
                            0 <= jj < j && #[trigger] self.is_induced(s, uu, jj) && e
                                == self.edge_index(uu, jj)),
                    forall|k: int, jj: int|
                        0 <= k < i && #[trigger] self.is_induced(s, ns@[k] as int, jj)
                            ==> out@.contains(self.edge_index(ns@[k] as int, jj) as u64),
                    forall|jj: int|
                        0 <= jj < j && #[trigger] self.is_induced(s, uu, jj) ==> out@.contains(
                            self.edge_index(uu, jj) as u64,
                        ),
                decreases nb@.len() - j,
            {
                let v = nb[j];
                if v as u64 > u {
                    proof {
                        lemma_larger_before_mono(nb@, uu, j as int + 1, nb@.len() as int);
                    }
                    if nodes.contains(v as u64) {
                        let e = shift + offset;
                        assert(self.is_induced(s, uu, j as int));
                        out.insert(e);
                    }
                    offset = offset + 1;
                }
                j = j + 1;
            }
            proof {
                assert forall|e: u64| out@.contains(e) implies exists|k: int, jj: int|
                    0 <= k < i + 1 && #[trigger] self.is_induced(s, ns@[k] as int, jj) && e
                        == self.edge_index(ns@[k] as int, jj) by {
                    if exists|jj: int|
                        0 <= jj < j && #[trigger] self.is_induced(s, uu, jj) && e
                            == self.edge_index(uu, jj) {
                        let jj = choose|jj: int|
                            0 <= jj < j && #[trigger] self.is_induced(s, uu, jj) && e
                                == self.edge_index(uu, jj);
                        assert(self.is_induced(s, ns@[i as int] as int, jj));
                    }
                }
                assert forall|k: int, jj: int|
                    0 <= k < i + 1 && #[trigger] self.is_induced(
                        s,
                        ns@[k] as int,
                        jj,
                    ) implies out@.contains(self.edge_index(ns@[k] as int, jj) as u64) by {
                    if k == i {
                        assert(self.is_induced(s, uu, jj));
                    }
                }
            }
            i = i + 1;
        }
        proof {
            assert forall|e: u64| #[trigger] out@.contains(e) == self.induced_edges(s).contains(
                e,
            ) by {
                if self.induced_edges(s).contains(e) {
                    let (u, j) = choose|u: int, j: int|
                        #[trigger] self.is_induced(s, u, j) && e == self.edge_index(u, j);
                    assert(ns@.contains(u as u64));
                    let k = choose|k: int| 0 <= k < ns@.len() && ns@[k] == u as u64;
                    assert(self.is_induced(s, ns@[k] as int, j));
                    lemma_larger_before_mono(self.nbrs(u), u, j, self.nbrs(u).len() as int);
                    assert(self.acc@[u + 1] == self.acc@[u] + self.owned(u));
                }
            }
            assert(out@ =~= self.induced_edges(s));
        }
        out
    }
}

/// Some position before `k` of `a` holds the `t`-th entry greater than `u`.
proof fn lemma_find_position(a: Seq<u32>, u: int, k: int, t: int)
    requires
        0 <= t < larger_before(a, u, k),
        0 <= k <= a.len(),
    ensures
        exists|j: int| 0 <= j < k && a[j] > u && #[trigger] larger_before(a, u, j) == t,
    decreases k,
{
    if t < larger_before(a, u, k - 1) {
        lemma_find_position(a, u, k - 1, t);
        let j = choose|j: int| 0 <= j < k - 1 && a[j] > u && #[trigger] larger_before(a, u, j) == t;
        assert(0 <= j < k && a[j] > u && larger_before(a, u, j) == t);
    } else {
        assert(a[k - 1] > u && larger_before(a, u, k - 1) == t);
    }
}

impl Graph {
    /// The edge offsets do not decrease.
    pub proof fn lemma_acc_mono(&self, j: int, k: int)
        requires
            self.wf(),
            0 <= j <= k <= self.num_nodes(),
        ensures
            self.acc@[j] <= self.acc@[k],
        decreases k - j,
    {
        if j < k {
            self.lemma_acc_mono(j, k - 1);
            assert(self.acc@[(k - 1) + 1] == self.acc@[k - 1] + self.owned(k - 1));
        }
    }

    /// Every index below `acc[k]` belongs to a node before `k`.
    proof fn lemma_find_owner(&self, e: int, k: int)
        requires
            self.wf(),
            0 <= k <= self.num_nodes(),
            0 <= e < self.acc@[k],
        ensures
            exists|u: int| 0 <= u < k && self.acc@[u] <= e < #[trigger] self.acc@[u + 1],
        decreases k,
    {
        if e < self.acc@[k - 1] {
            self.lemma_find_owner(e, k - 1);
            let u = choose|u: int| 0 <= u < k - 1 && self.acc@[u] <= e < #[trigger] self.acc@[u + 1];
            assert(0 <= u < k && self.acc@[u] <= e < self.acc@[u + 1]);
        } else {
            assert(self.acc@[k - 1] <= e < self.acc@[(k - 1) + 1]);
        }
    }

    /// A node set of at most one node induces no edge.
    pub proof fn lemma_induced_at_most_one(&self, s: Set<u64>)
        requires
            s.finite(),
            s.len() <= 1,
        ensures
            self.induced_edges(s) == Set::<u64>::empty(),
    {
        assert forall|e: u64| !self.induced_edges(s).contains(e) by {
            if self.induced_edges(s).contains(e) {
                let (u, j) = choose|u: int, j: int|
                    #[trigger] self.is_induced(s, u, j) && e == self.edge_index(u, j);
                let a = u as u64;
                let b = self.nbrs(u)[j] as u64;
                assert(a != b);
                assert(s.remove(a).contains(b));
                assert(s.remove(a).len() == s.len() - 1);
                assert(s.remove(a).len() > 0);
            }
        }
        assert(self.induced_edges(s) =~= Set::<u64>::empty());
    }

    /// On the full node set the induced edges are exactly the indices `0..m`,
    /// so there are `m` of them.
    pub proof fn lemma_induced_full(&self, s: Set<u64>)
        requires
            self.wf(),
            forall|x: u64| s.contains(x) <==> x < self.num_nodes(),
        ensures
            self.induced_edges(s) == Set::new(|e: u64| e < self.num_edges()),
            self.induced_edges(s).len() == self.num_edges(),
    {
        let n = self.num_nodes();
        assert forall|e: u64| self.induced_edges(s).contains(e) <==> e < self.num_edges() by {
            if self.induced_edges(s).contains(e) {
                let (u, j) = choose|u: int, j: int|
                    #[trigger] self.is_induced(s, u, j) && e == self.edge_index(u, j);
                lemma_larger_before_mono(self.nbrs(u), u, j + 1, self.nbrs(u).len() as int);
                assert(self.acc@[u + 1] == self.acc@[u] + self.owned(u));
                self.lemma_acc_mono(u + 1, n);
            }
            if e < self.num_edges() {
                self.lemma_find_owner(e as int, n);
                let u = choose|u: int| 0 <= u < n && self.acc@[u] <= e < #[trigger] self.acc@[u + 1];
                let a = self.nbrs(u);
                lemma_find_position(a, u, a.len() as int, e - self.acc@[u]);
                let j = choose|j: int| 0 <= j < a.len() && a[j] > u && #[trigger] larger_before(a, u, j) == e - self.acc@[u];
                assert(self.nbrs(u)[j] < n);
                assert(s.contains(u as u64));
                assert(self.is_induced(s, u, j));
            }
        }
        let m = self.acc@[n];
        assert(self.induced_edges(s) =~= Set::new(|e: u64| e < self.num_edges()));
        assert(Set::new(|e: u64| e < self.num_edges()) =~= <u64 as vstd::set_lib::FiniteRange>::range_set(0, m));
        <u64 as vstd::set_lib::FiniteRange>::range_properties(0, m);
    }
}

} // verus!
