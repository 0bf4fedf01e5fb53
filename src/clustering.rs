//! Clusterings of a graph's nodes, and views over a selection of their clusters.
use crate::bitmap::{lists_in_order, union_of, views, BitmapSet};
use std::sync::Arc;
use vstd::prelude::*;

verus! {

/// The statistics of one cluster, without its members.
#[derive(Debug, Clone, Copy, PartialEq, Eq, Structural)]
pub struct ClusterSkeleton {
    /// Number of member nodes.
    pub n: u64,
    /// Number of edges inside the cluster.
    pub m: u64,
    /// Number of edges leaving the cluster.
    pub c: u64,
    /// Smallest internal degree of a member.
    pub mcd: u64,
    /// Sum of the members' degrees, `2 * m + c`.
    pub vol: u64,
}

impl ClusterSkeleton {
    /// The statistics that every one-node cluster has.
    pub fn singleton() -> (r: ClusterSkeleton)
        ensures
            r == (ClusterSkeleton { n: 1, m: 0, c: 0, mcd: 0, vol: 0 }),
    {
        ClusterSkeleton { n: 1, m: 0, c: 0, mcd: 0, vol: 0 }
    }
}

/// A labelled cluster: its members and its statistics.
pub struct Cluster {
    pub label: u32,
    pub n: u64,
    pub m: u64,
    pub c: u64,
    pub mcd: u64,
    pub vol: u64,
    pub nodes: BitmapSet,
}

impl Cluster {
    /// The cluster's statistics.
    pub open spec fn skeleton_of(&self) -> ClusterSkeleton {
        ClusterSkeleton { n: self.n, m: self.m, c: self.c, mcd: self.mcd, vol: self.vol }
    }

    /// Consistency of the statistics with the members, over nodes `0..total`.
    pub open spec fn wf(&self, total: int) -> bool {
        &&& self.nodes.wf()
        &&& forall|x: u64| self.nodes@.contains(x) ==> x < total
        &&& self.n == self.nodes@.len()
        &&& self.vol == 2 * self.m + self.c
    }

    /// The cluster's statistics.
    pub fn skeleton(&self) -> (r: ClusterSkeleton)
        ensures
            r == self.skeleton_of(),
    {
        ClusterSkeleton { n: self.n, m: self.m, c: self.c, mcd: self.mcd, vol: self.vol }
    }
}

/// Why a list of clusters does not make a clustering.
#[derive(Debug, Clone, Copy, PartialEq, Eq, Structural)]
pub enum ClusteringError {
    /// Two clusters share this label.
    DuplicateLabel(u32),
    /// This cluster has a member that is not a node of the graph.
    UnknownNode(u32),
    /// This cluster's `n` or `vol` disagrees with its members and edge counts.
    InconsistentStatistics(u32),
}

/// A selection predicate failed.
#[derive(Debug, Clone, Copy, PartialEq, Eq, Structural)]
pub struct FilterError;

/// A label that is not among the selected clusters.
#[derive(Debug, Clone, Copy, PartialEq, Eq, Structural)]
pub struct NotFound(pub u32);

/// The member sets of a sequence of clusters.
pub open spec fn member_sets(cs: Seq<Cluster>) -> Seq<Set<u64>> {
    Seq::new(cs.len(), |i: int| cs[i].nodes@)
}

/// `x` is among the first `j` entries of `s`.
pub open spec fn listed_before(s: Seq<u64>, j: int, x: u64) -> bool {
    exists|t: int| 0 <= t < j && #[trigger] s[t] == x
}

/// How many of the sets hold `x`.
pub open spec fn occurrences(s: Seq<Set<u64>>, x: u64) -> nat
    decreases s.len(),
{
    if s.len() == 0 {
        0
    } else {
        occurrences(s.drop_last(), x) + if s.last().contains(x) {
            1nat
        } else {
            0nat
        }
    }
}

/// The sum of a sequence of counts.
pub open spec fn sum_of(s: Seq<u64>) -> int
    decreases s.len(),
{
    if s.len() == 0 {
        0
    } else {
        sum_of(s.drop_last()) + s.last()
    }
}

/// The sizes of a sequence of sets, added up.
pub open spec fn total_size(s: Seq<Set<u64>>) -> int
    decreases s.len(),
{
    if s.len() == 0 {
        0
    } else {
        total_size(s.drop_last()) + s.last().len()
    }
}

/// How many entries of `c` lie in `t`.
pub open spec fn hits(c: Seq<u64>, t: Set<u64>) -> int
    decreases c.len(),
{
    if c.len() == 0 {
        0
    } else {
        hits(c.drop_last(), t) + if t.contains(c.last()) {
            1int
        } else {
            0int
        }
    }
}

/// For each entry of `c`, how many of the sets hold it, added up.
pub open spec fn occurrence_sum(c: Seq<u64>, s: Seq<Set<u64>>) -> int
    decreases c.len(),
{
    if c.len() == 0 {
        0
    } else {
        occurrence_sum(c.drop_last(), s) + occurrences(s, c.last())
    }
}

/// The entries of an ascending sequence that lie in `t` are as many as the
/// members that `t` shares with the sequence.
pub proof fn lemma_hits(c: Seq<u64>, t: Set<u64>)
    requires
        crate::bitmap::strictly_ascending(c),
    ensures
        hits(c, t) == t.intersect(c.to_set()).len(),
    decreases c.len(),
{
    crate::bitmap::lemma_finite(t);
    if c.len() == 0 {
        assert(t.intersect(c.to_set()) =~= Set::<u64>::empty());
    } else {
        let p = c.drop_last();
        let y = c.last();
        lemma_hits(p, t);
        assert(c =~= p.push(y));
        p.lemma_push_to_set_commute(y);
        assert(!p.to_set().contains(y)) by {
            if p.to_set().contains(y) {
                let k = choose|k: int| 0 <= k < p.len() && p[k] == y;
                assert(c[k] < c[c.len() - 1]);
            }
        }
        crate::bitmap::lemma_finite(t.intersect(p.to_set()));
        if t.contains(y) {
            assert(t.intersect(c.to_set()) =~= t.intersect(p.to_set()).insert(y));
        } else {
            assert(t.intersect(c.to_set()) =~= t.intersect(p.to_set()));
        }
    }
}

/// Dropping the last set takes its hits off the occurrence sum.
proof fn lemma_occurrence_sum_last(c: Seq<u64>, s: Seq<Set<u64>>)
    requires
        s.len() > 0,
    ensures
        occurrence_sum(c, s) == occurrence_sum(c, s.drop_last()) + hits(c, s.last()),
    decreases c.len(),
{
    if c.len() > 0 {
        lemma_occurrence_sum_last(c.drop_last(), s);
    }
}

/// Counting pairs of a listed node and a set that holds it, by nodes or by
/// sets: when the listing covers every set, both give the total size.
pub proof fn lemma_double_count(c: Seq<u64>, s: Seq<Set<u64>>)
    requires
        crate::bitmap::strictly_ascending(c),
        forall|i: int, x: u64| 0 <= i < s.len() && #[trigger] s[i].contains(x) ==> c.contains(x),
    ensures
        occurrence_sum(c, s) == total_size(s),
    decreases s.len(),
{
    if s.len() == 0 {
        assert(occurrence_sum(c, s) == 0) by {
            lemma_occurrence_sum_empty(c, s);
        }
    } else {
        let p = s.drop_last();
        assert forall|i: int, x: u64| 0 <= i < p.len() && #[trigger] p[i].contains(x) implies c.contains(x) by {
            assert(s[i] == p[i]);
        }
        lemma_double_count(c, p);
        lemma_occurrence_sum_last(c, s);
        lemma_hits(c, s.last());
        assert(s.last().intersect(c.to_set()) =~= s.last()) by {
            assert forall|x: u64| s.last().contains(x) implies c.to_set().contains(x) by {
                assert(s[s.len() - 1].contains(x));
            }
        }
    }
}

/// With no sets, nothing is held.
proof fn lemma_occurrence_sum_empty(c: Seq<u64>, s: Seq<Set<u64>>)
    requires
        s.len() == 0,
    ensures
        occurrence_sum(c, s) == 0,
    decreases c.len(),
{
    if c.len() > 0 {
        lemma_occurrence_sum_empty(c.drop_last(), s);
    }
}

/// How many entries are not zero.
pub open spec fn nonzero_count(s: Seq<int>) -> int
    decreases s.len(),
{
    if s.len() == 0 {
        0
    } else {
        nonzero_count(s.drop_last()) + if s.last() != 0 {
            1int
        } else {
            0int
        }
    }
}

/// A node is held by at most as many sets as there are.
pub proof fn lemma_occurrences_bound(s: Seq<Set<u64>>, x: u64)
    ensures
        occurrences(s, x) <= s.len(),
    decreases s.len(),
{
    if s.len() > 0 {
        lemma_occurrences_bound(s.drop_last(), x);
    }
}

/// The clusters of a graph's nodes, with their cover and singleton count.
pub struct ClusteringData {
    /// The labelled clusters, labels unique.
    pub clusters: Vec<Cluster>,
    /// The number of one-node clusters kept apart from `clusters`.
    pub num_singletons: u64,
    /// The number of nodes of the graph.
    pub total_nodes: usize,
    /// The union of the clusters' member sets.
    pub cover: BitmapSet,
}

impl ClusteringData {
    /// Labels are unique, clusters consistent, and `cover` their union.
    pub open spec fn wf(&self) -> bool {
        &&& forall|i: int, j: int|
            0 <= i < j < self.clusters@.len() ==> (#[trigger] self.clusters@[i]).label
                != (#[trigger] self.clusters@[j]).label
        &&& forall|i: int|
            0 <= i < self.clusters@.len() ==> (#[trigger] self.clusters@[i]).wf(
                self.total_nodes as int,
            )
        &&& self.cover.wf()
        &&& self.cover@ == union_of(member_sets(self.clusters@))
    }

    /// `label` is the label of some cluster.
    pub open spec fn has_label(&self, label: u32) -> bool {
        exists|i: int| 0 <= i < self.clusters@.len() && (#[trigger] self.clusters@[i]).label == label
    }

    /// The position of the cluster with this label.
    pub fn position(&self, label: u32) -> (r: Option<usize>)
        requires
            self.wf(),
        ensures
            r matches Some(i) ==> i < self.clusters@.len() && self.clusters@[i as int].label
                == label,
            r is None <==> !self.has_label(label),
    {
        let mut i: usize = 0;
        while i < self.clusters.len()
            invariant
                i <= self.clusters@.len(),
                forall|j: int| 0 <= j < i ==> (#[trigger] self.clusters@[j]).label != label,
            decreases self.clusters@.len() - i,
        {
            if self.clusters[i].label == label {
                return Some(i);
            }
            i = i + 1;
        }
        None
    }
}

/// Relies on `Arc::clone`: another pointer to the same value.
#[verifier::external_body]
fn share(a: &Arc<ClusteringData>) -> (r: Arc<ClusteringData>)
    ensures
        *r == **a,
{
    Arc::clone(a)
}

/// Per-cluster columns, aligned by row.
pub struct ClusterTable {
    pub label: Vec<u32>,
    pub n: Vec<u64>,
    pub m: Vec<u64>,
    pub c: Vec<u64>,
    pub mcd: Vec<u64>,
    pub nodes: Vec<BitmapSet>,
}

impl ClusterTable {
    /// All columns have one entry per row, and every member set is well formed.
    pub open spec fn wf(&self) -> bool {
        &&& self.n@.len() == self.label@.len()
        &&& self.m@.len() == self.label@.len()
        &&& self.c@.len() == self.label@.len()
        &&& self.mcd@.len() == self.label@.len()
        &&& self.nodes@.len() == self.label@.len()
        &&& forall|i: int| 0 <= i < self.nodes@.len() ==> (#[trigger] self.nodes@[i]).wf()
    }
}

/// A clustering shared by the views taken of it.
pub struct Clustering {
    pub data: Arc<ClusteringData>,
}

impl Clustering {
    pub open spec fn wf(&self) -> bool {
        self.data.wf()
    }

    /// Builds a clustering over nodes `0..total_nodes`, checking labels and
    /// statistics and computing the cover.
    pub fn new(clusters: Vec<Cluster>, num_singletons: u64, total_nodes: usize) -> (r: Result<
        Clustering,
        ClusteringError,
    >)
        ensures
            r matches Ok(c) ==> c.wf() && c.data.clusters@ == clusters@ && c.data.num_singletons
                == num_singletons && c.data.total_nodes == total_nodes,
            r is Ok <==> (forall|i: int, j: int|
                0 <= i < j < clusters@.len() ==> (#[trigger] clusters@[i]).label
                    != (#[trigger] clusters@[j]).label) && (forall|i: int|
                0 <= i < clusters@.len() ==> (#[trigger] clusters@[i]).wf(total_nodes as int)),
            r matches Err(ClusteringError::DuplicateLabel(l)) ==> exists|i: int, j: int|
                0 <= i < j < clusters@.len() && (#[trigger] clusters@[i]).label == l
                    && (#[trigger] clusters@[j]).label == l,
            r matches Err(ClusteringError::UnknownNode(l)) ==> exists|i: int|
                0 <= i < clusters@.len() && (#[trigger] clusters@[i]).label == l && exists|x: u64|
                    clusters@[i].nodes@.contains(x) && x >= total_nodes,
            r matches Err(ClusteringError::InconsistentStatistics(l)) ==> exists|i: int|
                0 <= i < clusters@.len() && (#[trigger] clusters@[i]).label == l && (clusters@[i].n
                    != clusters@[i].nodes@.len() || clusters@[i].vol != 2 * clusters@[i].m
                    + clusters@[i].c),
    {
        let mut i: usize = 0;
        while i < clusters.len()
            invariant
                i <= clusters@.len(),
                forall|a: int, b: int|
                    0 <= a < b < clusters@.len() && a < i ==> (#[trigger] clusters@[a]).label
                        != (#[trigger] clusters@[b]).label,
                forall|a: int| 0 <= a < i ==> (#[trigger] clusters@[a]).wf(total_nodes as int),
            decreases clusters@.len() - i,
        {
            let cl = &clusters[i];
            let mut j: usize = i + 1;
            while j < clusters.len()
                invariant
                    i < j <= clusters@.len(),
                    forall|b: int| i < b < j ==> (#[trigger] clusters@[b]).label != cl.label,
                    *cl == clusters@[i as int],
                decreases clusters@.len() - j,
            {
                if clusters[j].label == cl.label {
                    assert(clusters@[i as int].label == cl.label && clusters@[j as int].label == cl.label);
                    return Err(ClusteringError::DuplicateLabel(cl.label));
                }
                j = j + 1;
            }
            cl.nodes.check_bounds();
            let members = cl.nodes.to_vec();
            let k = members.len();
            if k > 0 && members[k - 1] >= total_nodes as u64 {
                assert(cl.nodes@.contains(members@[k - 1]));
                return Err(ClusteringError::UnknownNode(cl.label));
            }
            proof {
                assert forall|x: u64| cl.nodes@.contains(x) implies x < total_nodes by {
                    let t = choose|t: int| 0 <= t < members@.len() && members@[t] == x;
                    assert(members@[t] <= members@[k - 1]);
                }
            }
            if cl.n != cl.nodes.len() {
                return Err(ClusteringError::InconsistentStatistics(cl.label));
            }
            if cl.m > (u64::MAX - cl.c) / 2 || cl.vol != 2 * cl.m + cl.c {
                return Err(ClusteringError::InconsistentStatistics(cl.label));
            }
            i = i + 1;
        }
        let mut sets: Vec<BitmapSet> = Vec::new();
        let mut k: usize = 0;
        while k < clusters.len()
            invariant
                k <= clusters@.len(),
                forall|a: int| 0 <= a < clusters@.len() ==> (#[trigger] clusters@[a]).wf(total_nodes as int),
                sets@.len() == k,
                forall|a: int| 0 <= a < k ==> (#[trigger] sets@[a]).wf() && sets@[a]@ == clusters@[a].nodes@,
            decreases clusters@.len() - k,
        {
            sets.push(clusters[k].nodes.duplicate());
            k = k + 1;
        }
        assert(views(sets@) =~= member_sets(clusters@));
        let cover = BitmapSet::union_all(&sets);
        let data = ClusteringData { clusters, num_singletons, total_nodes, cover };
        Ok(Clustering { data: Arc::new(data) })
    }

    /// The view of the clusters with the given labels; duplicates count once.
    pub fn select(&self, ids: &Vec<u32>) -> (r: Result<ClusteringSubset, NotFound>)
        requires
            self.wf(),
        ensures
            r matches Ok(sub) ==> sub.wf() && *sub.data == *self.data && !sub.has_singletons
                && sub.key_set() == ids@.to_set(),
            r matches Err(NotFound(l)) ==> ids@.contains(l) && !self.data.has_label(l),
            r is Ok <==> forall|i: int| 0 <= i < ids@.len() ==> self.data.has_label(#[trigger] ids@[i]),
    {
        let mut labels = BitmapSet::new();
        let mut i: usize = 0;
        while i < ids.len()
            invariant
                self.wf(),
                i <= ids@.len(),
                labels.wf(),
                forall|j: int| 0 <= j < i ==> self.data.has_label(#[trigger] ids@[j]),
                forall|x: u64| labels@.contains(x) <==> exists|j: int| 0 <= j < i && (#[trigger] ids@[j]) as u64 == x,
            decreases ids@.len() - i,
        {
            let l = ids[i];
            if self.data.position(l).is_none() {
                return Err(NotFound(l));
            }
            labels.insert(l as u64);
            i = i + 1;
            assert forall|x: u64| labels@.contains(x) <==> exists|j: int| 0 <= j < i && (#[trigger] ids@[j]) as u64 == x by {
                if x == l as u64 {
                    assert(ids@[i - 1] as u64 == x);
                }
            }
        }
        assert forall|x: u64| labels@.contains(x) implies x <= u32::MAX && self.data.has_label(x as u32) by {
            let j = choose|j: int| 0 <= j < i && (#[trigger] ids@[j]) as u64 == x;
        }
        let sub = ClusteringSubset::build(share(&self.data), &labels, false);
        assert forall|l: u32| sub.key_set().contains(l) <==> ids@.to_set().contains(l) by {
            if labels@.contains(l as u64) {
                let j = choose|j: int| 0 <= j < i && (#[trigger] ids@[j]) as u64 == l as u64;
                assert(ids@[j] == l);
            }
            if ids@.to_set().contains(l) {
                let j = choose|j: int| 0 <= j < ids@.len() && ids@[j] == l;
                assert(ids@[j] as u64 == l as u64);
            }
        }
        assert(sub.key_set() =~= ids@.to_set());
        Ok(sub)
    }

    /// The view of the clusters whose statistics satisfy `pred`. The predicate
    /// is also asked once about a one-node cluster, which decides whether the
    /// one-node clusters count as selected. A failure of the predicate aborts.
    pub fn filter<F: Fn(ClusterSkeleton) -> Result<bool, FilterError>>(&self, pred: F) -> (r: Result<
        ClusteringSubset,
        FilterError,
    >)
        requires
            self.wf(),
            forall|sk: ClusterSkeleton| pred.requires((sk,)),
        ensures
            r matches Ok(sub) ==> {
                &&& sub.wf()
                &&& *sub.data == *self.data
                &&& forall|l: u32| #[trigger] sub.key_set().contains(l) ==> self.data.has_label(l)
                &&& forall|i: int|
                    0 <= i < self.data.clusters@.len() ==> if sub.key_set().contains(
                        (#[trigger] self.data.clusters@[i]).label,
                    ) {
                        pred.ensures((self.data.clusters@[i].skeleton_of(),), Ok(true))
                    } else {
                        pred.ensures((self.data.clusters@[i].skeleton_of(),), Ok(false))
                    }
                &&& pred.ensures(
                    (ClusterSkeleton { n: 1, m: 0, c: 0, mcd: 0, vol: 0 },),
                    Ok(sub.has_singletons),
                )
            },
            r matches Err(e) ==> (exists|i: int|
                0 <= i < self.data.clusters@.len() && pred.ensures(
                    ((#[trigger] self.data.clusters@[i]).skeleton_of(),),
                    Err(e),
                )) || pred.ensures((ClusterSkeleton { n: 1, m: 0, c: 0, mcd: 0, vol: 0 },), Err(e)),
    {
        let mut labels = BitmapSet::new();
        let mut i: usize = 0;
        while i < self.data.clusters.len()
            invariant
                self.wf(),
                forall|sk: ClusterSkeleton| pred.requires((sk,)),
                i <= self.data.clusters@.len(),
                labels.wf(),
                forall|x: u64| labels@.contains(x) ==> exists|j: int| 0 <= j < i && (#[trigger] self.data.clusters@[j]).label as u64 == x,
                forall|j: int| 0 <= j < i ==> if labels@.contains((#[trigger] self.data.clusters@[j]).label as u64) {
                    pred.ensures((self.data.clusters@[j].skeleton_of(),), Ok(true))
                } else {
                    pred.ensures((self.data.clusters@[j].skeleton_of(),), Ok(false))
                },
            decreases self.data.clusters@.len() - i,
        {
            let cl = &self.data.clusters[i];
            let sk = cl.skeleton();
            match pred(sk) {
                Ok(true) => {
                    labels.insert(cl.label as u64);
                },
                Ok(false) => {},
                Err(e) => {
                    return Err(e);
                },
            }
            proof {
                assert forall|j: int| 0 <= j < i implies (#[trigger] self.data.clusters@[j]).label as u64 != cl.label as u64 by {
                    assert(self.data.clusters@[j].label != self.data.clusters@[i as int].label);
                }
            }
            i = i + 1;
        }
        let has_singletons = match pred(ClusterSkeleton::singleton()) {
            Ok(b) => b,
            Err(e) => {
                return Err(e);
            },
        };
        assert forall|x: u64| labels@.contains(x) implies x <= u32::MAX && self.data.has_label(x as u32) by {
            let j = choose|j: int| 0 <= j < i && (#[trigger] self.data.clusters@[j]).label as u64 == x;
        }
        let sub = ClusteringSubset::build(share(&self.data), &labels, has_singletons);
        Ok(sub)
    }

    /// The cluster listing: one row per cluster, with columns `label`, `n`,
    /// `m`, `c`, `mcd` and `nodes`.
    pub fn table(&self) -> (r: ClusterTable)
        requires
            self.wf(),
        ensures
            r.wf(),
            r.label@.len() == self.data.clusters@.len(),
            forall|i: int|
                0 <= i < r.label@.len() ==> {
                    let cl = #[trigger] self.data.clusters@[i];
                    &&& r.label@[i] == cl.label
                    &&& r.n@[i] == cl.n
                    &&& r.m@[i] == cl.m
                    &&& r.c@[i] == cl.c
                    &&& r.mcd@[i] == cl.mcd
                    &&& r.nodes@[i]@ == cl.nodes@
                },
    {
        let mut t = ClusterTable {
            label: Vec::new(),
            n: Vec::new(),
            m: Vec::new(),
            c: Vec::new(),
            mcd: Vec::new(),
            nodes: Vec::new(),
        };
        let mut i: usize = 0;
        while i < self.data.clusters.len()
            invariant
                self.wf(),
                i <= self.data.clusters@.len(),
                t.wf(),
                t.label@.len() == i,
                forall|k: int|
                    0 <= k < i ==> {
                        let cl = #[trigger] self.data.clusters@[k];
                        &&& t.label@[k] == cl.label
                        &&& t.n@[k] == cl.n
                        &&& t.m@[k] == cl.m
                        &&& t.c@[k] == cl.c
                        &&& t.mcd@[k] == cl.mcd
                        &&& t.nodes@[k]@ == cl.nodes@
                    },
            decreases self.data.clusters@.len() - i,
        {
            let cl = &self.data.clusters[i];
            assert(cl.wf(self.data.total_nodes as int));
            t.label.push(cl.label);
            t.n.push(cl.n);
            t.m.push(cl.m);
            t.c.push(cl.c);
            t.mcd.push(cl.mcd);
            t.nodes.push(cl.nodes.duplicate());
            i = i + 1;
        }
        t
    }

    /// The number of labelled clusters.
    pub fn size(&self) -> (r: usize)
        ensures
            r == self.data.clusters@.len(),
    {
        self.data.clusters.len()
    }
}

/// A selection of the clusters of a clustering, with the aggregates derived
/// from it: the nodes it covers and how many selected clusters hold each node.
pub struct ClusteringSubset {
    /// The clustering the selection is taken from.
    pub data: Arc<ClusteringData>,
    /// The selected labels, in ascending order.
    pub keys: Vec<u32>,
    /// `pos[i]` is the position in `data.clusters` of the cluster labelled `keys[i]`.
    pub pos: Vec<usize>,
    /// Whether the one-node clusters count as selected.
    pub has_singletons: bool,
    /// The union of the selected clusters' member sets.
    pub covered: BitmapSet,
    /// For each node of the graph, how many selected clusters hold it.
    pub multiplicity: Vec<u64>,
}

impl ClusteringSubset {
    /// The member sets of the selected clusters, in the order of `keys`.
    pub open spec fn selected(&self) -> Seq<Set<u64>> {
        Seq::new(self.pos@.len(), |i: int| self.data.clusters@[self.pos@[i] as int].nodes@)
    }

    /// The selected labels, as a set.
    pub open spec fn key_set(&self) -> Set<u32> {
        self.keys@.to_set()
    }

    pub open spec fn wf(&self) -> bool {
        &&& self.data.wf()
        &&& self.keys@.len() == self.pos@.len()
        &&& forall|i: int, j: int| 0 <= i < j < self.keys@.len() ==> self.keys@[i] < self.keys@[j]
        &&& forall|i: int|
            0 <= i < self.pos@.len() ==> #[trigger] self.pos@[i] < self.data.clusters@.len()
                && self.data.clusters@[self.pos@[i] as int].label == self.keys@[i]
        &&& self.covered.wf()
        &&& self.covered@ == union_of(self.selected())
        &&& self.multiplicity@.len() == self.data.total_nodes
        &&& forall|x: int|
            0 <= x < self.data.total_nodes ==> #[trigger] self.multiplicity@[x] == occurrences(
                self.selected(),
                x as u64,
            )
    }

    /// The number of one-node clusters that count as selected.
    pub open spec fn singletons_spec(&self) -> nat {
        if self.has_singletons {
            self.data.num_singletons as nat
        } else {
            0
        }
    }

    /// The selected labels, in ascending order.
    pub fn keys(&self) -> (r: Vec<u32>)
        ensures
            r@ == self.keys@,
    {
        let mut r: Vec<u32> = Vec::new();
        let mut i: usize = 0;
        while i < self.keys.len()
            invariant
                i <= self.keys@.len(),
                r@ == self.keys@.take(i as int),
            decreases self.keys@.len() - i,
        {
            r.push(self.keys[i]);
            i = i + 1;
            assert(r@ =~= self.keys@.take(i as int));
        }
        assert(r@ =~= self.keys@);
        r
    }

    /// The number of selected labelled clusters.
    pub fn size(&self) -> (r: u64)
        ensures
            r == self.keys@.len(),
    {
        self.keys.len() as u64
    }

    /// The number of members of each selected cluster, in the order of `keys`.
    pub fn cluster_sizes(&self) -> (r: Vec<u64>)
        requires
            self.wf(),
        ensures
            r@.len() == self.keys@.len(),
            forall|i: int| 0 <= i < r@.len() ==> #[trigger] r@[i] == self.selected()[i].len(),
    {
        let mut r: Vec<u64> = Vec::new();
        let mut i: usize = 0;
        while i < self.pos.len()
            invariant
                self.wf(),
                i <= self.pos@.len(),
                r@.len() == i,
                forall|j: int| 0 <= j < i ==> #[trigger] r@[j] == self.selected()[j].len(),
            decreases self.pos@.len() - i,
        {
            let p = self.pos[i];
            r.push(self.data.clusters[p].nodes.len());
            i = i + 1;
        }
        r
    }

    /// The smallest internal degree of each selected cluster, in the order of `keys`.
    pub fn mcd_column(&self) -> (r: Vec<u64>)
        requires
            self.wf(),
        ensures
            r@.len() == self.keys@.len(),
            forall|i: int| 0 <= i < r@.len() ==> #[trigger] r@[i] == self.data.clusters@[self.pos@[i] as int].mcd,
    {
        let mut r: Vec<u64> = Vec::new();
        let mut i: usize = 0;
        while i < self.pos.len()
            invariant
                self.wf(),
                i <= self.pos@.len(),
                r@.len() == i,
                forall|j: int| 0 <= j < i ==> #[trigger] r@[j] == self.data.clusters@[self.pos@[j] as int].mcd,
            decreases self.pos@.len() - i,
        {
            r.push(self.data.clusters[self.pos[i]].mcd);
            i = i + 1;
        }
        r
    }

    /// The number of nodes held by some selected cluster.
    pub fn covered_nodes(&self) -> (r: u64)
        requires
            self.wf(),
        ensures
            r == union_of(self.selected()).len(),
    {
        self.covered.len()
    }

    /// The number of nodes of the graph.
    pub fn total_nodes(&self) -> (r: usize)
        ensures
            r == self.data.total_nodes,
    {
        self.data.total_nodes
    }

    /// The number of one-node clusters, zero unless they count as selected.
    pub fn num_singletons(&self) -> (r: u64)
        ensures
            r == self.singletons_spec(),
    {
        if self.has_singletons {
            self.data.num_singletons
        } else {
            0
        }
    }

    /// For each covered node, in ascending order, how many selected clusters
    /// hold it; then a one for each one-node cluster that counts as selected.
    pub fn node_multiplicities(&self) -> (r: Vec<u64>)
        requires
            self.wf(),
            self.covered@.len() + self.singletons_spec() <= usize::MAX,
        ensures
            exists|c: Seq<u64>|
                {
                    &&& lists_in_order(c, union_of(self.selected()))
                    &&& r@.len() == c.len() + self.singletons_spec()
                    &&& forall|i: int| 0 <= i < c.len() ==> #[trigger] r@[i] == occurrences(self.selected(), c[i])
                },
            forall|i: int| r@.len() - self.singletons_spec() <= i < r@.len() ==> #[trigger] r@[i] == 1,
            sum_of(r@) == total_size(self.selected()) + self.singletons_spec(),
    {
        let c = self.covered.to_vec();
        let mut r: Vec<u64> = Vec::new();
        let mut i: usize = 0;
        while i < c.len()
            invariant
                self.wf(),
                lists_in_order(c@, self.covered@),
                i <= c@.len(),
                r@.len() == i,
                forall|j: int| 0 <= j < i ==> #[trigger] r@[j] == occurrences(self.selected(), c@[j]),
                sum_of(r@) == occurrence_sum(c@.take(i as int), self.selected()),
            decreases c@.len() - i,
        {
            let x = c[i];
            let ghost before = r@;
            proof {
                crate::bitmap::lemma_union_of_contains(self.selected(), x);
                let t = choose|t: int| 0 <= t < self.selected().len() && (#[trigger] self.selected()[t]).contains(x);
                assert(self.data.clusters@[self.pos@[t] as int].wf(self.data.total_nodes as int));
            }
            r.push(self.multiplicity[x as usize]);
            proof {
                assert(r@.drop_last() =~= before);
                assert(c@.take(i + 1 as int).drop_last() =~= c@.take(i as int));
            }
            i = i + 1;
        }
        proof {
            assert(c@.take(c@.len() as int) =~= c@);
            assert forall|t: int, x: u64| 0 <= t < self.selected().len() && #[trigger] self.selected()[t].contains(x) implies c@.contains(x) by {
                crate::bitmap::lemma_union_of_contains(self.selected(), x);
            }
            lemma_double_count(c@, self.selected());
        }
        let extra = self.num_singletons();
        let mut k: u64 = 0;
        while k < extra
            invariant
                r@.len() == c@.len() + k,
                k <= extra,
                c@.len() + extra <= usize::MAX,
                forall|j: int| 0 <= j < c@.len() ==> #[trigger] r@[j] == occurrences(self.selected(), c@[j]),
                forall|j: int| c@.len() <= j < r@.len() ==> #[trigger] r@[j] == 1,
                sum_of(r@) == total_size(self.selected()) + k,
            decreases extra - k,
        {
            let ghost before = r@;
            r.push(1);
            assert(r@.drop_last() =~= before);
            k = k + 1;
        }
        proof {
            crate::bitmap::lemma_listing_len(c@, self.covered@);
        }
        r
    }

    /// The statistics of the selected cluster with this label.
    pub fn get(&self, label: u32) -> (r: Result<ClusterSkeleton, NotFound>)
        requires
            self.wf(),
        ensures
            r matches Ok(sk) ==> exists|i: int|
                0 <= i < self.keys@.len() && self.keys@[i] == label && sk
                    == self.data.clusters@[#[trigger] self.pos@[i] as int].skeleton_of(),
            r is Err <==> !self.key_set().contains(label),
            r matches Err(e) ==> e == NotFound(label),
    {
        let mut i: usize = 0;
        while i < self.keys.len()
            invariant
                self.wf(),
                i <= self.keys@.len(),
                forall|j: int| 0 <= j < i ==> self.keys@[j] != label,
            decreases self.keys@.len() - i,
        {
            if self.keys[i] == label {
                let p = self.pos[i];
                assert(self.keys@[i as int] == label);
                return Ok(self.data.clusters[p].skeleton());
            }
            i = i + 1;
        }
        Err(NotFound(label))
    }

    /// The size differences, `other` minus `self`, of the clusters whose
    /// labels are among the first `i` keys of `self` and among the keys of
    /// `other`, in ascending label order.
    pub open spec fn size_deltas(&self, other: &ClusteringSubset, i: int) -> Seq<int>
        decreases i,
    {
        if i <= 0 {
            Seq::empty()
        } else {
            let prev = self.size_deltas(other, i - 1);
            let l = self.keys@[i - 1];
            if other.keys@.contains(l) {
                let j = choose|j: int| 0 <= j < other.keys@.len() && other.keys@[j] == l;
                prev.push(other.selected()[j].len() - self.selected()[i - 1].len())
            } else {
                prev
            }
        }
    }

    /// Compares cluster sizes with another selection, pairing clusters by
    /// shared label: the size differences, `other` minus `self`, in ascending
    /// label order, and how many of them are not zero.
    pub fn size_diff(&self, other: &ClusteringSubset) -> (r: (u64, Vec<i128>))
        requires
            self.wf(),
            other.wf(),
        ensures
            r.1@.len() == self.size_deltas(other, self.keys@.len() as int).len(),
            forall|k: int| 0 <= k < r.1@.len() ==> #[trigger] r.1@[k] as int == self.size_deltas(
                other,
                self.keys@.len() as int,
            )[k],
            r.0 == nonzero_count(self.size_deltas(other, self.keys@.len() as int)),
    {
        let mut deltas: Vec<i128> = Vec::new();
        let mut count: u64 = 0;
        let mut j: usize = 0;
        let mut i: usize = 0;
        while i < self.keys.len()
            invariant
                self.wf(),
                other.wf(),
                i <= self.keys@.len(),
                j <= other.keys@.len(),
                i < self.keys@.len() ==> forall|t: int| 0 <= t < j ==> other.keys@[t] < self.keys@[i as int],
                deltas@.len() == self.size_deltas(other, i as int).len(),
                deltas@.len() <= i,
                forall|k: int| 0 <= k < deltas@.len() ==> #[trigger] deltas@[k] as int == self.size_deltas(
                    other,
                    i as int,
                )[k],
                count == nonzero_count(self.size_deltas(other, i as int)),
                count <= i,
            decreases self.keys@.len() - i,
        {
            let key = self.keys[i];
            while j < other.keys.len() && other.keys[j] < key
                invariant
                    other.wf(),
                    j <= other.keys@.len(),
                    forall|t: int| 0 <= t < j ==> other.keys@[t] < key,
                decreases other.keys@.len() - j,
            {
                j = j + 1;
            }
            let ghost prev = self.size_deltas(other, i as int);
            let ghost before = deltas@;
            if j < other.keys.len() && other.keys[j] == key {
                let a = self.data.clusters[self.pos[i]].nodes.len();
                let b = other.data.clusters[other.pos[j]].nodes.len();
                let d = b as i128 - a as i128;
                deltas.push(d);
                if d != 0 {
                    count = count + 1;
                }
                proof {
                    assert(other.keys@.contains(key));
                    let jj = choose|jj: int| 0 <= jj < other.keys@.len() && other.keys@[jj] == key;
                    if jj < j {
                        assert(other.keys@[jj] < key);
                    } else if jj > j {
                        assert(other.keys@[j as int] < other.keys@[jj]);
                    }
                    assert(self.size_deltas(other, i + 1 as int) == prev.push(d as int));
                    assert(prev.push(d as int).drop_last() =~= prev);
                }
            } else {
                proof {
                    assert(!other.keys@.contains(key)) by {
                        if other.keys@.contains(key) {
                            let jj = choose|jj: int| 0 <= jj < other.keys@.len() && other.keys@[jj] == key;
                            if jj < j {
                                assert(other.keys@[jj] < key);
                            } else {
                                assert(other.keys@[j as int] <= other.keys@[jj]);
                            }
                        }
                    }
                }
            }
            proof {
                if i + 1 < self.keys@.len() {
                    assert(self.keys@[i as int] < self.keys@[i + 1]);
                }
            }
            i = i + 1;
        }
        (count, deltas)
    }

    /// Builds the view of the clusters whose labels are in `labels`, each of
    /// which must label a cluster of `data`.
    fn build(data: Arc<ClusteringData>, labels: &BitmapSet, has_singletons: bool) -> (r: ClusteringSubset)
        requires
            data.wf(),
            labels.wf(),
            forall|x: u64| labels@.contains(x) ==> x <= u32::MAX && data.has_label(x as u32),
        ensures
            r.wf(),
            *r.data == *data,
            r.has_singletons == has_singletons,
            forall|l: u32| r.key_set().contains(l) <==> labels@.contains(l as u64),
    {
        let ls = labels.to_vec();
        let mut keys: Vec<u32> = Vec::new();
        let mut pos: Vec<usize> = Vec::new();
        let mut sets: Vec<BitmapSet> = Vec::new();
        let mut i: usize = 0;
        while i < ls.len()
            invariant
                data.wf(),
                lists_in_order(ls@, labels@),
                forall|x: u64| labels@.contains(x) ==> x <= u32::MAX && data.has_label(x as u32),
                i <= ls.len(),
                keys@.len() == i,
                pos@.len() == i,
                sets@.len() == i,
                forall|a: int| 0 <= a < i ==> #[trigger] keys@[a] as u64 == ls@[a],
                forall|a: int|
                    0 <= a < i ==> #[trigger] pos@[a] < data.clusters@.len()
                        && data.clusters@[pos@[a] as int].label == keys@[a],
                forall|a: int|
                    0 <= a < i ==> (#[trigger] sets@[a]).wf() && sets@[a]@
                        == data.clusters@[pos@[a] as int].nodes@,
            decreases ls.len() - i,
        {
            let label = ls[i];
            assert(labels@.contains(label));
            let label = label as u32;
            let p = data.position(label);
            match p {
                Some(p) => {
                    keys.push(label);
                    pos.push(p);
                    assert(data.clusters@[p as int].wf(data.total_nodes as int));
                    sets.push(data.clusters[p].nodes.duplicate());
                },
                None => {
                    proof {
                        assert(false);
                    }
                },
            }
            i = i + 1;
        }
        let covered = BitmapSet::union_all(&sets);
        let ghost sel = Seq::new(pos@.len(), |a: int| data.clusters@[pos@[a] as int].nodes@);
        assert(views(sets@) =~= sel);
        let total = data.total_nodes;
        let mut mult: Vec<u64> = Vec::new();
        let mut x: usize = 0;
        while x < total
            invariant
                x <= total,
                mult@.len() == x,
                forall|y: int| 0 <= y < x ==> #[trigger] mult@[y] == 0,
            decreases total - x,
        {
            mult.push(0);
            x = x + 1;
        }
        let mut k: usize = 0;
        while k < sets.len()
            invariant
                data.wf(),
                total == data.total_nodes,
                sets@.len() == pos@.len(),
                sel == Seq::new(pos@.len(), |a: int| data.clusters@[pos@[a] as int].nodes@),
                forall|a: int| 0 <= a < sets@.len() ==> (#[trigger] sets@[a]).wf() && sets@[a]@ == sel[a],
                forall|a: int| 0 <= a < pos@.len() ==> #[trigger] pos@[a] < data.clusters@.len(),
                k <= sets@.len(),
                mult@.len() == total,
                forall|y: int| 0 <= y < total ==> #[trigger] mult@[y] == occurrences(sel.take(k as int), y as u64),
            decreases sets@.len() - k,
        {
            let members = sets[k].to_vec();
            assert(data.clusters@[pos@[k as int] as int].wf(total as int));
            let mut j: usize = 0;
            while j < members.len()
                invariant
                    total == data.total_nodes,
                    lists_in_order(members@, sel[k as int]),
                    forall|z: u64| sel[k as int].contains(z) ==> z < total,
                    k < sets.len(),
                    sets@.len() == sel.len(),
                    j <= members@.len(),
                    mult@.len() == total,
                    forall|y: int| 0 <= y < total ==> #[trigger] mult@[y] == occurrences(sel.take(k as int), y as u64)
                        + if listed_before(members@, j as int, y as u64) { 1nat } else { 0nat },
                decreases members@.len() - j,
            {
                let y = members[j] as usize;
                assert(sel[k as int].contains(members@[j as int]));
                proof {
                    assert forall|z: int| 0 <= z < total implies (#[trigger] listed_before(members@, j + 1, z as u64)
                        <==> (listed_before(members@, j as int, z as u64) || z == y)) by {
                        if z == y {
                            assert(members@[j as int] == z as u64);
                        }
                    }
                    assert(!listed_before(members@, j as int, y as u64)) by {
                        if listed_before(members@, j as int, y as u64) {
                            let t = choose|t: int| 0 <= t < j && #[trigger] members@[t] == y as u64;
                            assert(members@[t] < members@[j as int]);
                        }
                    }
                }
                proof {
                    lemma_occurrences_bound(sel.take(k as int), y as u64);
                }
                assert(y < total);
                assert(mult@[y as int] == occurrences(sel.take(k as int), y as u64));
                let cur = mult[y];
                assert(sel.take(k as int).len() == k);
                assert(cur <= k);
                mult.set(y, cur + 1);
                j = j + 1;
            }
            proof {
                assert(sel.take(k + 1 as int).drop_last() =~= sel.take(k as int));
                assert forall|y: int| 0 <= y < total implies #[trigger] mult@[y] == occurrences(sel.take(k + 1 as int), y as u64) by {
                    assert(listed_before(members@, members@.len() as int, y as u64) <==> sel[k as int].contains(y as u64));
                }
            }
            k = k + 1;
        }
        assert(sel.take(sets@.len() as int) =~= sel);
        let r = ClusteringSubset { data, keys, pos, has_singletons, covered, multiplicity: mult };
        proof {
            assert(r.selected() =~= sel);
            assert forall|l: u32| r.key_set().contains(l) <==> labels@.contains(l as u64) by {
                if labels@.contains(l as u64) {
                    let t = choose|t: int| 0 <= t < ls@.len() && ls@[t] == l as u64;
                    assert(r.keys@[t] == l);
                }
                if r.key_set().contains(l) {
                    let t = choose|t: int| 0 <= t < r.keys@.len() && r.keys@[t] == l;
                    assert(ls@[t] == l as u64);
                }
            }
        }
        r
    }
}

/// Coverage lies between none and all of the graph's nodes: a selection covers
/// at most `total_nodes` nodes, and exactly that many when its cover is the
/// full node set.
pub proof fn lemma_coverage_bounds(sub: ClusteringSubset)
    requires
        sub.wf(),
    ensures
        union_of(sub.selected()).len() <= sub.data.total_nodes,
        union_of(sub.selected()) == Set::new(|x: u64| x < sub.data.total_nodes) ==> union_of(
            sub.selected(),
        ).len() == sub.data.total_nodes,
{
    let total = sub.data.total_nodes as u64;
    let all = <u64 as vstd::set_lib::FiniteRange>::range_set(0, total);
    <u64 as vstd::set_lib::FiniteRange>::range_properties(0, total);
    let u = union_of(sub.selected());
    assert forall|x: u64| u.contains(x) implies all.contains(x) by {
        crate::bitmap::lemma_union_of_contains(sub.selected(), x);
        let t = choose|t: int| 0 <= t < sub.selected().len() && (#[trigger] sub.selected()[t]).contains(x);
        assert(sub.data.clusters@[sub.pos@[t] as int].wf(sub.data.total_nodes as int));
    }
    vstd::set_lib::lemma_len_subset(u, all);
    if u == Set::new(|x: u64| x < sub.data.total_nodes) {
        assert(u =~= all);
    }
}

} // verus!
