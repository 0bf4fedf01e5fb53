use belinda_core::bitmap::{rust_bitmap_union, rust_popcnt, BitmapSet, DecodeError};
use belinda_core::clustering::{
    Cluster, ClusterSkeleton, Clustering, ClusteringError, FilterError, NotFound,
};
use belinda_core::graph::{Graph, GraphError};
use belinda_core::metrics::{
    covered_num_nodes, cpm_inputs, modularity_inputs, pair_count, volume, MetricError,
};

fn set(v: &[u64]) -> BitmapSet {
    BitmapSet::from_sorted(&v.to_vec()).unwrap()
}

fn ring4() -> Graph {
    Graph::from_adjacency(vec![vec![1, 3], vec![0, 2], vec![1, 3], vec![0, 2]]).unwrap()
}

fn cluster(label: u32, nodes: &[u64], m: u64, c: u64, mcd: u64) -> Cluster {
    Cluster {
        label,
        n: nodes.len() as u64,
        m,
        c,
        mcd,
        vol: 2 * m + c,
        nodes: set(nodes),
    }
}

/// Two overlapping clusters {0,1,2} and {2,3}, one disjoint {5,6}, over 8 nodes.
fn sample_clustering(singletons: u64) -> Clustering {
    Clustering::new(
        vec![
            cluster(10, &[0, 1, 2], 3, 1, 2),
            cluster(20, &[2, 3], 1, 2, 1),
            cluster(30, &[5, 6], 1, 0, 1),
        ],
        singletons,
        8,
    )
    .unwrap()
}

#[test]
fn union_of_disjoint_sets_adds_cardinalities() {
    let a = set(&[1, 2, 3]);
    let b = set(&[10, 20]);
    let u = BitmapSet::union_all(&vec![a, b]);
    assert_eq!(u.len(), 5);
}

#[test]
fn union_of_overlapping_sets_counts_shared_once() {
    let a = set(&[1, 2, 3]);
    let b = set(&[2, 3, 4, 5]);
    let u = BitmapSet::union_all(&vec![a, b]);
    assert_eq!(u.len(), 5);
    assert_eq!(u.to_vec(), vec![1, 2, 3, 4, 5]);
    assert!(u.is_compact());
}

#[test]
fn union_is_order_independent() {
    let u1 = BitmapSet::union_all(&vec![set(&[1, 7]), set(&[3]), set(&[7, 9])]);
    let u2 = BitmapSet::union_all(&vec![set(&[7, 9]), set(&[1, 7]), set(&[3])]);
    assert_eq!(u1.to_vec(), u2.to_vec());
}

#[test]
fn union_of_empty_column_is_empty() {
    let u = BitmapSet::union_all(&vec![]);
    assert_eq!(u.len(), 0);
    assert!(u.to_vec().is_empty());
}

#[test]
fn union_with_a_wide_set_is_wide() {
    let big = 5_000_000_000u64;
    let u = BitmapSet::union_all(&vec![set(&[1, 2]), set(&[2, big])]);
    assert!(!u.is_compact());
    assert_eq!(u.to_vec(), vec![1, 2, big]);
    assert!(u.contains(big));
    assert!(!u.contains(3));
}

#[test]
fn insert_widens_only_when_needed() {
    let mut s = BitmapSet::new();
    s.insert(4);
    s.insert(4);
    assert!(s.is_compact());
    assert_eq!(s.len(), 1);
    s.insert(u32::MAX as u64 + 1);
    assert!(!s.is_compact());
    assert_eq!(s.to_vec(), vec![4, u32::MAX as u64 + 1]);
}

#[test]
fn row_round_trip_compact() {
    let s = set(&[0, 3, 17, 4_000_000_000]);
    assert!(s.is_compact());
    let row = s.to_row();
    assert_eq!(row, vec![0, 3, 17, 4_000_000_000]);
    let back = BitmapSet::from_sorted(&row).unwrap();
    assert!(back.is_compact());
    assert_eq!(back.to_vec(), s.to_vec());
    assert_eq!(back.len(), s.len());
}

#[test]
fn row_round_trip_wide() {
    let s = set(&[2, 1 << 40, (1 << 40) + 1]);
    assert!(!s.is_compact());
    let back = BitmapSet::from_sorted(&s.to_row()).unwrap();
    assert!(!back.is_compact());
    assert_eq!(back.to_vec(), s.to_vec());
    assert_eq!(back.len(), 3);
}

#[test]
fn decoding_rejects_unsorted_rows() {
    assert_eq!(
        BitmapSet::from_sorted(&vec![1, 5, 5]).err(),
        Some(DecodeError::NotAscending(2))
    );
    assert_eq!(
        BitmapSet::from_sorted(&vec![9, 2]).err(),
        Some(DecodeError::NotAscending(1))
    );
}

#[test]
fn duplicate_keeps_members() {
    let s = set(&[4, 8]);
    let d = s.duplicate();
    assert_eq!(d.to_vec(), vec![4, 8]);
    let w = s.widen();
    assert!(!w.is_compact());
    assert_eq!(w.to_vec(), vec![4, 8]);
}

#[test]
fn edges_of_full_ring_cover_all_indices() {
    let g = ring4();
    assert_eq!(g.n(), 4);
    assert_eq!(g.m(), 4);
    let e = g.edgeset(&set(&[0, 1, 2, 3]));
    assert!(!e.is_compact());
    assert_eq!(e.to_vec(), vec![0, 1, 2, 3]);
}

#[test]
fn edges_of_empty_and_singleton_sets_are_empty() {
    let g = ring4();
    assert_eq!(g.edgeset(&BitmapSet::new()).len(), 0);
    assert_eq!(g.edgeset(&set(&[2])).len(), 0);
}

#[test]
fn edges_of_partial_set_use_owner_offsets() {
    // Edges by owner: 0 -> {0-1: 0, 0-3: 1}, 1 -> {1-2: 2}, 2 -> {2-3: 3}.
    let g = ring4();
    assert_eq!(g.edgeset(&set(&[0, 1, 2])).to_vec(), vec![0, 2]);
    assert_eq!(g.edgeset(&set(&[2, 3])).to_vec(), vec![3]);
    assert_eq!(g.edgeset(&set(&[0, 2])).to_vec(), Vec::<u64>::new());
}

#[test]
fn graph_rejects_unknown_neighbours() {
    let r = Graph::from_adjacency(vec![vec![1], vec![0, 5]]);
    assert_eq!(r.err(), Some(GraphError::UnknownNeighbour(1, 1)));
}

#[test]
fn modularity_of_whole_ring_is_zero() {
    let m = vec![Some(4u64)];
    let c = vec![Some(0u64)];
    let rows = modularity_inputs(Some(&m), Some(&c)).unwrap();
    assert_eq!(rows, vec![(4, 8)]);
    let total = 4.0f64;
    let (mi, vol) = rows[0];
    let q = mi as f64 / total - 1.0 * (vol as f64 / (2.0 * total)).powi(2);
    assert_eq!(q, 0.0);
}

#[test]
fn cpm_of_four_nodes_three_edges() {
    let n = vec![Some(4u32)];
    let m = vec![Some(3u64)];
    let rows = cpm_inputs(Some(&n), Some(&m)).unwrap();
    assert_eq!(rows, vec![(3, 6)]);
    let score = rows[0].0 as f64 - 1.0 * rows[0].1 as f64;
    assert_eq!(score, -3.0);
}

#[test]
fn pair_count_and_volume() {
    assert_eq!(pair_count(0), 0);
    assert_eq!(pair_count(1), 0);
    assert_eq!(pair_count(2), 1);
    assert_eq!(pair_count(4), 6);
    assert_eq!(pair_count(u64::MAX), (u64::MAX as u128) * (u64::MAX as u128 - 1) / 2);
    assert_eq!(volume(3, 4), Some(10));
    assert_eq!(volume(u64::MAX / 2, 2), None);
}

#[test]
fn metrics_fail_on_missing_data() {
    let m = vec![Some(1u64), None];
    let c = vec![Some(0u64), Some(1)];
    assert_eq!(modularity_inputs(Some(&m), Some(&c)), Err(MetricError::MissingValue(1)));
    assert_eq!(modularity_inputs(None, Some(&c)), Err(MetricError::MissingColumn));
    let short = vec![Some(0u64)];
    assert_eq!(modularity_inputs(Some(&short), Some(&c)), Err(MetricError::LengthMismatch));
    let big = vec![Some(u64::MAX)];
    assert_eq!(modularity_inputs(Some(&big), Some(&short)), Err(MetricError::Overflow(0)));
    let n = vec![None, Some(2u32)];
    assert_eq!(cpm_inputs(Some(&n), Some(&c)), Err(MetricError::MissingValue(0)));
    assert_eq!(cpm_inputs(Some(&n), None), Err(MetricError::MissingColumn));
}

#[test]
fn covered_num_nodes_prefers_member_sets() {
    let sets = vec![set(&[0, 1, 2]), set(&[2, 3])];
    let n = vec![Some(3u32), Some(2)];
    assert_eq!(covered_num_nodes(Some(&sets), Some(&n)), Ok(4));
    assert_eq!(covered_num_nodes(None, Some(&n)), Ok(5));
    assert_eq!(covered_num_nodes(None, None), Err(MetricError::MissingColumn));
    let gap = vec![Some(1u32), None];
    assert_eq!(covered_num_nodes(None, Some(&gap)), Err(MetricError::MissingValue(1)));
}

#[test]
fn clustering_validates_clusters() {
    let dup = Clustering::new(vec![cluster(1, &[0], 0, 1, 0), cluster(1, &[1], 0, 1, 0)], 0, 4);
    assert_eq!(dup.err(), Some(ClusteringError::DuplicateLabel(1)));
    let outside = Clustering::new(vec![cluster(1, &[0, 9], 1, 0, 1)], 0, 4);
    assert_eq!(outside.err(), Some(ClusteringError::UnknownNode(1)));
    let mut bad = cluster(1, &[0, 1], 1, 0, 1);
    bad.vol = 5;
    let r = Clustering::new(vec![bad], 0, 4);
    assert_eq!(r.err(), Some(ClusteringError::InconsistentStatistics(1)));
    assert_eq!(sample_clustering(0).size(), 3);
}

#[test]
fn select_by_labels() {
    let clus = sample_clustering(2);
    let sub = clus.select(&vec![20, 10, 20]).unwrap();
    assert_eq!(sub.keys(), vec![10, 20]);
    assert_eq!(sub.size(), 2);
    assert_eq!(sub.cluster_sizes(), vec![3, 2]);
    assert_eq!(sub.covered_nodes(), 4);
    assert_eq!(sub.num_singletons(), 0);
    assert_eq!(sub.node_multiplicities(), vec![1, 1, 2, 1]);
    assert_eq!(clus.select(&vec![10, 99]).err(), Some(NotFound(99)));
}

#[test]
fn multiplicities_sum_to_cluster_sizes() {
    let clus = sample_clustering(3);
    let sub = clus.select(&vec![10, 20, 30]).unwrap();
    let total: u64 = sub.node_multiplicities().iter().sum();
    let sizes: u64 = sub.cluster_sizes().iter().sum();
    assert_eq!(total, sizes);
    let with = clus.filter(|_sk: ClusterSkeleton| Ok(true)).unwrap();
    assert_eq!(with.num_singletons(), 3);
    let total: u64 = with.node_multiplicities().iter().sum();
    assert_eq!(total, sizes + 3);
    assert_eq!(with.node_multiplicities(), vec![1, 1, 2, 1, 1, 1, 1, 1, 1]);
}

#[test]
fn filter_by_statistics() {
    let clus = sample_clustering(5);
    let sub = clus.filter(|sk: ClusterSkeleton| Ok(sk.n >= 2 && sk.m >= 1)).unwrap();
    assert_eq!(sub.keys(), vec![10, 20, 30]);
    assert_eq!(sub.num_singletons(), 0);
    let sub = clus.filter(|sk: ClusterSkeleton| Ok(sk.c >= 1)).unwrap();
    assert_eq!(sub.keys(), vec![10, 20]);
    let sub = clus.filter(|sk: ClusterSkeleton| Ok(sk.m <= 1)).unwrap();
    assert_eq!(sub.keys(), vec![20, 30]);
    assert_eq!(sub.num_singletons(), 5);
}

#[test]
fn filter_failure_aborts() {
    let clus = sample_clustering(0);
    let r = clus.filter(|sk: ClusterSkeleton| if sk.n == 1 { Err(FilterError) } else { Ok(true) });
    assert_eq!(r.err(), Some(FilterError));
}

#[test]
fn lookup_in_selection() {
    let clus = sample_clustering(0);
    let sub = clus.select(&vec![20]).unwrap();
    assert_eq!(
        sub.get(20),
        Ok(ClusterSkeleton { n: 2, m: 1, c: 2, mcd: 1, vol: 4 })
    );
    assert_eq!(sub.get(10), Err(NotFound(10)));
    assert_eq!(ClusterSkeleton::singleton(), ClusterSkeleton { n: 1, m: 0, c: 0, mcd: 0, vol: 0 });
}

#[test]
fn coverage_counts() {
    let full = Clustering::new(vec![cluster(1, &[0, 1], 1, 1, 1), cluster(2, &[2, 3], 1, 1, 1)], 0, 4)
        .unwrap();
    let sub = full.select(&vec![1, 2]).unwrap();
    assert_eq!(sub.covered_nodes(), 4);
    assert_eq!(sub.total_nodes(), 4);
    let part = full.select(&vec![2]).unwrap();
    assert_eq!(part.covered_nodes(), 2);
    assert!(part.covered_nodes() <= part.total_nodes() as u64);
}

#[test]
fn size_diff_pairs_by_label() {
    let a = Clustering::new(
        vec![cluster(1, &[0, 1], 1, 0, 1), cluster(2, &[2, 3, 4], 2, 0, 1), cluster(3, &[5], 0, 0, 0)],
        0,
        8,
    )
    .unwrap();
    let b = Clustering::new(
        vec![cluster(2, &[2, 3], 1, 0, 1), cluster(3, &[5], 0, 0, 0), cluster(4, &[6, 7], 1, 0, 1)],
        0,
        8,
    )
    .unwrap();
    let sa = a.select(&vec![1, 2, 3]).unwrap();
    let sb = b.select(&vec![2, 3, 4]).unwrap();
    let (count, deltas) = sa.size_diff(&sb);
    assert_eq!(deltas, vec![-1, 0]);
    assert_eq!(count, 1);
    let (count, deltas) = sb.size_diff(&sa);
    assert_eq!(deltas, vec![1, 0]);
    assert_eq!(count, 1);
}

#[test]
fn popcnt_and_column_union() {
    let col = vec![set(&[1, 2, 3]), BitmapSet::new(), set(&[3, 1 << 33])];
    assert_eq!(rust_popcnt(&col), vec![3, 0, 2]);
    let u = rust_bitmap_union(&col);
    assert_eq!(u.len(), 1);
    assert_eq!(u[0].to_vec(), vec![1, 2, 3, 1 << 33]);
}

#[test]
fn covered_edges_per_row() {
    let g = ring4();
    let rows = g.covered_edges(&vec![set(&[0, 1]), set(&[1, 2, 3]), set(&[3])]);
    assert_eq!(rows.len(), 3);
    assert_eq!(rows[0].to_vec(), vec![0]);
    assert_eq!(rows[1].to_vec(), vec![2, 3]);
    assert_eq!(rows[2].len(), 0);
}

#[test]
fn cluster_table_and_mcd_column() {
    let clus = sample_clustering(0);
    let t = clus.table();
    assert_eq!(t.label, vec![10, 20, 30]);
    assert_eq!(t.n, vec![3, 2, 2]);
    assert_eq!(t.m, vec![3, 1, 1]);
    assert_eq!(t.c, vec![1, 2, 0]);
    assert_eq!(t.mcd, vec![2, 1, 1]);
    assert_eq!(t.nodes[1].to_vec(), vec![2, 3]);
    let sub = clus.select(&vec![30, 10]).unwrap();
    assert_eq!(sub.mcd_column(), vec![2, 1]);
}
