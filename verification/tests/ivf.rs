use khadyota::indexing::ivf::IVFIndex;
use khadyota::indexing::posting::is_partition_of;
use khadyota::indexing::stats::sorted_sizes;

fn bits(v: &[f32]) -> Vec<u32> {
    v.iter().map(|x| x.to_bits()).collect()
}

/// Rows of distances whose first least entry is at the cluster wanted.
fn rows_for(assignments: &[usize], clusters: usize) -> Vec<Vec<u32>> {
    assignments
        .iter()
        .map(|&a| (0..clusters).map(|c| if c == a { 0.5f32 } else { 2.0 }.to_bits()).collect())
        .collect()
}

fn built() -> IVFIndex {
    let mut index = IVFIndex::new(2, 3, 2);
    let centroids = vec![bits(&[0.0, 0.0]), bits(&[10.0, 0.0]), bits(&[0.0, 10.0])];
    index.build(centroids, &rows_for(&[2, 0, 0, 1, 2, 0, 2], 3));
    index
}

#[test]
fn a_new_index_has_empty_lists() {
    let index = IVFIndex::new(128, 10, 3);
    assert!(index.centroids().is_empty());
    assert_eq!(index.inverted_lists(), &vec![Vec::<u32>::new(); 10]);
    assert_eq!(index.num_probe(), 3);
    assert_eq!(index.dimensions(), 128);
    let stats = index.stats();
    assert_eq!(stats.num_clusters, 0);
    assert_eq!(stats.total_vectors, 0);
    assert_eq!(stats.non_empty_clusters, 0);
    assert_eq!(stats.min_cluster_size, 0);
    assert_eq!(stats.median_cluster_size, 0);
    assert_eq!(stats.max_cluster_size, 0);
    assert_eq!(stats.num_probe, 3);
}

#[test]
fn build_files_every_vector_once() {
    let index = built();
    assert_eq!(index.inverted_lists(), &vec![vec![1u32, 2, 5], vec![3], vec![0, 4, 6]]);
    assert_eq!(index.centroids().len(), 3);
    let total: usize = index.inverted_lists().iter().map(|l| l.len()).sum();
    assert_eq!(total, 7);
    let mut all: Vec<u32> = index.inverted_lists().iter().flatten().cloned().collect();
    all.sort();
    assert_eq!(all, vec![0, 1, 2, 3, 4, 5, 6]);
}

#[test]
fn probe_returns_the_nearest_clusters_nearest_first() {
    let index = built();
    assert_eq!(index.probe(&bits(&[5.0, 1.0, 3.0])), vec![1, 2]);
    assert_eq!(index.probe(&bits(&[0.5, 1.0, 3.0])), vec![0, 1]);
    assert_eq!(index.probe(&bits(&[9.0, 8.0, 7.0])), vec![2, 1]);
}

#[test]
fn probe_breaks_ties_by_the_lower_cluster() {
    let index = built();
    assert_eq!(index.probe(&bits(&[2.0, 2.0, 2.0])), vec![0, 1]);
    assert_eq!(index.probe(&bits(&[3.0, 2.0, 2.0])), vec![1, 2]);
}

#[test]
fn find_nearest_cluster_is_the_first_of_the_nearest() {
    let index = built();
    assert_eq!(index.find_nearest_cluster(&bits(&[5.0, 1.0, 3.0])), 1);
    assert_eq!(index.find_nearest_cluster(&bits(&[1.0, 1.0, 3.0])), 0);
    assert_eq!(index.find_nearest_cluster(&bits(&[4.0, 4.0, 3.0])), 2);
}

#[test]
fn candidates_are_the_lists_in_probe_order() {
    let index = built();
    assert_eq!(index.get_candidates(&vec![2, 0]), vec![0, 4, 6, 1, 2, 5]);
    assert_eq!(index.get_candidates(&vec![1]), vec![3]);
    assert_eq!(index.get_candidates(&vec![1, 1]), vec![3, 3]);
    assert!(index.get_candidates(&Vec::new()).is_empty());
    let probed = index.probe(&bits(&[5.0, 1.0, 3.0]));
    assert_eq!(index.get_candidates(&probed), vec![3, 0, 4, 6]);
}

#[test]
fn num_probe_is_clamped_to_the_clusters() {
    let mut index = built();
    index.set_num_probe(100);
    assert_eq!(index.num_probe(), 3);
    assert_eq!(index.probe(&bits(&[5.0, 1.0, 3.0])), vec![1, 2, 0]);
    index.set_num_probe(0);
    assert_eq!(index.num_probe(), 1);
    index.set_num_probe(2);
    assert_eq!(index.num_probe(), 2);
    index.set_num_probe(3);
    assert_eq!(index.num_probe(), 3);
    assert_eq!(IVFIndex::new(4, 5, 9).num_probe(), 5);
    assert_eq!(IVFIndex::new(4, 5, 0).num_probe(), 1);
    assert_eq!(IVFIndex::new(4, 0, 7).num_probe(), 0);
}

#[test]
fn stats_describe_the_lists() {
    let index = built();
    let stats = index.stats();
    assert_eq!(stats.num_clusters, 3);
    assert_eq!(stats.total_vectors, 7);
    assert_eq!(stats.non_empty_clusters, 3);
    assert_eq!(stats.min_cluster_size, 1);
    assert_eq!(stats.median_cluster_size, 3);
    assert_eq!(stats.max_cluster_size, 3);
    assert_eq!(stats.num_probe, 2);
    assert_eq!(
        stats.to_text(),
        "IVF Index Stats:\n- Clusters: 3 (3 non-empty)\n- Total vectors: 7\n- Cluster sizes: min=1, median=3, max=3\n- Probe: 2 clusters per query"
    );
}

#[test]
fn stats_count_empty_clusters_and_take_the_upper_median() {
    let mut index = IVFIndex::new(1, 4, 1);
    let centroids = vec![bits(&[0.0]), bits(&[1.0]), bits(&[2.0]), bits(&[3.0])];
    index.build(centroids, &rows_for(&[3, 3, 3, 1, 3, 1], 4));
    let stats = index.stats();
    assert_eq!(stats.num_clusters, 4);
    assert_eq!(stats.total_vectors, 6);
    assert_eq!(stats.non_empty_clusters, 2);
    assert_eq!(stats.min_cluster_size, 0);
    assert_eq!(stats.median_cluster_size, 2);
    assert_eq!(stats.max_cluster_size, 4);
}

#[test]
fn sizes_are_sorted_ascending() {
    assert_eq!(sorted_sizes(&vec![5, 1, 4, 1, 3]), vec![1, 1, 3, 4, 5]);
    assert!(sorted_sizes(&Vec::new()).is_empty());
}

#[test]
fn an_index_is_made_of_parts_that_fit() {
    let index = built();
    let copy = IVFIndex::from_parts(
        index.centroids().clone(),
        index.inverted_lists().clone(),
        index.num_probe(),
        index.dimensions(),
    )
    .unwrap();
    assert_eq!(copy.inverted_lists(), index.inverted_lists());
    assert_eq!(copy.centroids(), index.centroids());
    assert_eq!(copy.probe(&bits(&[5.0, 1.0, 3.0])), vec![1, 2]);
    // a probe width beyond the clusters
    assert!(IVFIndex::from_parts(
        index.centroids().clone(),
        index.inverted_lists().clone(),
        4,
        2
    )
    .is_none());
    // fewer centroids than lists
    assert!(IVFIndex::from_parts(vec![bits(&[0.0, 0.0])], index.inverted_lists().clone(), 2, 2)
        .is_none());
    // a centroid of another length
    assert!(IVFIndex::from_parts(
        index.centroids().clone(),
        index.inverted_lists().clone(),
        2,
        3
    )
    .is_none());
}

#[test]
fn an_index_needs_lists_that_file_every_vector_once() {
    let centroids = || vec![bits(&[0.0, 0.0]), bits(&[10.0, 0.0]), bits(&[0.0, 10.0])];
    let made = |lists: Vec<Vec<u32>>| IVFIndex::from_parts(centroids(), lists, 2, 2);
    assert!(made(vec![vec![1, 2, 5], vec![3], vec![0, 4, 6]]).is_some());
    assert!(made(vec![vec![], vec![], vec![]]).is_some());
    // an id is missing
    assert!(made(vec![vec![1, 2, 5], vec![], vec![0, 4, 6]]).is_none());
    // an id is filed twice
    assert!(made(vec![vec![1, 2, 5], vec![3, 5], vec![0, 4]]).is_none());
    assert!(made(vec![vec![1, 2, 2], vec![3], vec![0]]).is_none());
    // an id beyond the vectors
    assert!(made(vec![vec![1, 2, 7], vec![3], vec![0, 4, 6]]).is_none());
    // a list out of order
    assert!(made(vec![vec![2, 1, 5], vec![3], vec![0, 4, 6]]).is_none());
}

#[test]
fn lists_are_recognised_as_a_partition() {
    assert!(is_partition_of(&vec![vec![0, 3], vec![1, 2]]));
    assert!(is_partition_of(&Vec::new()));
    assert!(is_partition_of(&vec![Vec::new()]));
    assert!(is_partition_of(&vec![vec![0]]));
    assert!(!is_partition_of(&vec![vec![1]]));
    assert!(!is_partition_of(&vec![vec![0, 0]]));
    assert!(!is_partition_of(&vec![vec![0], vec![0]]));
    assert!(!is_partition_of(&vec![vec![1, 0]]));
    assert!(!is_partition_of(&vec![vec![0, 2], vec![3]]));
}

#[test]
fn an_index_needs_centroids_that_are_numbers() {
    let lists = || vec![vec![0u32], vec![1]];
    let made = |x: f32| {
        IVFIndex::from_parts(vec![bits(&[0.0, 0.0]), bits(&[1.0, x])], lists(), 1, 2)
    };
    assert!(made(2.0).is_some());
    assert!(made(f32::NAN).is_none());
    assert!(made(f32::INFINITY).is_none());
    assert!(made(f32::NEG_INFINITY).is_none());
}

#[test]
fn an_index_counts_the_vectors_filed() {
    let index = built();
    assert_eq!(index.len(), 7);
    assert!(!index.is_empty());
    let fresh = IVFIndex::new(2, 3, 1);
    assert_eq!(fresh.len(), 0);
    assert!(fresh.is_empty());
}

#[test]
fn vectors_are_filed_one_by_one_under_the_nearest_centroid() {
    let mut index = IVFIndex::new(1, 5, 2);
    index.begin(vec![bits(&[0.0]), bits(&[5.0]), bits(&[9.0])]);
    assert_eq!(index.centroids().len(), 3);
    assert_eq!(index.inverted_lists(), &vec![Vec::<u32>::new(); 3]);
    assert_eq!(index.num_probe(), 2);
    assert_eq!(index.file(&bits(&[4.0, 1.0, 5.0])), 1);
    assert_eq!(index.file(&bits(&[0.5, 4.5, 8.5])), 0);
    assert_eq!(index.file(&bits(&[8.0, 3.0, 1.0])), 2);
    // equally near: the first
    assert_eq!(index.file(&bits(&[2.5, 2.5, 6.5])), 0);
    assert_eq!(index.file(&bits(&[7.0, 2.0, 2.0])), 1);
    assert_eq!(index.inverted_lists(), &vec![vec![1u32, 3], vec![0, 4], vec![2]]);
    assert_eq!(index.len(), 5);
    // beginning anew empties the lists
    index.begin(vec![bits(&[1.0]), bits(&[2.0])]);
    assert_eq!(index.inverted_lists(), &vec![Vec::<u32>::new(); 2]);
    assert!(index.is_empty());
}

#[test]
fn build_files_by_the_first_least_entry_of_each_row() {
    let mut index = IVFIndex::new(1, 2, 1);
    let rows = vec![bits(&[3.0, 1.0]), bits(&[1.0, 1.0]), bits(&[0.0, -1.0]), bits(&[-0.0, 0.0])];
    index.build(vec![bits(&[0.0]), bits(&[1.0])], &rows);
    assert_eq!(index.inverted_lists(), &vec![vec![1u32, 3], vec![0, 2]]);
}
