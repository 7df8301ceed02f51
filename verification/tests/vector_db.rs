use khadyota::config::{Config, DistanceMetric};
use khadyota::error::KhadyotaError;
use khadyota::indexing::ivf::IVFIndex;
use khadyota::quantization::codebook::Codebook;
use khadyota::quantization::product_quantization::PQCodec;
use khadyota::storage::quantized::QuantizedVectors;
use khadyota::vector_db::{ScoredQuery, VectorDB};
use std::collections::HashMap;

fn bits(v: &[f32]) -> Vec<u32> {
    v.iter().map(|x| x.to_bits()).collect()
}

fn plain_config() -> Config {
    Config {
        dimensions: 2,
        metric: DistanceMetric::Euclidean,
        use_pq: false,
        pq_subvectors: 8,
        num_clusters: 2,
        num_probe: 1,
    }
}

fn pq_config() -> Config {
    Config { use_pq: true, pq_subvectors: 2, ..plain_config() }
}

fn filled(config: Config) -> VectorDB {
    let mut db = VectorDB::new(config).unwrap();
    db.insert(bits(&[0.0, 0.0]), Some(serde_json::Value::from("origin"))).unwrap();
    db.insert(bits(&[0.1, 0.1]), None).unwrap();
    db.insert(bits(&[10.0, 10.0]), Some(serde_json::Value::from(3))).unwrap();
    db.insert(bits(&[10.1, 10.1]), None).unwrap();
    db
}

fn centroids() -> Vec<Vec<u32>> {
    vec![bits(&[0.05, 0.05]), bits(&[10.05, 10.05])]
}

/// A partition under the two centroids that files vector `i` under
/// `assignments[i]`.
fn partition(assignments: &[usize]) -> IVFIndex {
    let mut index = IVFIndex::new(2, 2, 1);
    index.begin(centroids());
    for &a in assignments {
        let row = if a == 0 { bits(&[1.0, 2.0]) } else { bits(&[2.0, 1.0]) };
        assert_eq!(index.file(&row), a);
    }
    index
}

/// A codec for vectors of length two: each subspace has centroids 0..256.
fn codec() -> PQCodec {
    let book = || Codebook {
        centroids: (0..256).map(|c| bits(&[c as f32])).collect(),
        dimensions: 1,
    };
    PQCodec::train(vec![book(), book()], 2).unwrap()
}

fn table_for(x: f32, y: f32) -> Vec<Vec<u32>> {
    [x, y]
        .iter()
        .map(|q| (0..256).map(|c| ((q - c as f32) * (q - c as f32)).to_bits()).collect())
        .collect()
}

fn store() -> QuantizedVectors {
    let mut store = QuantizedVectors::new(codec());
    store.add(&table_for(0.0, 0.0));
    store.add(&table_for(0.1, 0.1));
    store.add(&table_for(10.0, 10.0));
    store.add(&table_for(10.1, 10.1));
    store
}

#[test]
fn a_database_needs_a_valid_configuration() {
    let db = VectorDB::new(plain_config()).unwrap();
    assert!(db.is_empty());
    assert_eq!(db.len(), 0);
    assert_eq!(db.next_id(), 0);
    assert!(!db.index_built());
    assert!(db.quantized().is_none());
    assert!(db.ivf_index().is_none());
    assert!(db.metadata().is_empty());
    assert_eq!(db.config().dimensions, 2);
    match VectorDB::new(Config { dimensions: 0, ..plain_config() }) {
        Err(KhadyotaError::InvalidConfig(m)) => assert_eq!(m, "Dimensions must be > 0"),
        _ => panic!("accepted"),
    }
    match VectorDB::new(Config { dimensions: 7, use_pq: true, pq_subvectors: 2, ..plain_config() })
    {
        Err(KhadyotaError::InvalidConfig(m)) => {
            assert_eq!(m, "Dimensions (7) must be divisible by pq_subvectors (2)")
        }
        _ => panic!("accepted"),
    }
    match VectorDB::new(Config { dimensions: 7, use_pq: true, pq_subvectors: 0, ..plain_config() })
    {
        Err(KhadyotaError::InvalidConfig(m)) => {
            assert_eq!(m, "Dimensions (7) must be divisible by pq_subvectors (0)")
        }
        _ => panic!("accepted"),
    }
    // without quantization the subvector count is not looked at
    assert!(VectorDB::new(Config { dimensions: 7, use_pq: false, pq_subvectors: 0, ..plain_config() })
        .is_ok());
}

#[test]
fn inserts_get_ids_in_order() {
    let mut db = VectorDB::new(plain_config()).unwrap();
    assert_eq!(db.insert(bits(&[1.0, 2.0]), None).unwrap(), 0);
    assert_eq!(db.insert(bits(&[3.0, 4.0]), Some(serde_json::Value::Bool(true))).unwrap(), 1);
    assert_eq!(db.insert(bits(&[5.0, 6.0]), None).unwrap(), 2);
    assert_eq!(db.len(), 3);
    assert!(!db.is_empty());
    assert_eq!(db.next_id(), 3);
    assert_eq!(db.vectors(), &vec![bits(&[1.0, 2.0]), bits(&[3.0, 4.0]), bits(&[5.0, 6.0])]);
    assert_eq!(db.metadata().len(), 1);
    assert_eq!(db.metadata().get(&1), Some(&serde_json::Value::Bool(true)));
}

#[test]
fn a_vector_of_the_wrong_length_is_rejected() {
    let mut db = filled(plain_config());
    match db.insert(bits(&[1.0, 2.0, 3.0]), Some(serde_json::Value::Null)) {
        Err(KhadyotaError::DimensionMismatch { expected, got }) => {
            assert_eq!(expected, 2);
            assert_eq!(got, 3);
        }
        other => panic!("unexpected {:?}", other),
    }
    assert_eq!(db.len(), 4);
    assert_eq!(db.next_id(), 4);
    assert_eq!(db.metadata().len(), 2);
    assert!(db.insert(Vec::new(), None).is_err());
}

#[test]
fn a_rejected_insert_leaves_the_index_built() {
    let mut db = filled(plain_config());
    db.build_index(None, partition(&[0, 0, 1, 1])).unwrap();
    assert!(db.insert(bits(&[1.0]), None).is_err());
    assert!(db.index_built());
    assert!(db.insert(bits(&[1.0, 1.0]), None).is_ok());
    assert!(!db.index_built());
}

#[test]
fn search_before_build_is_refused() {
    let db = filled(plain_config());
    let none: Vec<u32> = Vec::new();
    assert!(matches!(db.search(2, &none, &none, 1), Err(KhadyotaError::IndexNotBuilt)));
    assert!(matches!(db.candidates(2, &Vec::new()), Err(KhadyotaError::IndexNotBuilt)));
    assert!(matches!(db.batch_search(&Vec::new(), 1), Err(KhadyotaError::IndexNotBuilt)));
    // a wrong length is reported before the missing index
    match db.search(5, &none, &none, 1) {
        Err(KhadyotaError::DimensionMismatch { expected, got }) => {
            assert_eq!((expected, got), (2, 5))
        }
        other => panic!("unexpected {:?}", other),
    }
    assert!(matches!(
        db.candidates(1, &Vec::new()),
        Err(KhadyotaError::DimensionMismatch { expected: 2, got: 1 })
    ));
}

#[test]
fn building_on_an_empty_database_is_rejected() {
    let mut db = VectorDB::new(plain_config()).unwrap();
    match db.build_index(None, partition(&[])) {
        Err(KhadyotaError::InvalidConfig(m)) => {
            assert_eq!(m, "Cannot build index with no vectors")
        }
        other => panic!("unexpected {:?}", other),
    }
    assert!(!db.index_built());
    assert!(db.ivf_index().is_none());
}

#[test]
fn an_index_that_does_not_fit_is_rejected() {
    let rejected = |db: &mut VectorDB, quantized: Option<QuantizedVectors>, index: IVFIndex| {
        match db.build_index(quantized, index) {
            Err(KhadyotaError::InvalidConfig(m)) => {
                assert_eq!(m, "Trained index does not fit the stored vectors")
            }
            other => panic!("unexpected {:?}", other),
        }
        assert!(!db.index_built());
        assert!(db.ivf_index().is_none());
    };
    let mut db = filled(plain_config());
    // codes where quantization is off
    rejected(&mut db, Some(store()), partition(&[0, 0, 1, 1]));
    // a partition without centroids
    rejected(&mut db, None, IVFIndex::new(2, 2, 1));
    // another number of centroids than clusters configured
    let mut single = IVFIndex::new(2, 1, 1);
    single.build(vec![bits(&[0.0, 0.0])], &vec![bits(&[1.0]); 4]);
    rejected(&mut db, None, single);
    // a partition for vectors of another length
    let mut longer = IVFIndex::new(3, 2, 1);
    longer.build(vec![bits(&[0.0, 0.0, 0.0]), bits(&[1.0, 1.0, 1.0])], &vec![bits(&[1.0, 2.0]); 4]);
    rejected(&mut db, None, longer);
    // fewer vectors filed than stored, and more
    rejected(&mut db, None, partition(&[0, 0, 1]));
    rejected(&mut db, None, partition(&[0, 0, 1, 1, 1]));
    let mut db = filled(pq_config());
    // no codes where quantization is on
    rejected(&mut db, None, partition(&[0, 0, 1, 1]));
    // fewer codes than vectors
    let mut short = QuantizedVectors::new(codec());
    short.add(&table_for(0.0, 0.0));
    rejected(&mut db, Some(short), partition(&[0, 0, 1, 1]));
    assert!(db.build_index(Some(store()), partition(&[0, 0, 1, 1])).is_ok());
}

#[test]
fn a_build_files_the_vectors_and_clamps_the_probe_width() {
    let mut db = filled(Config { num_probe: 9, ..plain_config() });
    db.build_index(None, partition(&[1, 0, 1, 1])).unwrap();
    assert!(db.index_built());
    assert!(db.quantized().is_none());
    assert!(!db.uses_index());
    let index = db.ivf_index().as_ref().unwrap();
    assert_eq!(index.inverted_lists(), &vec![vec![1u32], vec![0, 2, 3]]);
    assert_eq!(index.centroids(), &centroids());
    assert_eq!(index.num_probe(), 2);
    assert_eq!(index.dimensions(), 2);
    assert_eq!(db.len(), 4);
    assert_eq!(db.next_id(), 4);
}

#[test]
fn without_codes_every_id_is_a_candidate() {
    let mut db = filled(plain_config());
    db.build_index(None, partition(&[0, 0, 1, 1])).unwrap();
    assert_eq!(db.candidates(2, &Vec::new()).unwrap(), vec![0, 1, 2, 3]);
}

#[test]
fn with_codes_the_candidates_come_from_the_probed_clusters() {
    let mut db = filled(pq_config());
    db.build_index(Some(store()), partition(&[0, 0, 1, 1])).unwrap();
    assert!(db.uses_index());
    assert_eq!(db.candidates(2, &bits(&[0.1, 14.0])).unwrap(), vec![0, 1]);
    assert_eq!(db.candidates(2, &bits(&[14.0, 0.1])).unwrap(), vec![2, 3]);
    assert_eq!(db.candidates(2, &bits(&[1.0, 1.0])).unwrap(), vec![0, 1]);
    let mut wide = filled(Config { num_probe: 2, ..pq_config() });
    wide.build_index(Some(store()), partition(&[0, 1, 1, 0])).unwrap();
    assert_eq!(wide.candidates(2, &bits(&[14.0, 0.1])).unwrap(), vec![1, 2, 0, 3]);
}

#[test]
fn search_keeps_the_nearest_and_breaks_ties_by_id() {
    let mut db = filled(plain_config());
    db.build_index(None, partition(&[0, 0, 1, 1])).unwrap();
    let none: Vec<u32> = Vec::new();
    let distances = bits(&[0.5, 2.0, 0.5, 2.0]);
    let found = db.search(2, &none, &distances, 3).unwrap();
    assert_eq!(found.len(), 3);
    assert_eq!(found[0].id, 0);
    assert_eq!(found[1].id, 2);
    assert_eq!(found[2].id, 1);
    assert_eq!(found[0].distance, 0.5f32.to_bits());
    assert_eq!(found[2].distance, 2.0f32.to_bits());
    assert_eq!(found[0].metadata, Some(serde_json::Value::from("origin")));
    assert_eq!(found[1].metadata, Some(serde_json::Value::from(3)));
    assert_eq!(found[2].metadata, None);
    assert_eq!(db.search(2, &none, &distances, 10).unwrap().len(), 4);
    assert!(db.search(2, &none, &distances, 0).unwrap().is_empty());
}

#[test]
fn a_batch_fails_with_its_first_refused_query() {
    let mut db = filled(plain_config());
    db.build_index(None, partition(&[0, 0, 1, 1])).unwrap();
    let good = |d: f32| ScoredQuery {
        query_len: 2,
        centroid_distances: Vec::new(),
        distances: bits(&[d, 1.0, 5.0, 6.0]),
    };
    let bad = |len: usize| ScoredQuery {
        query_len: len,
        centroid_distances: Vec::new(),
        distances: Vec::new(),
    };
    let all = db.batch_search(&vec![good(0.5), good(2.0)], 1).unwrap();
    assert_eq!(all.len(), 2);
    assert_eq!(all[0][0].id, 0);
    assert_eq!(all[1][0].id, 1);
    match db.batch_search(&vec![good(0.5), bad(7), bad(9)], 1) {
        Err(KhadyotaError::DimensionMismatch { expected, got }) => {
            assert_eq!((expected, got), (2, 7))
        }
        other => panic!("unexpected {:?}", other),
    }
    assert!(db.batch_search(&Vec::new(), 1).unwrap().is_empty());
}

#[test]
fn a_database_is_made_of_parts_that_fit() {
    let mut db = filled(pq_config());
    db.build_index(Some(store()), partition(&[0, 0, 1, 1])).unwrap();
    let index = || IVFIndex::from_parts(centroids(), vec![vec![0, 1], vec![2, 3]], 1, 2).unwrap();
    let vectors = || db.vectors().clone();
    let meta = || db.metadata().clone();
    let copy =
        VectorDB::from_parts(pq_config(), vectors(), Some(store()), Some(index()), meta(), 4, true)
            .unwrap();
    assert_eq!(copy.len(), 4);
    assert!(copy.index_built());
    assert_eq!(copy.candidates(2, &bits(&[0.1, 14.0])).unwrap(), vec![0, 1]);
    let rejected = |r: Result<VectorDB, KhadyotaError>| match r {
        Err(KhadyotaError::SerializationError(m)) => {
            assert_eq!(m, "Stored database is inconsistent")
        }
        _ => panic!("accepted"),
    };
    // the next id is not the number of vectors
    rejected(VectorDB::from_parts(
        pq_config(),
        vectors(),
        Some(store()),
        Some(index()),
        meta(),
        5,
        true,
    ));
    // built, but without a partition
    rejected(VectorDB::from_parts(pq_config(), vectors(), Some(store()), None, meta(), 4, true));
    // built with quantization on, but without codes
    rejected(VectorDB::from_parts(pq_config(), vectors(), None, Some(index()), meta(), 4, true));
    // the lists file fewer vectors than are stored
    let fewer = IVFIndex::from_parts(centroids(), vec![vec![0, 1], vec![2]], 1, 2).unwrap();
    rejected(VectorDB::from_parts(
        pq_config(),
        vectors(),
        Some(store()),
        Some(fewer),
        meta(),
        4,
        true,
    ));
    // the partition has no centroids
    let untrained = IVFIndex::from_parts(Vec::new(), vec![vec![0, 1], vec![2, 3]], 1, 2).unwrap();
    rejected(VectorDB::from_parts(
        pq_config(),
        vectors(),
        Some(store()),
        Some(untrained),
        meta(),
        4,
        true,
    ));
    // a vector of another length
    let mut ragged = vectors();
    ragged[2].push(0);
    rejected(VectorDB::from_parts(
        pq_config(),
        ragged,
        Some(store()),
        Some(index()),
        meta(),
        4,
        true,
    ));
    // an invalid configuration
    rejected(VectorDB::from_parts(
        Config { dimensions: 0, ..pq_config() },
        Vec::new(),
        None,
        None,
        HashMap::new(),
        0,
        false,
    ));
    // not built: the index parts are not looked at
    assert!(VectorDB::from_parts(pq_config(), vectors(), None, None, meta(), 4, false).is_ok());
}

#[test]
fn an_indexed_search_scores_the_probed_candidates_only() {
    let mut db = filled(Config { num_probe: 1, ..pq_config() });
    db.build_index(Some(store()), partition(&[0, 1, 1, 0])).unwrap();
    // the second cluster is nearer: its list is [1, 2]
    let near_second = bits(&[14.0, 0.1]);
    assert_eq!(db.candidates(2, &near_second).unwrap(), vec![1, 2]);
    let found = db.search(2, &near_second, &bits(&[3.0, 1.0]), 5).unwrap();
    assert_eq!(found.len(), 2);
    assert_eq!((found[0].id, f32::from_bits(found[0].distance)), (2, 1.0));
    assert_eq!((found[1].id, f32::from_bits(found[1].distance)), (1, 3.0));
    assert_eq!(found[0].metadata, Some(serde_json::Value::from(3)));
    assert_eq!(found[1].metadata, None);
    // the first cluster is nearer: its list is [0, 3]
    let near_first = bits(&[0.1, 14.0]);
    let found = db.search(2, &near_first, &bits(&[2.0, 2.0]), 1).unwrap();
    assert_eq!(found.len(), 1);
    assert_eq!(found[0].id, 0);
    assert_eq!(found[0].metadata, Some(serde_json::Value::from("origin")));
}

#[test]
fn a_database_has_its_header() {
    let db = filled(plain_config());
    let header = db.header();
    assert_eq!(&header.magic, b"KHDY");
    assert_eq!(header.version, 1);
    assert_eq!(header.dimensions, 2);
    assert_eq!(header.vector_count, 4);
    assert_eq!(header.metric, DistanceMetric::Euclidean);
    assert!(header.validate().is_ok());
    assert!(db.matches_header(&header));
    let mut other = db.header();
    other.vector_count = 5;
    assert!(!db.matches_header(&other));
    let mut other = db.header();
    other.dimensions = 3;
    assert!(!db.matches_header(&other));
    let mut other = db.header();
    other.metric = DistanceMetric::Cosine;
    assert!(!db.matches_header(&other));
}
