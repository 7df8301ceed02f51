use khadyota::error::KhadyotaError;
use khadyota::quantization::codebook::Codebook;
use khadyota::quantization::kmeans::{
    count_members, find_nearest_centroid, kmeans, weighted_pick, KMeansResult,
};
use khadyota::quantization::product_quantization::{
    extract_subvector, extract_subvectors, PQCodec,
};
use khadyota::storage::quantized::QuantizedVectors;

fn bits(v: &[f32]) -> Vec<u32> {
    v.iter().map(|x| x.to_bits()).collect()
}

/// A codebook of 256 centroids of length `size`: centroid `c` holds
/// `base + c` in every place.
fn ramp_codebook(size: usize, base: f32) -> Codebook {
    let centroids: Vec<Vec<u32>> =
        (0..256).map(|c| bits(&vec![base + c as f32; size])).collect();
    Codebook { centroids, dimensions: size }
}

fn ramp_codec() -> PQCodec {
    PQCodec::train(vec![ramp_codebook(2, 0.0), ramp_codebook(2, 1000.0)], 4).unwrap()
}

/// A table whose row `j` is least at `least[j]`.
fn table_with_least(least: &[usize]) -> Vec<Vec<u32>> {
    least
        .iter()
        .map(|&at| (0..256).map(|c| ((c as f32 - at as f32).abs() + 1.0).to_bits()).collect())
        .collect()
}

#[test]
fn a_codebook_names_the_first_nearest_centroid() {
    let book = Codebook {
        centroids: vec![bits(&[0.0, 0.0]), bits(&[10.0, 10.0]), bits(&[5.0, 5.0])],
        dimensions: 2,
    };
    assert_eq!(book.encode(&bits(&[4.0, 1.0, 2.0])), 1);
    assert_eq!(book.encode(&bits(&[1.0, 1.0, 2.0])), 0);
    assert_eq!(book.encode(&bits(&[3.0, 2.0, 2.0])), 1);
    assert_eq!(book.decode(2), &bits(&[5.0, 5.0]));
    assert_eq!(book.decode(0), &bits(&[0.0, 0.0]));
}

#[test]
fn a_codebook_is_made_of_the_centroids_of_a_run() {
    let result = KMeansResult {
        centroids: vec![bits(&[1.0, 2.0, 3.0]), bits(&[4.0, 5.0, 6.0])],
        assignments: vec![0, 1, 1],
        inertia: 0.5f32.to_bits(),
    };
    let book = Codebook::train(result);
    assert_eq!(book.dimensions, 3);
    assert_eq!(book.centroids, vec![bits(&[1.0, 2.0, 3.0]), bits(&[4.0, 5.0, 6.0])]);
}

#[test]
fn a_codec_needs_codebooks_that_fit() {
    let codec = ramp_codec();
    assert_eq!(codec.num_subvectors, 2);
    assert_eq!(codec.subvector_size, 2);
    assert_eq!(codec.codebooks.len(), 2);
    for book in &codec.codebooks {
        assert_eq!(book.centroids.len(), 256);
        for centroid in &book.centroids {
            assert_eq!(centroid.len(), 2);
        }
    }
    let rejected = |r: Result<PQCodec, KhadyotaError>| match r {
        Err(KhadyotaError::InvalidConfig(m)) => {
            assert_eq!(m, "Codebooks do not fit the vector dimensions")
        }
        other => panic!("unexpected {:?}", other),
    };
    // no codebook
    rejected(PQCodec::train(Vec::new(), 4));
    // the number of codebooks does not divide the length
    rejected(PQCodec::train(vec![ramp_codebook(2, 0.0), ramp_codebook(2, 0.0)], 5));
    // a codebook of another length
    rejected(PQCodec::train(vec![ramp_codebook(2, 0.0), ramp_codebook(3, 0.0)], 4));
    // a codebook with too few centroids
    let mut short = ramp_codebook(2, 0.0);
    short.centroids.pop();
    rejected(PQCodec::train(vec![ramp_codebook(2, 0.0), short], 4));
    // a centroid of another length
    let mut ragged = ramp_codebook(2, 0.0);
    ragged.centroids[17].push(0);
    rejected(PQCodec::train(vec![ragged, ramp_codebook(2, 0.0)], 4));
    // a centroid that holds no number, or an infinity
    let mut blank = ramp_codebook(2, 0.0);
    blank.centroids[200][1] = f32::NAN.to_bits();
    rejected(PQCodec::train(vec![ramp_codebook(2, 0.0), blank], 4));
    let mut endless = ramp_codebook(2, 0.0);
    endless.centroids[0][0] = f32::INFINITY.to_bits();
    rejected(PQCodec::train(vec![endless, ramp_codebook(2, 0.0)], 4));
}

#[test]
fn encoding_takes_the_first_least_entry_of_each_row() {
    let codec = ramp_codec();
    assert_eq!(codec.encode(&table_with_least(&[7, 200])), vec![7, 200]);
    assert_eq!(codec.encode(&table_with_least(&[0, 255])), vec![0, 255]);
    let flat: Vec<Vec<u32>> = vec![vec![1.0f32.to_bits(); 256]; 2];
    assert_eq!(codec.encode(&flat), vec![0, 0]);
}

#[test]
fn decoding_joins_the_named_centroids() {
    let codec = ramp_codec();
    assert_eq!(codec.decode(&vec![7, 200]), bits(&[7.0, 7.0, 1200.0, 1200.0]));
    assert_eq!(codec.decode(&vec![255, 0]), bits(&[255.0, 255.0, 1000.0, 1000.0]));
}

#[test]
fn lookup_terms_are_the_entries_that_the_code_selects() {
    let codec = ramp_codec();
    let table = table_with_least(&[7, 200]);
    assert_eq!(codec.table_lookup_terms(&table, &vec![7, 200]), bits(&[1.0, 1.0]));
    assert_eq!(codec.table_lookup_terms(&table, &vec![9, 190]), bits(&[3.0, 11.0]));
}

#[test]
fn subvectors_are_cut_out_in_order() {
    let v = bits(&[0.0, 1.0, 2.0, 3.0, 4.0, 5.0]);
    assert_eq!(extract_subvector(&v, 0, 2), bits(&[0.0, 1.0]));
    assert_eq!(extract_subvector(&v, 2, 2), bits(&[4.0, 5.0]));
    assert_eq!(extract_subvector(&v, 1, 3), bits(&[3.0, 4.0, 5.0]));
    assert_eq!(extract_subvector(&v, 0, 6), v);
    assert!(extract_subvector(&v, 3, 0).is_empty());
    let many = vec![bits(&[0.0, 1.0, 2.0, 3.0]), bits(&[4.0, 5.0, 6.0, 7.0])];
    assert_eq!(extract_subvectors(&many, 1, 2), vec![bits(&[2.0, 3.0]), bits(&[6.0, 7.0])]);
}

#[test]
fn a_store_gives_ids_in_order_and_keeps_the_codes() {
    let mut store = QuantizedVectors::new(ramp_codec());
    assert!(store.is_empty());
    assert_eq!(store.add(&table_with_least(&[7, 200])), 0);
    assert_eq!(store.add(&table_with_least(&[1, 2])), 1);
    assert_eq!(store.add(&table_with_least(&[255, 0])), 2);
    assert_eq!(store.len(), 3);
    assert!(!store.is_empty());
    assert_eq!(store.get_codes(0), &vec![7u8, 200]);
    assert_eq!(store.get_codes(2), &vec![255u8, 0]);
    let table = table_with_least(&[1, 2]);
    assert_eq!(store.table_lookup_terms(&table, 1), bits(&[1.0, 1.0]));
    assert_eq!(store.table_lookup_terms(&table, 0), bits(&[7.0, 199.0]));
    assert_eq!(store.codec().num_subvectors, 2);
    let copy = QuantizedVectors::from_parts(store.codes().clone(), store.codec().clone()).unwrap();
    assert_eq!(copy.codes(), store.codes());
    assert!(QuantizedVectors::from_parts(vec![vec![1u8, 2, 3]], ramp_codec()).is_none());
}

#[test]
fn the_nearest_centroid_comes_with_its_distance() {
    let d = bits(&[3.0, 0.5, 2.0, 0.5]);
    assert_eq!(find_nearest_centroid(&d), (1, 0.5f32.to_bits()));
}

#[test]
fn a_weighted_draw_selects_the_first_point_that_leaves_nothing() {
    assert_eq!(weighted_pick(&bits(&[2.0, 1.0, -0.5, -3.0])), 2);
    assert_eq!(weighted_pick(&bits(&[0.0, -1.0])), 0);
    assert_eq!(weighted_pick(&bits(&[-0.0, -1.0])), 0);
    assert_eq!(weighted_pick(&bits(&[3.0, 2.0, 1.0])), 2);
    assert_eq!(weighted_pick(&bits(&[5.0])), 0);
    assert_eq!(weighted_pick(&bits(&[f32::NAN, 1.0, -1.0])), 2);
}

#[test]
fn members_are_counted_per_cluster() {
    assert_eq!(count_members(&vec![2, 0, 0, 1, 2, 0, 2], 4), vec![3, 1, 3, 0]);
    assert_eq!(count_members(&Vec::new(), 2), vec![0, 0]);
}

#[test]
fn more_clusters_than_vectors_are_rejected() {
    let vectors = vec![bits(&[0.0, 0.0]), bits(&[1.0, 1.0])];
    match kmeans(&vectors, 3, 10, 1) {
        Err(KhadyotaError::InvalidConfig(m)) => assert_eq!(m, "K must be <= number of vectors"),
        Ok(_) => panic!("accepted"),
        Err(other) => panic!("unexpected {:?}", other),
    }
    assert!(kmeans(&vectors, 2, 10, 1).is_ok());
}

#[test]
fn a_run_starts_with_one_training_vector_as_centroid() {
    let vectors: Vec<Vec<u32>> =
        (0..20).map(|i| bits(&[i as f32, 100.0 + i as f32, -(i as f32)])).collect();
    for seed in 0..50u64 {
        let run = kmeans(&vectors, 4, 10, seed).unwrap();
        assert_eq!(run.centroids().len(), 1);
        assert!(vectors.contains(&run.centroids()[0]));
        assert_eq!(run.assignments(), &vec![0usize; 20]);
        assert!(!run.is_seeded());
        assert!(run.can_iterate());
    }
}

#[test]
fn the_same_seed_draws_the_same_centroid() {
    let vectors: Vec<Vec<u32>> = (0..1000).map(|i| bits(&[i as f32])).collect();
    let a = kmeans(&vectors, 2, 10, 99).unwrap();
    let b = kmeans(&vectors, 2, 10, 99).unwrap();
    assert_eq!(a.centroids(), b.centroids());
    let firsts: Vec<Vec<u32>> =
        (0..20u64).map(|seed| kmeans(&vectors, 2, 10, seed).unwrap().centroids()[0].clone()).collect();
    assert!(firsts.iter().any(|f| f != &firsts[0]));
}

#[test]
fn a_run_seeds_assigns_and_updates() {
    let vectors = vec![bits(&[0.0]), bits(&[1.0]), bits(&[10.0]), bits(&[11.0])];
    let mut run = kmeans(&vectors, 3, 2, 5).unwrap();
    // the draw stops at the third vector, then at the last
    run.seed_next(&bits(&[4.0, 2.0, -1.0, -9.0]));
    assert_eq!(run.centroids().len(), 2);
    assert_eq!(run.centroids()[1], bits(&[10.0]));
    assert!(!run.is_seeded());
    run.seed_next(&bits(&[4.0, 3.0, 2.0, 1.0]));
    assert_eq!(run.centroids()[2], bits(&[11.0]));
    assert!(run.is_seeded());
    // every vector goes to its nearest centroid
    assert_eq!(run.assign(0, &bits(&[5.0, 1.0, 7.0])), 1);
    assert_eq!(run.assign(1, &bits(&[5.0, 1.0, 7.0])), 1);
    assert_eq!(run.assign(2, &bits(&[0.0, 9.0, 9.0])), 0);
    assert_eq!(run.assign(3, &bits(&[2.0, 2.0, 9.0])), 0);
    assert_eq!(run.assignments(), &vec![1usize, 1, 0, 0]);
    assert_eq!(run.cluster_sizes(), vec![2, 2, 0]);
    // clusters with vectors take their means, the empty one a training vector
    run.update(vec![bits(&[10.5]), bits(&[0.5]), bits(&[777.0])]);
    assert_eq!(run.centroids()[0], bits(&[10.5]));
    assert_eq!(run.centroids()[1], bits(&[0.5]));
    assert!(vectors.contains(&run.centroids()[2]));
    assert!(run.can_iterate());
    run.update(vec![bits(&[10.0]), bits(&[1.0]), bits(&[777.0])]);
    assert!(!run.can_iterate());
    let result = run.finish(2.5f32.to_bits());
    assert_eq!(result.centroids.len(), 3);
    assert_eq!(result.assignments, vec![1, 1, 0, 0]);
    assert_eq!(result.inertia, 2.5f32.to_bits());
}
