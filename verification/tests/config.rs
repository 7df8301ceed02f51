use khadyota::config::{Config, DistanceMetric};
use khadyota::error::KhadyotaError;

#[test]
fn default_config_is_valid() {
    let config = Config::default();
    assert_eq!(config.dimensions, 512);
    assert_eq!(config.metric, DistanceMetric::Cosine);
    assert!(config.use_pq);
    assert_eq!(config.pq_subvectors, 8);
    assert_eq!(config.num_clusters, 100);
    assert_eq!(config.num_probe, 10);
    assert!(config.validate().is_ok());
    assert_eq!(config.subvector_size(), 64);
}

#[test]
fn zero_dimensions_are_rejected() {
    let config = Config { dimensions: 0, ..Config::default() };
    match config.validate() {
        Err(KhadyotaError::InvalidConfig(m)) => assert_eq!(m, "Dimensions must be > 0"),
        other => panic!("unexpected {:?}", other),
    }
}

#[test]
fn uneven_split_is_rejected() {
    let config = Config { dimensions: 10, pq_subvectors: 3, ..Config::default() };
    match config.validate() {
        Err(KhadyotaError::InvalidConfig(m)) => {
            assert_eq!(m, "Dimensions (10) must be divisible by pq_subvectors (3)")
        }
        other => panic!("unexpected {:?}", other),
    }
}
