use khadyota::config::DistanceMetric;
use khadyota::error::KhadyotaError;
use khadyota::storage::encoding::{get_u32, get_u64, put_u32, put_u64};
use khadyota::storage::format::{FileHeader, MAGIC, VERSION};
use khadyota::storage::frame::{frame, metric_from_byte, metric_to_byte, unframe};
use khadyota::storage::mmap::MmapVectors;
use khadyota::storage::serialization::{read_header, read_vector, Serializer};

fn bits(rows: &[Vec<f32>]) -> Vec<Vec<u32>> {
    rows.iter().map(|r| r.iter().map(|x| x.to_bits()).collect()).collect()
}

fn floats(rows: &[Vec<u32>]) -> Vec<Vec<f32>> {
    rows.iter().map(|r| r.iter().map(|x| f32::from_bits(*x)).collect()).collect()
}

#[test]
fn test_vector_serialization() {
    let vectors = vec![vec![1.0f32, 2.0, 3.0], vec![4.0, 5.0, 6.0]];
    let bytes = Serializer::save_vectors(&bits(&vectors));
    let loaded = Serializer::load_vectors(&bytes).unwrap();
    assert_eq!(vectors, floats(&loaded));
}

#[test]
fn test_mmap_vectors() {
    let vectors = vec![vec![1.0f32, 2.0, 3.0, 4.0], vec![5.0, 6.0, 7.0, 8.0]];
    let bytes = Serializer::save_vectors(&bits(&vectors));
    let mmap_vecs = MmapVectors::open(&bytes).unwrap();
    assert_eq!(mmap_vecs.len(), 2);
    assert_eq!(mmap_vecs.dimensions(), 4);
    let vec0: Vec<f32> = mmap_vecs.get(0).unwrap().iter().map(|x| f32::from_bits(*x)).collect();
    assert_eq!(vec0, &[1.0, 2.0, 3.0, 4.0]);
    let vec1: Vec<f32> = mmap_vecs.get(1).unwrap().iter().map(|x| f32::from_bits(*x)).collect();
    assert_eq!(vec1, &[5.0, 6.0, 7.0, 8.0]);
    assert!(mmap_vecs.get(2).is_none());
    assert!(!mmap_vecs.is_empty());
}

#[test]
fn the_file_is_count_dimension_and_scalars_little_endian() {
    let vectors = vec![vec![1.0f32, -2.0], vec![0.5, 3.0e10], vec![0.0, f32::INFINITY]];
    let bytes = Serializer::save_vectors(&bits(&vectors));
    let mut want: Vec<u8> = Vec::new();
    want.extend_from_slice(&3u64.to_le_bytes());
    want.extend_from_slice(&2u32.to_le_bytes());
    for v in &vectors {
        for x in v {
            want.extend_from_slice(&x.to_le_bytes());
        }
    }
    assert_eq!(bytes, want);
    assert_eq!(bytes.len(), 12 + 3 * 2 * 4);
    assert_eq!(&bytes[..12], &[3, 0, 0, 0, 0, 0, 0, 0, 2, 0, 0, 0]);
    assert_eq!(&bytes[12..16], &[0x00, 0x00, 0x80, 0x3f]);
}

#[test]
fn an_empty_set_round_trips() {
    let bytes = Serializer::save_vectors(&Vec::new());
    assert_eq!(bytes, vec![0u8; 12]);
    let loaded = Serializer::load_vectors(&bytes).unwrap();
    assert!(loaded.is_empty());
    let view = MmapVectors::open(&bytes).unwrap();
    assert!(view.is_empty());
    assert_eq!(view.len(), 0);
    assert_eq!(view.dimensions(), 0);
    assert!(view.get(0).is_none());
}

#[test]
fn truncated_files_are_rejected() {
    let vectors = vec![vec![1.0f32, 2.0, 3.0], vec![4.0, 5.0, 6.0]];
    let bytes = Serializer::save_vectors(&bits(&vectors));
    for cut in 0..bytes.len() {
        match Serializer::load_vectors(&bytes[..cut]) {
            Err(KhadyotaError::SerializationError(m)) => {
                assert_eq!(m, "Unexpected end of vector data")
            }
            other => panic!("cut at {}: unexpected {:?}", cut, other),
        }
        assert!(MmapVectors::open(&bytes[..cut]).is_err());
        assert!(read_header(&bytes[..cut]).is_none());
    }
    assert_eq!(read_header(&bytes), Some((2, 3)));
}

#[test]
fn trailing_bytes_are_ignored() {
    let vectors = vec![vec![1.5f32], vec![2.5]];
    let mut bytes = Serializer::save_vectors(&bits(&vectors));
    bytes.extend_from_slice(&[9, 9, 9]);
    let loaded = Serializer::load_vectors(&bytes).unwrap();
    assert_eq!(floats(&loaded), vectors);
}

#[test]
fn a_count_too_large_for_the_bytes_is_rejected() {
    let mut bytes: Vec<u8> = Vec::new();
    bytes.extend_from_slice(&u64::MAX.to_le_bytes());
    bytes.extend_from_slice(&u32::MAX.to_le_bytes());
    bytes.extend_from_slice(&[0u8; 64]);
    assert!(Serializer::load_vectors(&bytes).is_err());
    assert!(MmapVectors::open(&bytes).is_err());
}

#[test]
fn read_vector_reads_in_place() {
    let vectors = vec![vec![1.0f32, 2.0], vec![3.0, 4.0], vec![5.0, 6.0]];
    let bytes = Serializer::save_vectors(&bits(&vectors));
    let v: Vec<f32> = read_vector(&bytes, 2, 2).iter().map(|x| f32::from_bits(*x)).collect();
    assert_eq!(v, vec![5.0, 6.0]);
}

#[test]
fn numbers_are_written_least_significant_byte_first() {
    let mut out = vec![0xaau8];
    put_u32(&mut out, 0x0403_0201);
    put_u64(&mut out, 0x0807_0605_0403_0201);
    assert_eq!(out, vec![0xaa, 1, 2, 3, 4, 1, 2, 3, 4, 5, 6, 7, 8]);
    assert_eq!(get_u32(&out, 1), 0x0403_0201);
    assert_eq!(get_u64(&out, 5), 0x0807_0605_0403_0201);
    assert_eq!(get_u32(&out, 2), 0x0104_0302);
    let mut wide = Vec::new();
    put_u64(&mut wide, u64::MAX);
    put_u32(&mut wide, u32::MAX);
    assert_eq!(get_u64(&wide, 0), u64::MAX);
    assert_eq!(get_u32(&wide, 8), u32::MAX);
}

#[test]
fn a_new_header_validates() {
    let header = FileHeader::new(128, 1000, DistanceMetric::Euclidean);
    assert_eq!(header.magic, MAGIC);
    assert_eq!(&header.magic, b"KHDY");
    assert_eq!(header.version, VERSION);
    assert_eq!(header.version, 1);
    assert_eq!(header.dimensions, 128);
    assert_eq!(header.vector_count, 1000);
    assert_eq!(header.metric, DistanceMetric::Euclidean);
    assert!(header.validate().is_ok());
}

#[test]
fn a_header_with_wrong_magic_is_rejected() {
    let mut header = FileHeader::new(4, 2, DistanceMetric::Cosine);
    header.magic = *b"KHDX";
    header.version = 9;
    match header.validate() {
        Err(KhadyotaError::SerializationError(m)) => assert_eq!(m, "Invalid magic bytes"),
        other => panic!("unexpected {:?}", other),
    }
}

#[test]
fn a_header_with_another_version_is_rejected() {
    let mut header = FileHeader::new(4, 2, DistanceMetric::DotProduct);
    header.version = 27;
    match header.validate() {
        Err(KhadyotaError::SerializationError(m)) => assert_eq!(m, "Unsupported version: 27"),
        other => panic!("unexpected {:?}", other),
    }
}

fn problem(bytes: &[u8]) -> String {
    match unframe(bytes) {
        Err(KhadyotaError::SerializationError(m)) => m,
        Err(other) => panic!("unexpected {:?}", other),
        Ok(_) => panic!("accepted"),
    }
}

#[test]
fn a_frame_is_header_length_and_payload() {
    let header = FileHeader::new(128, 1000, DistanceMetric::Euclidean);
    let bytes = frame(&header, &[9, 8, 7]);
    let mut want: Vec<u8> = Vec::new();
    want.extend_from_slice(b"KHDY");
    want.extend_from_slice(&1u32.to_le_bytes());
    want.extend_from_slice(&128u32.to_le_bytes());
    want.extend_from_slice(&1000u64.to_le_bytes());
    want.push(1);
    want.extend_from_slice(&3u64.to_le_bytes());
    want.extend_from_slice(&[9, 8, 7]);
    assert_eq!(bytes, want);
    assert_eq!(bytes.len(), 29 + 3);
}

#[test]
fn a_frame_reads_back() {
    for metric in [DistanceMetric::Cosine, DistanceMetric::Euclidean, DistanceMetric::DotProduct] {
        for payload in [Vec::new(), vec![0u8], (0..=255u8).collect::<Vec<u8>>()] {
            let header = FileHeader::new(7, 123_456_789_012, metric);
            let bytes = frame(&header, &payload);
            let (read, body) = unframe(&bytes).unwrap();
            assert_eq!(read.magic, MAGIC);
            assert_eq!(read.version, VERSION);
            assert_eq!(read.dimensions, 7);
            assert_eq!(read.vector_count, 123_456_789_012);
            assert_eq!(read.metric, metric);
            assert_eq!(body, &payload[..]);
        }
    }
}

#[test]
fn what_is_no_frame_is_rejected_with_its_problem() {
    let header = FileHeader::new(4, 2, DistanceMetric::Cosine);
    let good = frame(&header, &[1, 2, 3, 4]);
    assert!(unframe(&good).is_ok());
    for cut in 0..29 {
        assert_eq!(problem(&good[..cut]), "Truncated file");
    }
    let mut bad = good.clone();
    bad[3] = b'X';
    assert_eq!(problem(&bad), "Invalid magic bytes");
    let mut bad = good.clone();
    bad[4] = 2;
    assert_eq!(problem(&bad), "Unsupported version: 2");
    let mut bad = good.clone();
    bad[7] = 1;
    assert_eq!(problem(&bad), "Unsupported version: 16777217");
    let mut bad = good.clone();
    bad[20] = 3;
    assert_eq!(problem(&bad), "Unknown distance metric");
    let mut bad = good.clone();
    bad.push(0);
    assert_eq!(problem(&bad), "Payload length does not match the file");
    assert_eq!(problem(&good[..good.len() - 1]), "Payload length does not match the file");
    // the first problem is the one reported
    let mut bad = good.clone();
    bad[0] = 0;
    bad[4] = 9;
    bad[20] = 200;
    assert_eq!(problem(&bad), "Invalid magic bytes");
}

#[test]
fn metrics_have_their_bytes() {
    assert_eq!(metric_to_byte(DistanceMetric::Cosine), 0);
    assert_eq!(metric_to_byte(DistanceMetric::Euclidean), 1);
    assert_eq!(metric_to_byte(DistanceMetric::DotProduct), 2);
    assert_eq!(metric_from_byte(0), Some(DistanceMetric::Cosine));
    assert_eq!(metric_from_byte(1), Some(DistanceMetric::Euclidean));
    assert_eq!(metric_from_byte(2), Some(DistanceMetric::DotProduct));
    for b in 3..=255u8 {
        assert_eq!(metric_from_byte(b), None);
    }
}
