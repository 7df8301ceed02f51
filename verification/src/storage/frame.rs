//! The frame of a persisted database: the header, the length of the
//! payload, and the payload.
//!
//! The header takes twenty-one bytes: the four magic bytes, the version and
//! the dimension in four bytes each and the vector count in eight, all
//! little-endian, and one byte for the metric. The length of the payload
//! follows in eight bytes, little-endian, and then the payload itself. What
//! the payload holds is the business of whoever writes it.

use crate::config::DistanceMetric;
use crate::error::{decimal, decimal_text, KhadyotaError};
use crate::storage::encoding::{
    get_u32, get_u64, le_bytes, le_value, lemma_le_bytes_len, lemma_le_bytes_of_value,
    lemma_le_round_trip, lemma_radix_of_words, put_u32, put_u64,
};
use crate::storage::format::{FileHeader, VERSION};
use vstd::prelude::*;
use vstd::slice::slice_subrange;
use vstd::string::*;

verus! {

/// The length of a header in a file.
pub const HEADER_BYTES: usize = 21;

/// The length of everything in a file but the payload.
pub const FRAME_OVERHEAD: usize = 29;

/// The byte that stands for a metric.
pub open spec fn metric_byte(metric: DistanceMetric) -> u8 {
    match metric {
        DistanceMetric::Cosine => 0,
        DistanceMetric::Euclidean => 1,
        DistanceMetric::DotProduct => 2,
    }
}

/// The bytes of a header.
pub open spec fn header_bytes(header: FileHeader) -> Seq<u8> {
    header.magic@ + le_bytes(header.version as nat, 4) + le_bytes(header.dimensions as nat, 4)
        + le_bytes(header.vector_count as nat, 8) + seq![metric_byte(header.metric)]
}

/// The file that holds a payload under a header.
pub open spec fn framed(header: FileHeader, payload: Seq<u8>) -> Seq<u8> {
    header_bytes(header) + le_bytes(payload.len(), 8) + payload
}

/// The version that a file records.
pub open spec fn frame_version(bytes: Seq<u8>) -> nat {
    le_value(bytes.subrange(4, 8))
}

/// The payload length that a file records.
pub open spec fn frame_payload_len(bytes: Seq<u8>) -> nat {
    le_value(bytes.subrange(21, 29))
}

/// Whether a file opens with the magic bytes.
pub open spec fn frame_has_magic(bytes: Seq<u8>) -> bool {
    &&& bytes[0] == 0x4b
    &&& bytes[1] == 0x48
    &&& bytes[2] == 0x44
    &&& bytes[3] == 0x59
}

/// What is wrong with bytes that are no frame, if anything: in this order,
/// that they are too few, do not open with the magic bytes, record another
/// version or an unknown metric, or announce a payload of another length
/// than what follows.
pub open spec fn frame_problem(bytes: Seq<u8>) -> Option<Seq<char>> {
    if bytes.len() < FRAME_OVERHEAD {
        Some("Truncated file"@)
    } else if !frame_has_magic(bytes) {
        Some("Invalid magic bytes"@)
    } else if frame_version(bytes) != VERSION {
        Some("Unsupported version: "@ + decimal_text(frame_version(bytes)))
    } else if bytes[20] > 2 {
        Some("Unknown distance metric"@)
    } else if frame_payload_len(bytes) != bytes.len() - FRAME_OVERHEAD {
        Some("Payload length does not match the file"@)
    } else {
        None
    }
}

/// Tells the byte that stands for a metric.
pub fn metric_to_byte(metric: DistanceMetric) -> (b: u8)
    ensures
        b == metric_byte(metric),
        b <= 2,
{
    match metric {
        DistanceMetric::Cosine => 0,
        DistanceMetric::Euclidean => 1,
        DistanceMetric::DotProduct => 2,
    }
}

/// Tells the metric that a byte stands for.
pub fn metric_from_byte(b: u8) -> (metric: Option<DistanceMetric>)
    ensures
        metric is Some <==> b <= 2,
        metric matches Some(m) ==> metric_byte(m) == b,
{
    if b == 0 {
        Some(DistanceMetric::Cosine)
    } else if b == 1 {
        Some(DistanceMetric::Euclidean)
    } else if b == 2 {
        Some(DistanceMetric::DotProduct)
    } else {
        None
    }
}

/// Writes the file that holds a payload under a header.
pub fn frame(header: &FileHeader, payload: &[u8]) -> (bytes: Vec<u8>)
    ensures
        bytes@ == framed(*header, payload@),
{
    let mut bytes: Vec<u8> = Vec::new();
    bytes.push(header.magic[0]);
    bytes.push(header.magic[1]);
    bytes.push(header.magic[2]);
    bytes.push(header.magic[3]);
    assert(bytes@ =~= header.magic@);
    put_u32(&mut bytes, header.version);
    put_u32(&mut bytes, header.dimensions);
    put_u64(&mut bytes, header.vector_count);
    bytes.push(metric_to_byte(header.metric));
    assert(bytes@ =~= header_bytes(*header));
    put_u64(&mut bytes, payload.len() as u64);
    let mut i: usize = 0;
    let ghost head = bytes@;
    while i < payload.len()
        invariant
            i <= payload.len(),
            bytes@ == head + payload@.take(i as int),
        decreases payload.len() - i,
    {
        bytes.push(payload[i]);
        assert(bytes@ =~= head + payload@.take(i + 1));
        i = i + 1;
    }
    assert(payload@.take(payload.len() as int) =~= payload@);
    bytes
}

/// Reads a frame: the header and the payload. Bytes that are no frame are
/// rejected as `SerializationError`, with what is wrong with them.
pub fn unframe(bytes: &[u8]) -> (r: Result<(FileHeader, &[u8]), KhadyotaError>)
    ensures
        match r {
            Ok((header, payload)) => {
                &&& frame_problem(bytes@) is None
                &&& bytes@ == framed(header, payload@)
                &&& header.has_magic()
                &&& header.version == VERSION
            },
            Err(e) => e matches KhadyotaError::SerializationError(m) && frame_problem(bytes@)
                == Some(m@),
        },
{
    if bytes.len() < FRAME_OVERHEAD {
        return Err(KhadyotaError::SerializationError(String::from_str("Truncated file")));
    }
    if bytes[0] != 0x4b || bytes[1] != 0x48 || bytes[2] != 0x44 || bytes[3] != 0x59 {
        return Err(KhadyotaError::SerializationError(String::from_str("Invalid magic bytes")));
    }
    let version = get_u32(bytes, 4);
    if version != VERSION {
        let mut m = String::from_str("Unsupported version: ");
        let v = decimal(version as u64);
        m.append(v.as_str());
        return Err(KhadyotaError::SerializationError(m));
    }
    let dimensions = get_u32(bytes, 8);
    let vector_count = get_u64(bytes, 12);
    let metric = match metric_from_byte(bytes[20]) {
        Some(metric) => metric,
        None => {
            return Err(
                KhadyotaError::SerializationError(String::from_str("Unknown distance metric")),
            );
        },
    };
    let announced = get_u64(bytes, 21);
    if announced != (bytes.len() - FRAME_OVERHEAD) as u64 {
        return Err(
            KhadyotaError::SerializationError(
                String::from_str("Payload length does not match the file"),
            ),
        );
    }
    let magic: [u8; 4] = [bytes[0], bytes[1], bytes[2], bytes[3]];
    let header = FileHeader { magic, version, dimensions, vector_count, metric };
    let payload = slice_subrange(bytes, FRAME_OVERHEAD, bytes.len());
    proof {
        lemma_le_bytes_of_value(bytes@.subrange(4, 8));
        lemma_le_bytes_of_value(bytes@.subrange(8, 12));
        lemma_le_bytes_of_value(bytes@.subrange(12, 20));
        lemma_le_bytes_of_value(bytes@.subrange(21, 29));
        assert(header.magic@ =~= bytes@.subrange(0, 4));
        assert(header_bytes(header) =~= bytes@.subrange(0, 21));
        assert(bytes@ =~= framed(header, payload@));
    }
    Ok((header, payload))
}

/// A frame tells its header and its payload apart from every other: two
/// frames of the same bytes have the same header and the same payload.
pub proof fn lemma_framed_is_injective(
    first: FileHeader,
    first_payload: Seq<u8>,
    second: FileHeader,
    second_payload: Seq<u8>,
)
    requires
        framed(first, first_payload) == framed(second, second_payload),
        first_payload.len() <= u64::MAX,
        second_payload.len() <= u64::MAX,
    ensures
        first == second,
        first_payload == second_payload,
{
    broadcast use vstd::array::group_array_axioms;

    let a = framed(first, first_payload);
    let b = framed(second, second_payload);
    lemma_header_in_frame(first, first_payload);
    lemma_header_in_frame(second, second_payload);
    lemma_radix_of_words();
    lemma_le_round_trip(first.version as nat, 4);
    lemma_le_round_trip(second.version as nat, 4);
    lemma_le_round_trip(first.dimensions as nat, 4);
    lemma_le_round_trip(second.dimensions as nat, 4);
    lemma_le_round_trip(first.vector_count as nat, 8);
    lemma_le_round_trip(second.vector_count as nat, 8);
    assert(first.magic@ == a.subrange(0, 4));
    assert(second.magic@ == b.subrange(0, 4));
    assert(first.magic =~= second.magic);
    assert(a[20] == metric_byte(first.metric) && b[20] == metric_byte(second.metric));
    assert(first_payload =~= a.subrange(29, a.len() as int));
    assert(second_payload =~= b.subrange(29, b.len() as int));
}

/// Where the fields stand in a frame.
pub proof fn lemma_header_in_frame(header: FileHeader, payload: Seq<u8>)
    ensures
        framed(header, payload).len() == FRAME_OVERHEAD + payload.len(),
        framed(header, payload).subrange(0, 4) == header.magic@,
        framed(header, payload).subrange(4, 8) == le_bytes(header.version as nat, 4),
        framed(header, payload).subrange(8, 12) == le_bytes(header.dimensions as nat, 4),
        framed(header, payload).subrange(12, 20) == le_bytes(header.vector_count as nat, 8),
        framed(header, payload)[20] == metric_byte(header.metric),
        framed(header, payload).subrange(21, 29) == le_bytes(payload.len(), 8),
        framed(header, payload).subrange(29, 29 + payload.len() as int) == payload,
{
    broadcast use vstd::array::group_array_axioms;

    let all = framed(header, payload);
    lemma_le_bytes_len(header.version as nat, 4);
    lemma_le_bytes_len(header.dimensions as nat, 4);
    lemma_le_bytes_len(header.vector_count as nat, 8);
    lemma_le_bytes_len(payload.len(), 8);
    assert(header.magic@.len() == 4);
    assert(all.subrange(0, 4) =~= header.magic@);
    assert(all.subrange(4, 8) =~= le_bytes(header.version as nat, 4));
    assert(all.subrange(8, 12) =~= le_bytes(header.dimensions as nat, 4));
    assert(all.subrange(12, 20) =~= le_bytes(header.vector_count as nat, 8));
    assert(all.subrange(21, 29) =~= le_bytes(payload.len(), 8));
    assert(all.subrange(29, 29 + payload.len() as int) =~= payload);
}

/// What is written can be read back: the frame of a payload under a header
/// with the magic bytes and the current version has no problem.
pub proof fn lemma_frame_round_trip(header: FileHeader, payload: Seq<u8>)
    requires
        header.has_magic(),
        header.version == VERSION,
        payload.len() <= u64::MAX,
    ensures
        frame_problem(framed(header, payload)) is None,
{
    broadcast use vstd::array::group_array_axioms;

    let all = framed(header, payload);
    lemma_header_in_frame(header, payload);
    lemma_radix_of_words();
    lemma_le_round_trip(header.version as nat, 4);
    lemma_le_round_trip(payload.len(), 8);
    assert(all.subrange(0, 4)[0] == all[0]);
    assert(all.subrange(0, 4)[1] == all[1]);
    assert(all.subrange(0, 4)[2] == all[2]);
    assert(all.subrange(0, 4)[3] == all[3]);
}

} // verus!
