//! The raw vector file: an eight-byte count, a four-byte dimension, then
//! every scalar of every vector in four bytes, all little-endian.

use crate::error::KhadyotaError;
use crate::storage::encoding::{
    get_u32, get_u64, le_bytes, le_value, lemma_le_bytes_len, lemma_le_round_trip,
    lemma_radix_of_words, put_u32, put_u64,
};
use crate::table::rows;
use vstd::prelude::*;
use vstd::string::*;

verus! {

/// The length of the count and the dimension together.
pub const HEADER_LEN: usize = 12;

/// The bytes of the scalars of one vector.
pub open spec fn row_bytes(row: Seq<u32>) -> Seq<u8>
    decreases row.len(),
{
    if row.len() == 0 {
        Seq::empty()
    } else {
        row_bytes(row.drop_last()) + le_bytes(row.last() as nat, 4)
    }
}

/// The bytes of the scalars of all vectors.
pub open spec fn rows_bytes(vectors: Seq<Vec<u32>>) -> Seq<u8>
    decreases vectors.len(),
{
    if vectors.len() == 0 {
        Seq::empty()
    } else {
        rows_bytes(vectors.drop_last()) + row_bytes(vectors.last()@)
    }
}

/// The dimension that a file of these vectors records: the length of the
/// first, kept in 32 bits; zero where there is none.
pub open spec fn recorded_dimension(vectors: Seq<Vec<u32>>) -> u32 {
    if vectors.len() == 0 {
        0
    } else {
        vectors[0]@.len() as u32
    }
}

/// The file of these vectors.
pub open spec fn vector_file(vectors: Seq<Vec<u32>>) -> Seq<u8> {
    le_bytes(vectors.len(), 8) + le_bytes(recorded_dimension(vectors) as nat, 4) + rows_bytes(
        vectors,
    )
}

/// The count that a file records.
pub open spec fn file_count(bytes: Seq<u8>) -> nat {
    le_value(bytes.subrange(0, 8))
}

/// The dimension that a file records.
pub open spec fn file_dimension(bytes: Seq<u8>) -> nat {
    le_value(bytes.subrange(8, 12))
}

/// Whether the bytes hold a header and every scalar that it announces, and
/// the count is a machine number.
pub open spec fn is_complete(bytes: Seq<u8>) -> bool {
    &&& bytes.len() >= HEADER_LEN
    &&& file_count(bytes) <= usize::MAX
    &&& HEADER_LEN + file_count(bytes) * file_dimension(bytes) * 4 <= bytes.len()
}

/// Where scalar `j` of vector `i` starts in a file of this dimension.
pub open spec fn scalar_offset(dimension: nat, i: int, j: int) -> int {
    HEADER_LEN + (i * dimension + j) * 4
}

/// Scalar `j` of vector `i` in a file.
pub open spec fn file_scalar(bytes: Seq<u8>, i: int, j: int) -> u32 {
    let at = scalar_offset(file_dimension(bytes), i, j);
    le_value(bytes.subrange(at, at + 4)) as u32
}

/// Vector `i` of a file.
pub open spec fn file_vector(bytes: Seq<u8>, i: int) -> Seq<u32> {
    Seq::new(file_dimension(bytes), |j: int| file_scalar(bytes, i, j))
}

/// The vectors of a complete file.
pub open spec fn file_vectors(bytes: Seq<u8>) -> Seq<Seq<u32>> {
    Seq::new(file_count(bytes), |i: int| file_vector(bytes, i))
}

/// A vector of `n` scalars takes `4 n` bytes.
pub proof fn lemma_row_bytes_len(row: Seq<u32>)
    ensures
        row_bytes(row).len() == 4 * row.len(),
    decreases row.len(),
{
    if row.len() > 0 {
        lemma_row_bytes_len(row.drop_last());
        lemma_le_bytes_len(row.last() as nat, 4);
    }
}

/// The four bytes at `4 j` in the bytes of a vector are those of scalar `j`.
pub proof fn lemma_row_bytes_at(row: Seq<u32>, j: int)
    requires
        0 <= j < row.len(),
    ensures
        row_bytes(row).subrange(4 * j, 4 * j + 4) == le_bytes(row[j] as nat, 4),
    decreases row.len(),
{
    let front = row_bytes(row.drop_last());
    let back = le_bytes(row.last() as nat, 4);
    lemma_row_bytes_len(row.drop_last());
    lemma_le_bytes_len(row.last() as nat, 4);
    if j == row.len() - 1 {
        assert((front + back).subrange(4 * j, 4 * j + 4) =~= back);
    } else {
        lemma_row_bytes_at(row.drop_last(), j);
        assert((front + back).subrange(4 * j, 4 * j + 4) =~= front.subrange(4 * j, 4 * j + 4));
    }
}

/// Vectors of one length `d` take `4 d` bytes each.
pub proof fn lemma_rows_bytes_len(vectors: Seq<Vec<u32>>, dimension: nat)
    requires
        forall|i: int| 0 <= i < vectors.len() ==> (#[trigger] vectors[i])@.len() == dimension,
    ensures
        rows_bytes(vectors).len() == 4 * dimension * vectors.len(),
    decreases vectors.len(),
{
    if vectors.len() > 0 {
        lemma_rows_bytes_len(vectors.drop_last(), dimension);
        lemma_row_bytes_len(vectors.last()@);
        assert(4 * dimension * (vectors.len() - 1) + 4 * dimension == 4 * dimension
            * vectors.len()) by (nonlinear_arith);
    }
}

/// In the bytes of vectors of one length `d`, the four bytes at
/// `4 (i d + j)` are those of scalar `j` of vector `i`.
pub proof fn lemma_rows_bytes_at(vectors: Seq<Vec<u32>>, dimension: nat, i: int, j: int)
    requires
        forall|k: int| 0 <= k < vectors.len() ==> (#[trigger] vectors[k])@.len() == dimension,
        0 <= i < vectors.len(),
        0 <= j < dimension,
    ensures
        rows_bytes(vectors).subrange(4 * (i * dimension + j), 4 * (i * dimension + j) + 4)
            == le_bytes(vectors[i]@[j] as nat, 4),
    decreases vectors.len(),
{
    let front = rows_bytes(vectors.drop_last());
    let back = row_bytes(vectors.last()@);
    lemma_rows_bytes_len(vectors.drop_last(), dimension);
    lemma_row_bytes_len(vectors.last()@);
    let at = 4 * (i * dimension + j);
    if i == vectors.len() - 1 {
        lemma_row_bytes_at(vectors.last()@, j);
        assert(at == 4 * dimension * (vectors.len() - 1) + 4 * j) by (nonlinear_arith)
            requires
                at == 4 * (i * dimension + j),
                i == vectors.len() - 1,
        ;
        assert((front + back).subrange(at, at + 4) =~= back.subrange(4 * j, 4 * j + 4));
    } else {
        lemma_rows_bytes_at(vectors.drop_last(), dimension, i, j);
        assert(0 <= at && at + 4 <= 4 * dimension * (vectors.len() - 1)) by (nonlinear_arith)
            requires
                at == 4 * (i * dimension + j),
                0 <= i < vectors.len() - 1,
                0 <= j < dimension,
        ;
        assert((front + back).subrange(at, at + 4) =~= front.subrange(at, at + 4));
    }
}

/// What is written can be read back: the file of vectors of one length,
/// short enough for 32 bits to record it, is complete and holds exactly
/// those vectors.
pub proof fn lemma_vector_file_round_trip(vectors: Seq<Vec<u32>>)
    requires
        vectors.len() <= usize::MAX,
        forall|i: int|
            0 <= i < vectors.len() ==> (#[trigger] vectors[i])@.len() == vectors[0]@.len(),
        vectors.len() > 0 ==> vectors[0]@.len() <= u32::MAX,
    ensures
        is_complete(vector_file(vectors)),
        file_vectors(vector_file(vectors)) == rows(vectors),
{
    let file = vector_file(vectors);
    let count = vectors.len();
    let dimension: nat = if count == 0 {
        0
    } else {
        vectors[0]@.len()
    };
    let head = le_bytes(count, 8);
    let mid = le_bytes(recorded_dimension(vectors) as nat, 4);
    let body = rows_bytes(vectors);
    lemma_le_bytes_len(count, 8);
    lemma_le_bytes_len(recorded_dimension(vectors) as nat, 4);
    lemma_rows_bytes_len(vectors, dimension);
    lemma_radix_of_words();
    lemma_le_round_trip(count, 8);
    lemma_le_round_trip(dimension, 4);
    assert(recorded_dimension(vectors) == dimension);
    assert(file.subrange(0, 8) =~= head);
    assert(file.subrange(8, 12) =~= mid);
    assert(file_count(file) == count);
    assert(file_dimension(file) == dimension);
    assert(count * dimension * 4 == 4 * dimension * count) by (nonlinear_arith);
    assert(is_complete(file));
    assert forall|i: int| 0 <= i < count implies #[trigger] file_vector(file, i) == vectors[i]@ by {
        assert forall|j: int| 0 <= j < dimension implies file_scalar(file, i, j)
            == vectors[i]@[j] by {
            lemma_rows_bytes_at(vectors, dimension, i, j);
            let at = scalar_offset(dimension, i, j);
            assert(at == 12 + 4 * (i * dimension + j));
            assert(0 <= 4 * (i * dimension + j) && 4 * (i * dimension + j) + 4 <= 4 * dimension
                * count) by (nonlinear_arith)
                requires
                    0 <= i < count,
                    0 <= j < dimension,
            ;
            assert(file.subrange(at, at + 4) =~= body.subrange(
                4 * (i * dimension + j),
                4 * (i * dimension + j) + 4,
            ));
            lemma_le_round_trip(vectors[i]@[j] as nat, 4);
        }
        assert(file_vector(file, i) =~= vectors[i]@);
    }
    assert(file_vectors(file) =~= rows(vectors));
}

/// Reads vector `index` of a file whose header has been checked.
pub fn read_vector(bytes: &[u8], dimension: usize, index: usize) -> (vector: Vec<u32>)
    requires
        bytes.len() >= HEADER_LEN,
        dimension == file_dimension(bytes@),
        HEADER_LEN + (index + 1) * dimension * 4 <= bytes.len(),
    ensures
        vector@ == file_vector(bytes@, index as int),
{
    let mut vector: Vec<u32> = Vec::new();
    let mut j: usize = 0;
    while j < dimension
        invariant
            j <= dimension,
            dimension == file_dimension(bytes@),
            HEADER_LEN + (index + 1) * dimension * 4 <= bytes.len(),
            vector@ == file_vector(bytes@, index as int).take(j as int),
        decreases dimension - j,
    {
        assert(HEADER_LEN + (index * dimension + j) * 4 + 4 <= HEADER_LEN + (index + 1) * dimension
            * 4 && index * dimension >= 0) by (nonlinear_arith)
            requires
                j < dimension,
        ;
        let at = HEADER_LEN + (index * dimension + j) * 4;
        let scalar = get_u32(bytes, at);
        vector.push(scalar);
        assert(vector@ =~= file_vector(bytes@, index as int).take(j + 1));
        j = j + 1;
    }
    assert(file_vector(bytes@, index as int).take(dimension as int) =~= file_vector(
        bytes@,
        index as int,
    ));
    vector
}

/// Reads the header of a file: the count and the dimension, where the bytes
/// are a complete file.
pub fn read_header(bytes: &[u8]) -> (header: Option<(usize, usize)>)
    ensures
        header is Some <==> is_complete(bytes@),
        header matches Some((count, dimension)) ==> count == file_count(bytes@) && dimension
            == file_dimension(bytes@),
{
    if bytes.len() < HEADER_LEN {
        return None;
    }
    let count = get_u64(bytes, 0);
    let dimension = get_u32(bytes, 8);
    if count > usize::MAX as u64 {
        return None;
    }
    assert(count * dimension * 4 <= 0xffff_ffff_ffff_ffff * 0xffff_ffff * 4 && count * dimension
        >= 0 && count * dimension <= 0xffff_ffff_ffff_ffff * 0xffff_ffff) by (nonlinear_arith)
        requires
            count <= 0xffff_ffff_ffff_ffff,
            dimension <= 0xffff_ffff,
    ;
    let needed: u128 = (count as u128) * (dimension as u128) * 4;
    let room: u128 = (bytes.len() - HEADER_LEN) as u128;
    if needed > room {
        return None;
    }
    Some((count as usize, dimension as usize))
}

/// The raw vector file format.
pub struct Serializer;

impl Serializer {
    /// What the rejection of an incomplete file says.
    pub open spec fn rejection_text() -> Seq<char> {
        "Unexpected end of vector data"@
    }

    /// Writes the file of these vectors.
    pub fn save_vectors(vectors: &Vec<Vec<u32>>) -> (bytes: Vec<u8>)
        ensures
            bytes@ == vector_file(vectors@),
    {
        let mut bytes: Vec<u8> = Vec::new();
        put_u64(&mut bytes, vectors.len() as u64);
        let dimension: u32 = if vectors.len() == 0 {
            0
        } else {
            vectors[0].len() as u32
        };
        put_u32(&mut bytes, dimension);
        let ghost head = bytes@;
        assert(head =~= le_bytes(vectors@.len(), 8) + le_bytes(
            recorded_dimension(vectors@) as nat,
            4,
        ));
        let mut i: usize = 0;
        assert(vectors@.take(0) =~= Seq::<Vec<u32>>::empty());
        while i < vectors.len()
            invariant
                i <= vectors.len(),
                bytes@ == head + rows_bytes(vectors@.take(i as int)),
            decreases vectors.len() - i,
        {
            let row = &vectors[i];
            let ghost before = bytes@;
            let mut j: usize = 0;
            assert(row@.take(0) =~= Seq::<u32>::empty());
            while j < row.len()
                invariant
                    j <= row.len(),
                    bytes@ == before + row_bytes(row@.take(j as int)),
                decreases row.len() - j,
            {
                assert(row@.take(j + 1).drop_last() =~= row@.take(j as int));
                put_u32(&mut bytes, row[j]);
                j = j + 1;
            }
            assert(row@.take(row.len() as int) =~= row@);
            assert(vectors@.take(i + 1).drop_last() =~= vectors@.take(i as int));
            assert(bytes@ =~= head + rows_bytes(vectors@.take(i + 1)));
            i = i + 1;
        }
        assert(vectors@.take(vectors.len() as int) =~= vectors@);
        bytes
    }

    /// Reads the vectors of a file. Bytes behind the last announced scalar
    /// are ignored; bytes that are no complete file are rejected as
    /// `SerializationError`.
    pub fn load_vectors(bytes: &[u8]) -> (r: Result<Vec<Vec<u32>>, KhadyotaError>)
        ensures
            r is Ok <==> is_complete(bytes@),
            r matches Ok(vectors) ==> rows(vectors@) == file_vectors(bytes@),
            r matches Err(e) ==> e matches KhadyotaError::SerializationError(m) && m@
                == Self::rejection_text(),
    {
        match read_header(bytes) {
            None => Err(
                KhadyotaError::SerializationError(
                    String::from_str("Unexpected end of vector data"),
                ),
            ),
            Some((count, dimension)) => {
                let mut vectors: Vec<Vec<u32>> = Vec::new();
                let mut i: usize = 0;
                while i < count
                    invariant
                        i <= count,
                        is_complete(bytes@),
                        count == file_count(bytes@),
                        dimension == file_dimension(bytes@),
                        vectors.len() == i,
                        forall|k: int|
                            0 <= k < i ==> (#[trigger] vectors[k])@ == file_vector(bytes@, k),
                    decreases count - i,
                {
                    assert((i + 1) * dimension * 4 <= count * dimension * 4) by (nonlinear_arith)
                        requires
                            i < count,
                    ;
                    let vector = read_vector(bytes, dimension, i);
                    vectors.push(vector);
                    i = i + 1;
                }
                assert(rows(vectors@) =~= file_vectors(bytes@));
                Ok(vectors)
            },
        }
    }
}

} // verus!
