//! The product-quantization codec: a vector is cut into subvectors, and each
//! subvector is named by the nearest centroid of its own codebook.

use crate::error::KhadyotaError;
use crate::quantization::codebook::Codebook;
use crate::ranking::is_first_minimum;
use crate::scalar::{is_finite, rank};
use crate::table::{is_all_finite, rows};
use vstd::prelude::*;
use vstd::string::*;

verus! {

/// The number of centroids in each codebook of a codec.
pub const CODEBOOK_SIZE: usize = 256;

/// The part of `vector` that belongs to subspace `subvec_idx`.
pub open spec fn subvector(vector: Seq<u32>, subvec_idx: int, subvec_size: int) -> Seq<u32> {
    vector.subrange(subvec_idx * subvec_size, (subvec_idx + 1) * subvec_size)
}

/// The centroids that the first `upto` bytes of `codes` name, one after the
/// other.
pub open spec fn decoded(codebooks: Seq<Codebook>, codes: Seq<u8>, upto: nat) -> Seq<u32>
    decreases upto,
{
    if upto == 0 {
        Seq::empty()
    } else {
        decoded(codebooks, codes, (upto - 1) as nat) + codebooks[upto - 1].centroids@[codes[upto
            - 1] as int]@
    }
}

/// Whether `codes` is the code that a table gives: byte `j` names the first
/// least entry of row `j`.
pub open spec fn encodes(table: Seq<Seq<u32>>, codes: Seq<u8>) -> bool {
    &&& codes.len() == table.len()
    &&& forall|j: int| 0 <= j < table.len() ==> is_first_minimum(#[trigger] table[j], codes[j] as int)
}

/// The entries of a table that a code selects: entry `j` is the one that
/// row `j` holds for byte `j` of the code.
pub open spec fn selected_terms(table: Seq<Seq<u32>>, codes: Seq<u8>) -> Seq<u32> {
    Seq::new(codes.len(), |j: int| table[j][codes[j] as int])
}

/// The table of a vector under a measure of distance: entry `c` of row `j`
/// is what the measure gives for subvector `j` and centroid `c` of codebook
/// `j`.
pub open spec fn measured_table(
    codec: PQCodec,
    measure: spec_fn(Seq<u32>, Seq<u32>) -> u32,
    vector: Seq<u32>,
) -> Seq<Seq<u32>> {
    Seq::new(
        codec.num_subvectors as nat,
        |j: int|
            Seq::new(
                CODEBOOK_SIZE as nat,
                |c: int|
                    measure(
                        subvector(vector, j, codec.subvector_size as int),
                        codec.codebooks@[j].centroids@[c]@,
                    ),
            ),
    )
}

/// The codec: one codebook per subspace.
#[derive(Debug, Clone)]
pub struct PQCodec {
    /// How many subvectors a vector is cut into.
    pub num_subvectors: usize,
    /// The length of each subvector.
    pub subvector_size: usize,
    /// The codebook of each subspace.
    pub codebooks: Vec<Codebook>,
}

impl PQCodec {
    /// One codebook per subspace, each with 256 centroids of the length of a
    /// subvector, every scalar of them a number that is not an infinity; and
    /// the length of a whole vector is a machine number.
    pub open spec fn well_formed(&self) -> bool {
        &&& self.codebooks@.len() == self.num_subvectors
        &&& self.num_subvectors * self.subvector_size <= usize::MAX
        &&& forall|j: int|
            0 <= j < self.codebooks@.len() ==> (#[trigger] self.codebooks@[j]).holds(
                self.subvector_size,
            )
    }

    /// The length of the vectors that the codec takes.
    pub open spec fn dimensions(&self) -> nat {
        (self.num_subvectors * self.subvector_size) as nat
    }

    /// Whether these codebooks make a codec for vectors of length
    /// `dimensions`: there is one, their number divides the length, and each
    /// holds 256 centroids of the length of a subvector, every scalar of
    /// them a number that is not an infinity.
    pub open spec fn fits(codebooks: Seq<Codebook>, dimensions: usize) -> bool {
        &&& codebooks.len() > 0
        &&& dimensions as int % codebooks.len() as int == 0
        &&& forall|j: int|
            0 <= j < codebooks.len() ==> (#[trigger] codebooks[j]).holds(
                (dimensions as int / codebooks.len() as int) as usize,
            )
    }

    /// Assembles a codec for vectors of length `dimensions` from the trained
    /// codebooks of its subspaces, in order. Codebooks that do not fit are
    /// rejected as `InvalidConfig`.
    pub fn train(codebooks: Vec<Codebook>, dimensions: usize) -> (r: Result<
        PQCodec,
        KhadyotaError,
    >)
        ensures
            r is Ok <==> Self::fits(codebooks@, dimensions),
            r matches Ok(codec) ==> {
                &&& codec.well_formed()
                &&& codec.codebooks == codebooks
                &&& codec.dimensions() == dimensions
            },
            r matches Err(e) ==> e matches KhadyotaError::InvalidConfig(m) && m@
                == "Codebooks do not fit the vector dimensions"@,
    {
        let num_subvectors = codebooks.len();
        if num_subvectors == 0 || dimensions % num_subvectors != 0 {
            return Err(
                KhadyotaError::InvalidConfig(
                    String::from_str("Codebooks do not fit the vector dimensions"),
                ),
            );
        }
        let subvector_size = dimensions / num_subvectors;
        let mut j: usize = 0;
        while j < num_subvectors
            invariant
                j <= num_subvectors,
                num_subvectors == codebooks.len(),
                num_subvectors > 0,
                subvector_size == dimensions / num_subvectors,
                forall|i: int| 0 <= i < j ==> (#[trigger] codebooks@[i]).holds(subvector_size),
            decreases num_subvectors - j,
        {
            if !shaped(&codebooks[j], subvector_size) {
                return Err(
                    KhadyotaError::InvalidConfig(
                        String::from_str("Codebooks do not fit the vector dimensions"),
                    ),
                );
            }
            j = j + 1;
        }
        proof {
            vstd::arithmetic::div_mod::lemma_fundamental_div_mod(
                dimensions as int,
                num_subvectors as int,
            );
            assert(num_subvectors * subvector_size == dimensions) by (nonlinear_arith)
                requires
                    dimensions == num_subvectors * (dimensions as int / num_subvectors as int)
                        + dimensions as int % num_subvectors as int,
                    dimensions as int % num_subvectors as int == 0,
                    subvector_size == dimensions as int / num_subvectors as int,
            ;
        }
        Ok(PQCodec { num_subvectors, subvector_size, codebooks })
    }

    /// The code of a vector, given the table of squared distances from each
    /// of its subvectors to each centroid of that subspace: byte `j` names
    /// the first least entry of row `j`.
    pub fn encode(&self, table: &Vec<Vec<u32>>) -> (codes: Vec<u8>)
        requires
            self.well_formed(),
            table.len() == self.num_subvectors,
            forall|j: int| 0 <= j < table.len() ==> (#[trigger] table[j]).len() == CODEBOOK_SIZE,
        ensures
            codes.len() == self.num_subvectors,
            encodes(rows(table@), codes@),
            forall|j: int|
                0 <= j < codes.len() ==> is_first_minimum(
                    (#[trigger] table[j])@,
                    codes[j] as int,
                ),
    {
        let mut codes: Vec<u8> = Vec::new();
        let mut j: usize = 0;
        while j < self.codebooks.len()
            invariant
                j <= self.codebooks.len(),
                self.well_formed(),
                table.len() == self.num_subvectors,
                forall|i: int|
                    0 <= i < table.len() ==> (#[trigger] table[i]).len() == CODEBOOK_SIZE,
                codes.len() == j,
                forall|i: int|
                    0 <= i < j ==> is_first_minimum((#[trigger] table[i])@, codes[i] as int),
            decreases self.codebooks.len() - j,
        {
            let code = self.codebooks[j].encode(&table[j]);
            codes.push(code);
            j = j + 1;
        }
        assert forall|i: int| 0 <= i < rows(table@).len() implies is_first_minimum(
            #[trigger] rows(table@)[i],
            codes[i] as int,
        ) by {
            assert(is_first_minimum(table[i]@, codes[i] as int));
        }
        codes
    }

    /// The vector that a code stands for: the named centroids, one after the
    /// other.
    pub fn decode(&self, codes: &Vec<u8>) -> (vector: Vec<u32>)
        requires
            self.well_formed(),
            codes.len() == self.num_subvectors,
        ensures
            vector@ == decoded(self.codebooks@, codes@, self.num_subvectors as nat),
    {
        let mut vector: Vec<u32> = Vec::new();
        let mut j: usize = 0;
        while j < codes.len()
            invariant
                j <= codes.len(),
                self.well_formed(),
                codes.len() == self.num_subvectors,
                vector@ == decoded(self.codebooks@, codes@, j as nat),
            decreases codes.len() - j,
        {
            let centroid = self.codebooks[j].decode(codes[j]);
            vector.extend_from_slice(centroid.as_slice());
            j = j + 1;
        }
        vector
    }

    /// The entries of `table` that a code selects: entry `j` is the one that
    /// row `j` holds for byte `j` of the code. Their sum is the squared
    /// distance between the query of the table and the coded vector.
    pub fn table_lookup_terms(&self, table: &Vec<Vec<u32>>, codes: &Vec<u8>) -> (terms: Vec<u32>)
        requires
            codes.len() <= table.len(),
            forall|j: int| 0 <= j < table.len() ==> (#[trigger] table[j]).len() == CODEBOOK_SIZE,
        ensures
            terms@ == selected_terms(rows(table@), codes@),
            terms.len() == codes.len(),
            forall|j: int| 0 <= j < codes.len() ==> terms[j] == table[j][codes[j] as int],
    {
        let mut terms: Vec<u32> = Vec::new();
        let mut j: usize = 0;
        while j < codes.len()
            invariant
                j <= codes.len() <= table.len(),
                forall|i: int|
                    0 <= i < table.len() ==> (#[trigger] table[i]).len() == CODEBOOK_SIZE,
                terms.len() == j,
                forall|i: int| 0 <= i < j ==> terms[i] == table[i][codes[i] as int],
            decreases codes.len() - j,
        {
            terms.push(table[j][codes[j] as usize]);
            j = j + 1;
        }
        assert(terms@ =~= selected_terms(rows(table@), codes@));
        terms
    }
}

/// Every codebook of a codec holds 256 centroids; every centroid has the
/// length of the vector divided by the number of subvectors, and every
/// scalar of it is a number that is not an infinity.
pub proof fn lemma_codebook_shape(codec: PQCodec, j: int, c: int, i: int)
    requires
        codec.well_formed(),
        0 <= j < codec.num_subvectors,
        0 <= c < 256,
        0 <= i < codec.subvector_size,
    ensures
        codec.codebooks@[j].centroids@.len() == 256,
        codec.codebooks@[j].centroids@[c]@.len() == codec.subvector_size,
        is_finite(codec.codebooks@[j].centroids@[c]@[i]),
        codec.num_subvectors * codec.subvector_size == codec.dimensions(),
        codec.dimensions() / codec.num_subvectors as nat == codec.subvector_size,
        codec.dimensions() % codec.num_subvectors as nat == 0,
{
    assert(codec.codebooks@[j].holds(codec.subvector_size));
    assert(is_finite(codec.codebooks@[j].centroid_rows()[c][i]));
    vstd::arithmetic::div_mod::lemma_div_multiples_vanish(
        codec.subvector_size as int,
        codec.num_subvectors as int,
    );
    vstd::arithmetic::div_mod::lemma_mod_multiples_basic(
        codec.subvector_size as int,
        codec.num_subvectors as int,
    );
    assert(codec.num_subvectors * codec.subvector_size == codec.subvector_size
        * codec.num_subvectors) by (nonlinear_arith);
}

/// Subvector `j` of a decoded code is the centroid that byte `j` names.
pub proof fn lemma_decoded_subvector(codec: PQCodec, codes: Seq<u8>, j: int)
    requires
        codec.well_formed(),
        codes.len() == codec.num_subvectors,
        0 <= j < codec.num_subvectors,
    ensures
        decoded(codec.codebooks@, codes, codec.num_subvectors as nat).len() == codec.dimensions(),
        subvector(
            decoded(codec.codebooks@, codes, codec.num_subvectors as nat),
            j,
            codec.subvector_size as int,
        ) == codec.codebooks@[j].centroids@[codes[j] as int]@,
{
    lemma_decoded_prefix(codec, codes, codec.num_subvectors as nat, j);
}

/// Subvector `j` of the centroids that the first `upto` bytes name is the
/// centroid that byte `j` names.
proof fn lemma_decoded_prefix(codec: PQCodec, codes: Seq<u8>, upto: nat, j: int)
    requires
        codec.well_formed(),
        codes.len() == codec.num_subvectors,
        upto <= codec.num_subvectors,
    ensures
        decoded(codec.codebooks@, codes, upto).len() == upto * codec.subvector_size,
        0 <= j < upto ==> subvector(
            decoded(codec.codebooks@, codes, upto),
            j,
            codec.subvector_size as int,
        ) == codec.codebooks@[j].centroids@[codes[j] as int]@,
    decreases upto,
{
    let size = codec.subvector_size as int;
    if upto > 0 {
        let before = (upto - 1) as nat;
        lemma_decoded_prefix(codec, codes, before, j);
        let head = decoded(codec.codebooks@, codes, before);
        let book = codec.codebooks@[upto - 1];
        assert(book.holds(codec.subvector_size));
        let tail = book.centroids@[codes[upto - 1] as int]@;
        assert(tail == book.centroid_rows()[codes[upto - 1] as int]);
        assert(tail.len() == size);
        assert(before * size + size == upto * size) by (nonlinear_arith)
            requires
                before + 1 == upto,
        ;
        if 0 <= j < upto {
            if j == upto - 1 {
                assert((head + tail).subrange(j * size, (j + 1) * size) =~= tail) by {
                    assert((j + 1) * size == j * size + size) by (nonlinear_arith);
                }
            } else {
                assert(0 <= j * size <= (j + 1) * size <= before * size) by (nonlinear_arith)
                    requires
                        0 <= j < before,
                        size >= 0,
                ;
                assert(head.len() == before * size);
                assert((head + tail).subrange(j * size, (j + 1) * size) =~= head.subrange(
                    j * size,
                    (j + 1) * size,
                ));
            }
        }
    }
}

/// Looking a code up in a table gives the terms that the measure of the
/// table gives directly, in the same order: whatever the measure, the sum
/// over the table is the sum over the subvectors.
pub proof fn lemma_lookup_is_direct(
    codec: PQCodec,
    measure: spec_fn(Seq<u32>, Seq<u32>) -> u32,
    query: Seq<u32>,
    codes: Seq<u8>,
)
    requires
        codes.len() == codec.num_subvectors,
    ensures
        selected_terms(measured_table(codec, measure, query), codes) == Seq::new(
            codec.num_subvectors as nat,
            |j: int|
                measure(
                    subvector(query, j, codec.subvector_size as int),
                    codec.codebooks@[j].centroids@[codes[j] as int]@,
                ),
        ),
{
    assert(selected_terms(measured_table(codec, measure, query), codes) =~= Seq::new(
        codec.num_subvectors as nat,
        |j: int|
            measure(
                subvector(query, j, codec.subvector_size as int),
                codec.codebooks@[j].centroids@[codes[j] as int]@,
            ),
    ));
}

/// Encoding what a code decodes to gives the code again, under every
/// measure of distance that is zero from a vector to itself, never below
/// zero, and not zero between two centroids of one codebook.
pub proof fn lemma_decoded_code_encodes_to_itself(
    codec: PQCodec,
    measure: spec_fn(Seq<u32>, Seq<u32>) -> u32,
    codes: Seq<u8>,
    again: Seq<u8>,
)
    requires
        codec.well_formed(),
        codes.len() == codec.num_subvectors,
        forall|x: Seq<u32>| rank(#[trigger] measure(x, x)) == 0,
        forall|x: Seq<u32>, y: Seq<u32>| rank(#[trigger] measure(x, y)) >= 0,
        forall|j: int, a: int, b: int|
            0 <= j < codec.num_subvectors && 0 <= a < CODEBOOK_SIZE && 0 <= b < CODEBOOK_SIZE && a
                != b ==> rank(
                #[trigger] measure(
                    codec.codebooks@[j].centroids@[a]@,
                    codec.codebooks@[j].centroids@[b]@,
                ),
            ) != 0,
        encodes(
            measured_table(
                codec,
                measure,
                decoded(codec.codebooks@, codes, codec.num_subvectors as nat),
            ),
            again,
        ),
    ensures
        again == codes,
{
    let vector = decoded(codec.codebooks@, codes, codec.num_subvectors as nat);
    let table = measured_table(codec, measure, vector);
    assert forall|j: int| 0 <= j < codes.len() implies again[j] == codes[j] by {
        lemma_decoded_subvector(codec, codes, j);
        let named = codec.codebooks@[j].centroids@[codes[j] as int]@;
        let row = table[j];
        assert(is_first_minimum(row, again[j] as int));
        assert(row[codes[j] as int] == measure(named, named));
        if again[j] != codes[j] {
            assert(row[again[j] as int] == measure(
                named,
                codec.codebooks@[j].centroids@[again[j] as int]@,
            ));
            assert(rank(row[again[j] as int]) <= rank(row[codes[j] as int]));
        }
    }
    assert(again =~= codes);
}

/// Encoding is idempotent: the code of what the code of a vector decodes to
/// is that code again. This holds under every measure of distance that is
/// zero from a vector to itself, never below zero, and that tells two
/// centroids of one codebook apart whenever it tells them apart from any
/// other vector: where it is zero between two centroids, both are equally
/// far from everything.
pub proof fn lemma_encoding_is_idempotent(
    codec: PQCodec,
    measure: spec_fn(Seq<u32>, Seq<u32>) -> u32,
    vector: Seq<u32>,
    codes: Seq<u8>,
    again: Seq<u8>,
)
    requires
        codec.well_formed(),
        forall|x: Seq<u32>| rank(#[trigger] measure(x, x)) == 0,
        forall|x: Seq<u32>, y: Seq<u32>| rank(#[trigger] measure(x, y)) >= 0,
        forall|j: int, a: int, b: int, z: Seq<u32>|
            0 <= j < codec.num_subvectors && 0 <= a < CODEBOOK_SIZE && 0 <= b < CODEBOOK_SIZE
                && rank(
                measure(codec.codebooks@[j].centroids@[a]@, codec.codebooks@[j].centroids@[b]@),
            ) == 0 ==> rank(#[trigger] measure(z, codec.codebooks@[j].centroids@[a]@)) == rank(
                #[trigger] measure(z, codec.codebooks@[j].centroids@[b]@),
            ),
        encodes(measured_table(codec, measure, vector), codes),
        encodes(
            measured_table(
                codec,
                measure,
                decoded(codec.codebooks@, codes, codec.num_subvectors as nat),
            ),
            again,
        ),
    ensures
        again == codes,
{
    let first = measured_table(codec, measure, vector);
    let second = measured_table(
        codec,
        measure,
        decoded(codec.codebooks@, codes, codec.num_subvectors as nat),
    );
    assert forall|j: int| 0 <= j < codes.len() implies again[j] == codes[j] by {
        lemma_decoded_subvector(codec, codes, j);
        let book = codec.codebooks@[j].centroids@;
        let named = book[codes[j] as int]@;
        let part = subvector(vector, j, codec.subvector_size as int);
        assert(is_first_minimum(first[j], codes[j] as int));
        assert(is_first_minimum(second[j], again[j] as int));
        assert(second[j][codes[j] as int] == measure(named, named));
        assert(second[j][again[j] as int] == measure(named, book[again[j] as int]@));
        assert(rank(second[j][again[j] as int]) <= rank(second[j][codes[j] as int]));
        assert(rank(measure(named, book[again[j] as int]@)) == 0);
        assert(rank(measure(part, named)) == rank(measure(part, book[again[j] as int]@)));
        assert(first[j][codes[j] as int] == measure(part, named));
        assert(first[j][again[j] as int] == measure(part, book[again[j] as int]@));
        if again[j] < codes[j] {
            assert(rank(first[j][codes[j] as int]) < rank(first[j][again[j] as int]));
        } else if codes[j] < again[j] {
            assert(rank(second[j][again[j] as int]) < rank(second[j][codes[j] as int]));
        }
    }
    assert(again =~= codes);
}

/// Tells whether a codebook holds 256 centroids of the given length, every
/// scalar of them a number that is not an infinity.
fn shaped(codebook: &Codebook, subvector_size: usize) -> (b: bool)
    ensures
        b == codebook.holds(subvector_size),
{
    if codebook.centroids.len() != CODEBOOK_SIZE || codebook.dimensions != subvector_size {
        return false;
    }
    let mut c: usize = 0;
    while c < codebook.centroids.len()
        invariant
            c <= codebook.centroids.len(),
            codebook.centroids.len() == CODEBOOK_SIZE,
            codebook.dimensions == subvector_size,
            forall|i: int|
                0 <= i < c ==> (#[trigger] codebook.centroids@[i])@.len() == codebook.dimensions,
        decreases codebook.centroids.len() - c,
    {
        if codebook.centroids[c].len() != subvector_size {
            return false;
        }
        c = c + 1;
    }
    is_all_finite(&codebook.centroids)
}

/// Cuts the subvector of one subspace out of a vector.
pub fn extract_subvector(vector: &Vec<u32>, subvec_idx: usize, subvec_size: usize) -> (sub: Vec<
    u32,
>)
    requires
        (subvec_idx + 1) * subvec_size <= vector.len(),
    ensures
        sub@ == subvector(vector@, subvec_idx as int, subvec_size as int),
{
    assert(subvec_idx * subvec_size + subvec_size == (subvec_idx + 1) * subvec_size)
        by (nonlinear_arith);
    assert(subvec_idx * subvec_size >= 0) by (nonlinear_arith);
    let start = subvec_idx * subvec_size;
    let end = start + subvec_size;
    let mut sub: Vec<u32> = Vec::new();
    let mut i: usize = start;
    while i < end
        invariant
            start <= i <= end <= vector.len(),
            sub@ == vector@.subrange(start as int, i as int),
        decreases end - i,
    {
        sub.push(vector[i]);
        assert(sub@ =~= vector@.subrange(start as int, i + 1));
        i = i + 1;
    }
    sub
}

/// Cuts the subvectors of one subspace out of every training vector.
pub fn extract_subvectors(
    training_vectors: &Vec<Vec<u32>>,
    subvec_idx: usize,
    subvec_size: usize,
) -> (subs: Vec<Vec<u32>>)
    requires
        forall|i: int|
            0 <= i < training_vectors.len() ==> (subvec_idx + 1) * subvec_size <= (
            #[trigger] training_vectors[i]).len(),
    ensures
        subs.len() == training_vectors.len(),
        forall|i: int|
            0 <= i < subs.len() ==> (#[trigger] subs[i])@ == subvector(
                training_vectors[i]@,
                subvec_idx as int,
                subvec_size as int,
            ),
{
    let mut subs: Vec<Vec<u32>> = Vec::new();
    let mut i: usize = 0;
    while i < training_vectors.len()
        invariant
            i <= training_vectors.len(),
            forall|k: int|
                0 <= k < training_vectors.len() ==> (subvec_idx + 1) * subvec_size <= (
                #[trigger] training_vectors[k]).len(),
            subs.len() == i,
            forall|k: int|
                0 <= k < i ==> (#[trigger] subs[k])@ == subvector(
                    training_vectors[k]@,
                    subvec_idx as int,
                    subvec_size as int,
                ),
        decreases training_vectors.len() - i,
    {
        let sub = extract_subvector(&training_vectors[i], subvec_idx, subvec_size);
        subs.push(sub);
        i = i + 1;
    }
    subs
}

} // verus!
