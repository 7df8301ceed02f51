//! The store of quantized vectors: one code per vector, and the codec that
//! made them.

use crate::quantization::product_quantization::{PQCodec, CODEBOOK_SIZE};
use crate::ranking::is_first_minimum;
use crate::table::rows;
use vstd::prelude::*;

verus! {

/// The codes of the indexed vectors, by id.
#[derive(Debug, Clone)]
pub struct QuantizedVectors {
    codes: Vec<Vec<u8>>,
    codec: PQCodec,
}

/// What a store holds.
pub struct QuantizedVectorsView {
    /// The codes, by id.
    pub codes: Seq<Seq<u8>>,
    /// The codec that made them.
    pub codec: PQCodec,
}

impl QuantizedVectorsView {
    /// The codec is well formed, every code has one byte per subspace, and
    /// there are no more codes than 32 bits can number.
    pub open spec fn well_formed(self) -> bool {
        &&& self.codec.well_formed()
        &&& self.codes.len() <= u32::MAX
        &&& forall|i: int|
            0 <= i < self.codes.len() ==> (#[trigger] self.codes[i]).len()
                == self.codec.num_subvectors
    }
}

impl View for QuantizedVectors {
    type V = QuantizedVectorsView;

    closed spec fn view(&self) -> QuantizedVectorsView {
        QuantizedVectorsView {
            codes: rows(self.codes@),
            codec: self.codec,
        }
    }
}

impl QuantizedVectors {
    /// What every store satisfies.
    pub open spec fn well_formed(&self) -> bool {
        self@.well_formed()
    }

    /// A store of these codes, where each has one byte per subspace of the
    /// codec and there are no more than 32 bits can number.
    pub fn from_parts(codes: Vec<Vec<u8>>, codec: PQCodec) -> (r: Option<QuantizedVectors>)
        requires
            codec.well_formed(),
        ensures
            r is Some <==> (QuantizedVectorsView {
                codes: rows(codes@),
                codec,
            }).well_formed(),
            r matches Some(store) ==> store@ == (QuantizedVectorsView {
                codes: rows(codes@),
                codec,
            }),
    {
        if codes.len() > u32::MAX as usize {
            return None;
        }
        let mut i: usize = 0;
        while i < codes.len()
            invariant
                i <= codes.len(),
                forall|j: int| 0 <= j < i ==> (#[trigger] codes[j]).len() == codec.num_subvectors,
            decreases codes.len() - i,
        {
            if codes[i].len() != codec.num_subvectors {
                let ghost view = QuantizedVectorsView {
                    codes: rows(codes@),
                    codec,
                };
                assert(view.codes[i as int].len() != codec.num_subvectors);
                return None;
            }
            i = i + 1;
        }
        let store = QuantizedVectors { codes, codec };
        assert(store@.codes =~= rows(codes@));
        Some(store)
    }

    /// The codes, by id.
    pub fn codes(&self) -> (codes: &Vec<Vec<u8>>)
        ensures
            rows(codes@) == self@.codes,
    {
        &self.codes
    }

    /// An empty store for the codes of `codec`.
    pub fn new(codec: PQCodec) -> (store: QuantizedVectors)
        requires
            codec.well_formed(),
        ensures
            store.well_formed(),
            store@.codec == codec,
            store@.codes == Seq::<Seq<u8>>::empty(),
    {
        let store = QuantizedVectors { codes: Vec::new(), codec };
        assert(store@.codes =~= Seq::<Seq<u8>>::empty());
        store
    }

    /// Quantizes a vector, given its table of squared distances to the
    /// centroids of each subspace, and stores the code under the next id.
    pub fn add(&mut self, table: &Vec<Vec<u32>>) -> (id: u32)
        requires
            old(self).well_formed(),
            old(self)@.codes.len() < u32::MAX,
            table.len() == old(self)@.codec.num_subvectors,
            forall|j: int| 0 <= j < table.len() ==> (#[trigger] table[j]).len() == CODEBOOK_SIZE,
        ensures
            final(self).well_formed(),
            final(self)@.codec == old(self)@.codec,
            id == old(self)@.codes.len(),
            final(self)@.codes.len() == old(self)@.codes.len() + 1,
            final(self)@.codes.drop_last() == old(self)@.codes,
            final(self)@.codes.last().len() == table.len(),
            forall|j: int|
                0 <= j < table.len() ==> is_first_minimum(
                    (#[trigger] table[j])@,
                    final(self)@.codes.last()[j] as int,
                ),
    {
        let code = self.codec.encode(table);
        let id = self.codes.len() as u32;
        self.codes.push(code);
        assert(self@.codes.drop_last() =~= old(self)@.codes);
        assert forall|i: int| 0 <= i < self@.codes.len() implies (#[trigger] self@.codes[i]).len()
            == self@.codec.num_subvectors by {
            if i < old(self)@.codes.len() {
                assert(self@.codes[i] == old(self)@.codes[i]);
            }
        }
        id
    }

    /// Quantizes vectors, given the table of each, and stores the codes
    /// under the next ids, in order.
    pub fn add_batch(&mut self, tables: &Vec<Vec<Vec<u32>>>)
        requires
            old(self).well_formed(),
            old(self)@.codes.len() + tables.len() <= u32::MAX,
            forall|t: int|
                0 <= t < tables.len() ==> (#[trigger] tables[t]).len()
                    == old(self)@.codec.num_subvectors,
            forall|t: int, j: int|
                0 <= t < tables.len() && 0 <= j < tables[t].len() ==> (
                #[trigger] tables[t][j]).len() == CODEBOOK_SIZE,
        ensures
            final(self).well_formed(),
            final(self)@.codec == old(self)@.codec,
            final(self)@.codes.len() == old(self)@.codes.len() + tables.len(),
            final(self)@.codes.take(old(self)@.codes.len() as int) == old(self)@.codes,
            forall|t: int, j: int|
                0 <= t < tables.len() && 0 <= j < tables[t].len() ==> is_first_minimum(
                    (#[trigger] tables[t][j])@,
                    final(self)@.codes[old(self)@.codes.len() + t][j] as int,
                ),
    {
        let ghost start = self@.codes.len();
        let mut t: usize = 0;
        while t < tables.len()
            invariant
                t <= tables.len(),
                self.well_formed(),
                start == old(self)@.codes.len(),
                start + tables.len() <= u32::MAX,
                self@.codec == old(self)@.codec,
                self@.codes.len() == start + t,
                self@.codes.take(start as int) == old(self)@.codes,
                forall|s: int|
                    0 <= s < tables.len() ==> (#[trigger] tables[s]).len()
                        == self@.codec.num_subvectors,
                forall|s: int, j: int|
                    0 <= s < tables.len() && 0 <= j < tables[s].len() ==> (
                    #[trigger] tables[s][j]).len() == CODEBOOK_SIZE,
                forall|s: int, j: int|
                    0 <= s < t && 0 <= j < tables[s].len() ==> is_first_minimum(
                        (#[trigger] tables[s][j])@,
                        self@.codes[start + s][j] as int,
                    ),
            decreases tables.len() - t,
        {
            let ghost before = self@.codes;
            let table = &tables[t];
            assert forall|j: int| 0 <= j < table.len() implies (#[trigger] table[j]).len()
                == CODEBOOK_SIZE by {
                assert(tables[t as int][j].len() == CODEBOOK_SIZE);
            }
            self.add(table);
            assert(before =~= self@.codes.drop_last());
            assert(self@.codes.take(start as int) =~= before.take(start as int));
            assert forall|s: int, j: int|
                0 <= s < t + 1 && 0 <= j < tables[s].len() implies is_first_minimum(
                (#[trigger] tables[s][j])@,
                self@.codes[start + s][j] as int,
            ) by {
                if s < t {
                    assert(self@.codes[start + s] == before[start + s]);
                } else {
                    assert(self@.codes[start + s] == self@.codes.last());
                    assert(tables[s][j] == table[j]);
                }
            }
            t = t + 1;
        }
    }

    /// The code stored under `id`.
    pub fn get_codes(&self, id: u32) -> (code: &Vec<u8>)
        requires
            (id as int) < self@.codes.len(),
        ensures
            code@ == self@.codes[id as int],
    {
        &self.codes[id as usize]
    }

    /// The entries that the code stored under `id` selects from a table.
    pub fn table_lookup_terms(&self, table: &Vec<Vec<u32>>, id: u32) -> (terms: Vec<u32>)
        requires
            self.well_formed(),
            (id as int) < self@.codes.len(),
            table.len() == self@.codec.num_subvectors,
            forall|j: int| 0 <= j < table.len() ==> (#[trigger] table[j]).len() == CODEBOOK_SIZE,
        ensures
            terms.len() == table.len(),
            forall|j: int|
                0 <= j < table.len() ==> terms[j] == table[j][self@.codes[id as int][j] as int],
    {
        let codes = self.get_codes(id);
        self.codec.table_lookup_terms(table, codes)
    }

    /// The codec that made the codes.
    pub fn codec(&self) -> (codec: &PQCodec)
        ensures
            *codec == self@.codec,
    {
        &self.codec
    }

    /// How many codes are stored.
    pub fn len(&self) -> (n: usize)
        ensures
            n == self@.codes.len(),
    {
        self.codes.len()
    }

    /// Whether no code is stored.
    pub fn is_empty(&self) -> (b: bool)
        ensures
            b <==> self@.codes.len() == 0,
    {
        self.codes.len() == 0
    }
}

} // verus!
