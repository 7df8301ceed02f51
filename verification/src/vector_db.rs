//! The database: the stored vectors, the index built on them, and the
//! bookkeeping that tells whether the index still matches the vectors.

use crate::config::Config;
use crate::error::KhadyotaError;
use crate::indexing::ivf::{clamped_probe, IVFIndex, IVFIndexView};
use crate::indexing::posting::{
    files, gathered, lemma_files, lemma_gathered_is_distinct, total_len,
};
use crate::ranking::{
    indexed, indices, lemma_nearest_is_selection, lemma_selected_indices_are_distinct, nearest,
    select_nearest, selected_len, Scored,
};
use crate::scalar::rank;
use crate::storage::format::{FileHeader, VERSION};
use crate::storage::quantized::QuantizedVectors;
use crate::table::rows;
use crate::types::SearchResult;
use std::collections::HashMap;
use vstd::prelude::*;
use vstd::string::*;

verus! {

/// The vector database.
pub struct VectorDB {
    config: Config,
    vectors: Vec<Vec<u32>>,
    quantized: Option<QuantizedVectors>,
    ivf_index: Option<IVFIndex>,
    metadata: HashMap<u32, serde_json::Value>,
    next_id: u32,
    index_built: bool,
}

/// A query, as the distances that were measured for it.
#[derive(Debug, Clone)]
pub struct ScoredQuery {
    /// The length of the query vector.
    pub query_len: usize,
    /// The distance from the query to each coarse centroid.
    pub centroid_distances: Vec<u32>,
    /// The distance from the query to each of its candidates, in their
    /// order.
    pub distances: Vec<u32>,
}

/// The ids `0` up to `count`, ascending.
pub open spec fn all_ids(count: nat) -> Seq<u32> {
    Seq::new(count, |i: int| i as u32)
}

/// What a database holds.
pub struct VectorDBView {
    /// The configuration the database was created with.
    pub config: Config,
    /// The stored vectors, by id.
    pub vectors: Seq<Seq<u32>>,
    /// The codes of the vectors, where the last build made any.
    pub quantized: Option<QuantizedVectors>,
    /// The coarse partition of the last build.
    pub ivf_index: Option<IVFIndex>,
    /// What was stored with the vectors, by id.
    pub metadata: Map<u32, serde_json::Value>,
    /// The id that the next vector gets.
    pub next_id: u32,
    /// Whether the index matches the stored vectors.
    pub index_built: bool,
}

impl View for VectorDB {
    type V = VectorDBView;

    closed spec fn view(&self) -> VectorDBView {
        VectorDBView {
            config: self.config,
            vectors: rows(self.vectors@),
            quantized: self.quantized,
            ivf_index: self.ivf_index,
            metadata: self.metadata@,
            next_id: self.next_id,
            index_built: self.index_built,
        }
    }
}

impl VectorDBView {
    /// The configuration is valid, every vector has its length, ids are
    /// given out densely, and an index that counts as built matches the
    /// vectors.
    pub open spec fn well_formed(self) -> bool {
        &&& self.config.is_valid()
        &&& self.next_id == self.vectors.len()
        &&& forall|i: int|
            0 <= i < self.vectors.len() ==> (#[trigger] self.vectors[i]).len()
                == self.config.dimensions
        &&& self.index_built ==> self.index_matches()
    }

    /// Whether the index is one that a build leaves: a trained partition
    /// for vectors of the configured length that files every stored vector
    /// and, exactly where quantization is on, one code per vector.
    pub open spec fn index_matches(self) -> bool {
        &&& self.ivf_index matches Some(index) && index.well_formed() && index.is_trained()
            && index@.dimensions == self.config.dimensions && total_len(index@.lists)
            == self.vectors.len()
        &&& self.quantized is Some <==> self.config.use_pq
        &&& self.quantized matches Some(store) ==> store.well_formed() && store@.codes.len()
            == self.vectors.len() && store@.codec.dimensions() == self.config.dimensions
    }

    /// Whether a header records the dimension of this database, kept in 32
    /// bits, the number of its vectors, and its metric.
    pub open spec fn describes(self, header: FileHeader) -> bool {
        &&& header.dimensions == self.config.dimensions as u32
        &&& header.vector_count == self.vectors.len()
        &&& header.metric == self.config.metric
    }

    /// Whether queries go through the partition and the codes rather than
    /// over all vectors.
    pub open spec fn uses_index(self) -> bool {
        self.ivf_index is Some && self.quantized is Some
    }

    /// Why a query of this length is refused, if it is: a wrong length
    /// before an index that is not built.
    pub open spec fn query_error(self, query_len: usize) -> Option<KhadyotaError> {
        if query_len != self.config.dimensions {
            Some(
                KhadyotaError::DimensionMismatch {
                    expected: self.config.dimensions,
                    got: query_len,
                },
            )
        } else if !self.index_built {
            Some(KhadyotaError::IndexNotBuilt)
        } else {
            None
        }
    }

    /// The ids to score for a query at these distances from the coarse
    /// centroids: the posting lists of the clusters probed, in probe order;
    /// or every id, where queries do not go through the index.
    pub open spec fn candidate_ids(self, centroid_distances: Seq<u32>) -> Seq<u32> {
        if self.uses_index() {
            let index = self.ivf_index->0;
            gathered(
                index@.lists,
                indices(nearest(indexed(centroid_distances), index@.num_probe as nat)),
            )
        } else {
            all_ids(self.vectors.len())
        }
    }

    /// The result that stands for a scored id: the id, its distance, and
    /// what was stored with it.
    pub open spec fn found(self, scored: Scored) -> SearchResult {
        SearchResult {
            id: scored.index as u32,
            distance: scored.distance,
            metadata: if self.metadata.dom().contains(scored.index as u32) {
                Some(self.metadata[scored.index as u32])
            } else {
                None
            },
        }
    }

    /// Whether distances measured for a query fit the index: one for each
    /// coarse centroid, where queries go through the index, and one for
    /// each candidate.
    pub open spec fn takes(self, centroid_distances: Seq<u32>, distances: Seq<u32>) -> bool {
        &&& self.uses_index() ==> centroid_distances.len() == self.ivf_index->0@.centroids.len()
        &&& distances.len() == self.candidate_ids(centroid_distances).len()
    }

    /// The candidates of a query, each with the distance measured for it.
    pub open spec fn scored(self, centroid_distances: Seq<u32>, distances: Seq<u32>) -> Seq<
        Scored,
    > {
        let ids = self.candidate_ids(centroid_distances);
        Seq::new(ids.len(), |i: int| Scored { index: ids[i] as usize, distance: distances[i] })
    }

    /// The results of a query: the `k` nearest of its candidates, nearest
    /// first, a lower id before a higher one at the same distance.
    pub open spec fn results(
        self,
        centroid_distances: Seq<u32>,
        distances: Seq<u32>,
        k: usize,
    ) -> Seq<SearchResult> {
        let best = nearest(self.scored(centroid_distances, distances), k as nat);
        Seq::new(best.len(), |i: int| self.found(best[i]))
    }

    /// Whether `r` is the answer to a query: the refusal, where the query
    /// is refused, and else the results.
    pub open spec fn answers(
        self,
        query_len: usize,
        centroid_distances: Seq<u32>,
        distances: Seq<u32>,
        k: usize,
        r: Result<Vec<SearchResult>, KhadyotaError>,
    ) -> bool {
        match r {
            Ok(found) => self.query_error(query_len) is None && found@ == self.results(
                centroid_distances,
                distances,
                k,
            ),
            Err(e) => self.query_error(query_len) == Some(e),
        }
    }

    /// Whether a trained index fits the stored vectors: codes exactly where
    /// quantization is on, one per vector, from a codec for vectors of the
    /// configured length; and a partition for vectors of that length, with
    /// as many centroids as clusters are configured, that files as many
    /// vectors as are stored.
    pub open spec fn accepts(
        self,
        quantized: Option<QuantizedVectors>,
        ivf_index: IVFIndex,
    ) -> bool {
        &&& quantized is Some <==> self.config.use_pq
        &&& quantized matches Some(store) ==> store@.codes.len() == self.vectors.len()
            && store@.codec.dimensions() == self.config.dimensions
        &&& ivf_index.is_trained()
        &&& ivf_index@.centroids.len() == self.config.num_clusters
        &&& ivf_index@.dimensions == self.config.dimensions
        &&& total_len(ivf_index@.lists) == self.vectors.len()
    }

    /// What the rejection of a build says.
    pub open spec fn build_rejection_text(self) -> Seq<char> {
        if self.vectors.len() == 0 {
            "Cannot build index with no vectors"@
        } else {
            "Trained index does not fit the stored vectors"@
        }
    }
}

impl VectorDB {
    /// What every database satisfies.
    pub open spec fn well_formed(&self) -> bool {
        self@.well_formed()
    }

    /// The configuration the database was created with.
    pub fn config(&self) -> (config: &Config)
        ensures
            *config == self@.config,
    {
        &self.config
    }

    /// The stored vectors, by id.
    pub fn vectors(&self) -> (vectors: &Vec<Vec<u32>>)
        ensures
            rows(vectors@) == self@.vectors,
    {
        &self.vectors
    }

    /// The codes of the vectors, where the last build made any.
    pub fn quantized(&self) -> (store: &Option<QuantizedVectors>)
        ensures
            *store == self@.quantized,
    {
        &self.quantized
    }

    /// The coarse partition of the last build.
    pub fn ivf_index(&self) -> (index: &Option<IVFIndex>)
        ensures
            *index == self@.ivf_index,
    {
        &self.ivf_index
    }

    /// What was stored with the vectors, by id.
    pub fn metadata(&self) -> (metadata: &HashMap<u32, serde_json::Value>)
        ensures
            metadata@ == self@.metadata,
    {
        &self.metadata
    }

    /// The id that the next vector gets.
    pub fn next_id(&self) -> (id: u32)
        ensures
            id == self@.next_id,
    {
        self.next_id
    }

    /// Whether the index matches the stored vectors.
    pub fn index_built(&self) -> (built: bool)
        ensures
            built == self@.index_built,
    {
        self.index_built
    }

    /// The header under which the database is persisted: its dimension, the
    /// number of its vectors, and its metric.
    pub fn header(&self) -> (header: FileHeader)
        ensures
            header.has_magic(),
            header.version == VERSION,
            self@.describes(header),
    {
        FileHeader::new(self.config.dimensions, self.vectors.len(), self.config.metric)
    }

    /// Whether a header is the one of this database.
    pub fn matches_header(&self, header: &FileHeader) -> (b: bool)
        ensures
            b == self@.describes(*header),
    {
        header.dimensions == self.config.dimensions as u32 && header.vector_count
            == self.vectors.len() as u64 && header.metric == self.config.metric
    }

    /// Whether queries go through the partition and the codes rather than
    /// over all vectors.
    pub fn uses_index(&self) -> (b: bool)
        ensures
            b == self@.uses_index(),
    {
        self.ivf_index.is_some() && self.quantized.is_some()
    }

    /// A database of these parts, as one that was stored holds them. Parts
    /// that make no database are rejected as `SerializationError`.
    pub fn from_parts(
        config: Config,
        vectors: Vec<Vec<u32>>,
        quantized: Option<QuantizedVectors>,
        ivf_index: Option<IVFIndex>,
        metadata: HashMap<u32, serde_json::Value>,
        next_id: u32,
        index_built: bool,
    ) -> (r: Result<VectorDB, KhadyotaError>)
        requires
            quantized matches Some(store) ==> store.well_formed(),
            ivf_index matches Some(index) ==> index.well_formed(),
        ensures
            r is Ok <==> (VectorDBView {
                config,
                vectors: rows(vectors@),
                quantized,
                ivf_index,
                metadata: metadata@,
                next_id,
                index_built,
            }).well_formed(),
            r matches Ok(db) ==> db@ == (VectorDBView {
                config,
                vectors: rows(vectors@),
                quantized,
                ivf_index,
                metadata: metadata@,
                next_id,
                index_built,
            }),
            r matches Err(e) ==> e matches KhadyotaError::SerializationError(m) && m@
                == "Stored database is inconsistent"@,
    {
        let db = VectorDB { config, vectors, quantized, ivf_index, metadata, next_id, index_built };
        if db.is_consistent() {
            Ok(db)
        } else {
            Err(
                KhadyotaError::SerializationError(
                    String::from_str("Stored database is inconsistent"),
                ),
            )
        }
    }

    /// Decides whether the parts make a database.
    fn is_consistent(&self) -> (b: bool)
        requires
            self@.quantized matches Some(store) ==> store.well_formed(),
            self@.ivf_index matches Some(index) ==> index.well_formed(),
        ensures
            b == self@.well_formed(),
    {
        if self.config.validate().is_err() {
            return false;
        }
        if self.next_id as usize != self.vectors.len() {
            return false;
        }
        let mut i: usize = 0;
        while i < self.vectors.len()
            invariant
                i <= self.vectors.len(),
                forall|j: int|
                    0 <= j < i ==> (#[trigger] self.vectors[j]).len() == self.config.dimensions,
            decreases self.vectors.len() - i,
        {
            if self.vectors[i].len() != self.config.dimensions {
                assert(self@.vectors[i as int].len() != self@.config.dimensions);
                return false;
            }
            i = i + 1;
        }
        if !self.index_built {
            return true;
        }
        match &self.quantized {
            Some(store) => {
                if !self.config.use_pq || store.len() != self.vectors.len() {
                    return false;
                }
                let codec = store.codec();
                if codec.num_subvectors * codec.subvector_size != self.config.dimensions {
                    return false;
                }
            },
            None => {
                if self.config.use_pq {
                    return false;
                }
            },
        }
        match &self.ivf_index {
            None => false,
            Some(index) => {
                index.centroids().len() != 0 && index.dimensions() == self.config.dimensions
                    && index.len() == self.vectors.len()
            },
        }
    }

    /// An empty database for a valid configuration; any other is rejected as
    /// validation rejects it.
    pub fn new(config: Config) -> (r: Result<VectorDB, KhadyotaError>)
        ensures
            r is Ok <==> config.is_valid(),
            r matches Ok(db) ==> {
                &&& db.well_formed()
                &&& db@.config == config
                &&& db@.vectors == Seq::<Seq<u32>>::empty()
                &&& db@.metadata == Map::<u32, serde_json::Value>::empty()
                &&& db@.next_id == 0
                &&& !db@.index_built
                &&& db@.quantized is None
                &&& db@.ivf_index is None
            },
            r matches Err(e) ==> e matches KhadyotaError::InvalidConfig(m) && m@
                == config.rejection_text(),
    {
        match config.validate() {
            Err(e) => Err(e),
            Ok(()) => {
                let db = VectorDB {
                    config,
                    vectors: Vec::new(),
                    quantized: None,
                    ivf_index: None,
                    metadata: HashMap::new(),
                    next_id: 0,
                    index_built: false,
                };
                assert(db@.vectors =~= Seq::<Seq<u32>>::empty());
                Ok(db)
            },
        }
    }

    /// Stores a vector under the next id, with its metadata where there is
    /// any, and marks the index as out of date. A vector of the wrong length
    /// is rejected as `DimensionMismatch` and changes nothing.
    pub fn insert(&mut self, vector: Vec<u32>, metadata: Option<serde_json::Value>) -> (r: Result<
        u32,
        KhadyotaError,
    >)
        requires
            old(self).well_formed(),
            old(self)@.next_id < u32::MAX,
        ensures
            final(self).well_formed(),
            final(self)@.config == old(self)@.config,
            r is Ok <==> vector.len() == old(self)@.config.dimensions,
            r matches Ok(id) ==> {
                &&& id == old(self)@.next_id
                &&& final(self)@.next_id == id + 1
                &&& final(self)@.vectors == old(self)@.vectors.push(vector@)
                &&& final(self)@.metadata == match metadata {
                    Some(m) => old(self)@.metadata.insert(id, m),
                    None => old(self)@.metadata,
                }
                &&& !final(self)@.index_built
                &&& final(self)@.quantized == old(self)@.quantized
                &&& final(self)@.ivf_index == old(self)@.ivf_index
            },
            r matches Err(e) ==> {
                &&& e == (KhadyotaError::DimensionMismatch {
                    expected: old(self)@.config.dimensions,
                    got: vector.len(),
                })
                &&& final(self)@.next_id == old(self)@.next_id
                &&& final(self)@.vectors == old(self)@.vectors
                &&& final(self)@.metadata == old(self)@.metadata
                &&& *final(self) == *old(self)
            },
    {
        if vector.len() != self.config.dimensions {
            return Err(
                KhadyotaError::DimensionMismatch {
                    expected: self.config.dimensions,
                    got: vector.len(),
                },
            );
        }
        let id = self.next_id;
        self.vectors.push(vector);
        if let Some(meta) = metadata {
            self.metadata.insert(id, meta);
        }
        self.next_id = self.next_id + 1;
        self.index_built = false;
        assert(self@.vectors =~= old(self)@.vectors.push(vector@));
        assert forall|i: int| 0 <= i < self@.vectors.len() implies (
        #[trigger] self@.vectors[i]).len() == self@.config.dimensions by {
            if i < old(self)@.vectors.len() {
                assert(self@.vectors[i] == old(self)@.vectors[i]);
            }
        }
        Ok(id)
    }

    /// How many vectors are stored.
    pub fn len(&self) -> (n: usize)
        ensures
            n == self@.vectors.len(),
    {
        self.vectors.len()
    }

    /// Whether no vector is stored.
    pub fn is_empty(&self) -> (b: bool)
        ensures
            b <==> self@.vectors.len() == 0,
    {
        self.vectors.len() == 0
    }

    /// Puts a trained index in place: the codes of the vectors, where
    /// quantization is on, and the coarse partition that files them, with
    /// the probe width that is configured, held to the clusters there are.
    /// A database without vectors, or an index that does not fit the
    /// vectors, is rejected as `InvalidConfig` and changes nothing.
    pub fn build_index(&mut self, quantized: Option<QuantizedVectors>, ivf_index: IVFIndex) -> (r:
        Result<(), KhadyotaError>)
        requires
            old(self).well_formed(),
            quantized matches Some(store) ==> store.well_formed(),
            ivf_index.well_formed(),
        ensures
            final(self).well_formed(),
            r is Ok <==> old(self)@.vectors.len() > 0 && old(self)@.accepts(quantized, ivf_index),
            r is Ok ==> {
                &&& final(self)@.index_built
                &&& final(self)@.index_matches()
                &&& final(self)@.quantized == quantized
                &&& final(self)@.ivf_index matches Some(index) && index@ == (IVFIndexView {
                    num_probe: clamped_probe(
                        old(self)@.config.num_probe,
                        ivf_index@.lists.len(),
                    ),
                    ..ivf_index@
                })
                &&& final(self)@.config == old(self)@.config
                &&& final(self)@.vectors == old(self)@.vectors
                &&& final(self)@.metadata == old(self)@.metadata
                &&& final(self)@.next_id == old(self)@.next_id
            },
            r matches Err(e) ==> {
                &&& e matches KhadyotaError::InvalidConfig(m) && m@
                    == old(self)@.build_rejection_text()
                &&& *final(self) == *old(self)
            },
    {
        if self.vectors.len() == 0 {
            return Err(
                KhadyotaError::InvalidConfig(
                    String::from_str("Cannot build index with no vectors"),
                ),
            );
        }
        if !self.fits(&quantized, &ivf_index) {
            return Err(
                KhadyotaError::InvalidConfig(
                    String::from_str("Trained index does not fit the stored vectors"),
                ),
            );
        }
        let mut index = ivf_index;
        index.set_num_probe(self.config.num_probe);
        self.quantized = quantized;
        self.ivf_index = Some(index);
        self.index_built = true;
        assert(self@.metadata == old(self)@.metadata);
        assert(self@.vectors == old(self)@.vectors);
        Ok(())
    }

    /// Decides `accepts`.
    fn fits(&self, quantized: &Option<QuantizedVectors>, ivf_index: &IVFIndex) -> (b: bool)
        requires
            quantized matches Some(store) ==> store.well_formed(),
            ivf_index.well_formed(),
        ensures
            b == self@.accepts(*quantized, *ivf_index),
    {
        match quantized {
            Some(store) => {
                if !self.config.use_pq || store.len() != self.vectors.len() {
                    return false;
                }
                let codec = store.codec();
                if codec.num_subvectors * codec.subvector_size != self.config.dimensions {
                    return false;
                }
            },
            None => {
                if self.config.use_pq {
                    return false;
                }
            },
        }
        ivf_index.centroids().len() != 0 && ivf_index.centroids().len() == self.config.num_clusters
            && ivf_index.dimensions() == self.config.dimensions && ivf_index.len()
            == self.vectors.len()
    }

    /// Checks a query of this length against the state of the database.
    fn check_query(&self, query_len: usize) -> (r: Result<(), KhadyotaError>)
        ensures
            r is Err <==> self@.query_error(query_len) is Some,
            r matches Err(e) ==> self@.query_error(query_len) == Some(e),
    {
        if query_len != self.config.dimensions {
            return Err(
                KhadyotaError::DimensionMismatch {
                    expected: self.config.dimensions,
                    got: query_len,
                },
            );
        }
        if !self.index_built {
            return Err(KhadyotaError::IndexNotBuilt);
        }
        Ok(())
    }

    /// The candidates of a query on a built index.
    fn candidate_list(&self, centroid_distances: &Vec<u32>) -> (ids: Vec<u32>)
        requires
            self.well_formed(),
            self@.index_built,
            self@.uses_index() ==> centroid_distances.len() == self@.ivf_index->0@.centroids.len(),
        ensures
            ids@ == self@.candidate_ids(centroid_distances@),
            forall|i: int| 0 <= i < ids.len() ==> (#[trigger] ids[i]) < self@.vectors.len(),
    {
        match (&self.ivf_index, &self.quantized) {
            (Some(index), Some(_)) => {
                let clusters = index.probe(centroid_distances);
                let ids = index.get_candidates(&clusters);
                proof {
                    let a = choose|a: Seq<usize>| files(index@.lists, a);
                    lemma_files(index@.lists, a);
                    lemma_gathered_within(index@.lists, clusters@, self@.vectors.len());
                }
                ids
            },
            _ => {
                let mut ids: Vec<u32> = Vec::new();
                let mut i: usize = 0;
                while i < self.vectors.len()
                    invariant
                        i <= self.vectors.len() <= u32::MAX,
                        ids@ == all_ids(i as nat),
                    decreases self.vectors.len() - i,
                {
                    ids.push(i as u32);
                    assert(ids@ =~= all_ids((i + 1) as nat));
                    i = i + 1;
                }
                ids
            },
        }
    }

    /// The ids to measure distances for: the candidates of a query, given
    /// its distance to each coarse centroid. A query of the wrong length is
    /// refused as `DimensionMismatch`, one on an index that is not built as
    /// `IndexNotBuilt`. The distances are not read where queries do not go
    /// through the index.
    pub fn candidates(&self, query_len: usize, centroid_distances: &Vec<u32>) -> (r: Result<
        Vec<u32>,
        KhadyotaError,
    >)
        requires
            self.well_formed(),
            self@.index_built && self@.uses_index() ==> centroid_distances.len()
                == self@.ivf_index->0@.centroids.len(),
        ensures
            r is Err <==> self@.query_error(query_len) is Some,
            r matches Err(e) ==> self@.query_error(query_len) == Some(e),
            r matches Ok(ids) ==> {
                &&& ids@ == self@.candidate_ids(centroid_distances@)
                &&& forall|i: int| 0 <= i < ids.len() ==> (#[trigger] ids[i]) < self@.vectors.len()
            },
    {
        match self.check_query(query_len) {
            Err(e) => Err(e),
            Ok(()) => Ok(self.candidate_list(centroid_distances)),
        }
    }

    /// What was stored with `id`, if anything.
    fn metadata_of(&self, id: u32) -> (m: Option<serde_json::Value>)
        ensures
            m == if self@.metadata.dom().contains(id) {
                Some(self@.metadata[id])
            } else {
                None::<serde_json::Value>
            },
    {
        match self.metadata.get(&id) {
            Some(value) => Some(value.clone()),
            None => None,
        }
    }

    /// Answers a query, given its distance to each coarse centroid and to
    /// each of its candidates: the `k` nearest candidates, nearest first, a
    /// lower id before a higher one at the same distance, each with what
    /// was stored with it. A query of the wrong length is refused as
    /// `DimensionMismatch`, one on an index that is not built as
    /// `IndexNotBuilt`.
    pub fn search(
        &self,
        query_len: usize,
        centroid_distances: &Vec<u32>,
        distances: &Vec<u32>,
        k: usize,
    ) -> (r: Result<Vec<SearchResult>, KhadyotaError>)
        requires
            self.well_formed(),
            self@.query_error(query_len) is None ==> self@.takes(
                centroid_distances@,
                distances@,
            ),
        ensures
            self@.answers(query_len, centroid_distances@, distances@, k, r),
            r matches Ok(found) ==> {
                &&& found.len() == selected_len(distances.len() as nat, k as nat)
                &&& forall|i: int, j: int|
                    0 <= i < j < found.len() ==> rank((#[trigger] found[i]).distance) <= rank(
                        (#[trigger] found[j]).distance,
                    )
            },
    {
        match self.check_query(query_len) {
            Err(e) => Err(e),
            Ok(()) => {
                let ids = self.candidate_list(centroid_distances);
                let mut scored: Vec<Scored> = Vec::new();
                let mut n: usize = 0;
                while n < ids.len()
                    invariant
                        n <= ids.len(),
                        ids.len() == distances.len(),
                        ids@ == self@.candidate_ids(centroid_distances@),
                        scored@ == self@.scored(centroid_distances@, distances@).take(n as int),
                    decreases ids.len() - n,
                {
                    scored.push(Scored { index: ids[n] as usize, distance: distances[n] });
                    assert(scored@ =~= self@.scored(centroid_distances@, distances@).take(n + 1));
                    n = n + 1;
                }
                assert(scored@ =~= self@.scored(centroid_distances@, distances@));
                let best = select_nearest(&scored, k);
                proof {
                    lemma_nearest_is_selection(scored@, k as nat);
                }
                let mut found: Vec<SearchResult> = Vec::new();
                let mut i: usize = 0;
                while i < best.len()
                    invariant
                        i <= best.len(),
                        best@ == nearest(scored@, k as nat),
                        forall|j: int|
                            0 <= j < scored.len() ==> (#[trigger] scored[j]).index <= u32::MAX,
                        forall|j: int| 0 <= j < best.len() ==> scored@.contains(#[trigger] best[j]),
                        found.len() == i,
                        forall|j: int| 0 <= j < i ==> (#[trigger] found[j]) == self@.found(best[j]),
                    decreases best.len() - i,
                {
                    assert(scored@.contains(best[i as int]));
                    let id = best[i].index as u32;
                    let metadata = self.metadata_of(id);
                    found.push(SearchResult { id, distance: best[i].distance, metadata });
                    i = i + 1;
                }
                assert(found@ =~= self@.results(centroid_distances@, distances@, k));
                assert forall|i: int, j: int| 0 <= i < j < found.len() implies rank(
                    (#[trigger] found[i]).distance,
                ) <= rank((#[trigger] found[j]).distance) by {
                    assert(!best[j].before(best[i]));
                }
                Ok(found)
            },
        }
    }

    /// Answers every query of a batch, in order. A batch on an index that
    /// is not built is refused as `IndexNotBuilt`; otherwise the first query
    /// that is refused fails the batch with its error.
    pub fn batch_search(&self, queries: &Vec<ScoredQuery>, k: usize) -> (r: Result<
        Vec<Vec<SearchResult>>,
        KhadyotaError,
    >)
        requires
            self.well_formed(),
            forall|q: int|
                0 <= q < queries.len() && self@.query_error((#[trigger] queries[q]).query_len)
                    is None ==> self@.takes(
                    queries[q].centroid_distances@,
                    queries[q].distances@,
                ),
        ensures
            !self@.index_built ==> r == Err::<Vec<Vec<SearchResult>>, KhadyotaError>(
                KhadyotaError::IndexNotBuilt,
            ),
            self@.index_built ==> match r {
                Ok(all) => {
                    &&& all.len() == queries.len()
                    &&& forall|q: int|
                        0 <= q < queries.len() ==> queries[q].query_len == self@.config.dimensions
                            && (#[trigger] all[q])@ == self@.results(
                            queries[q].centroid_distances@,
                            queries[q].distances@,
                            k,
                        )
                },
                Err(e) => exists|q: int|
                    {
                        &&& 0 <= q < queries.len()
                        &&& self@.query_error((#[trigger] queries[q]).query_len) == Some(e)
                        &&& forall|p: int|
                            0 <= p < q ==> (#[trigger] queries[p]).query_len
                                == self@.config.dimensions
                    },
            },
    {
        if !self.index_built {
            return Err(KhadyotaError::IndexNotBuilt);
        }
        let mut all: Vec<Vec<SearchResult>> = Vec::new();
        let mut q: usize = 0;
        while q < queries.len()
            invariant
                q <= queries.len(),
                self.well_formed(),
                self@.index_built,
                forall|p: int|
                    0 <= p < queries.len() && self@.query_error((#[trigger] queries[p]).query_len)
                        is None ==> self@.takes(
                        queries[p].centroid_distances@,
                        queries[p].distances@,
                    ),
                all.len() == q,
                forall|p: int|
                    0 <= p < q ==> (#[trigger] queries[p]).query_len == self@.config.dimensions,
                forall|p: int|
                    0 <= p < q ==> (#[trigger] all[p])@ == self@.results(
                        queries[p].centroid_distances@,
                        queries[p].distances@,
                        k,
                    ),
            decreases queries.len() - q,
        {
            let query = &queries[q];
            match self.search(query.query_len, &query.centroid_distances, &query.distances, k) {
                Err(e) => {
                    assert(self@.query_error(queries[q as int].query_len) == Some(e));
                    return Err(e);
                },
                Ok(found) => {
                    all.push(found);
                },
            }
            q = q + 1;
        }
        assert forall|p: int| 0 <= p < queries.len() implies queries[p].query_len
            == self@.config.dimensions && (#[trigger] all[p])@ == self@.results(
            queries[p].centroid_distances@,
            queries[p].distances@,
            k,
        ) by {
            assert(queries[p].query_len == self@.config.dimensions);
        }
        Ok(all)
    }
}

/// A query has one answer: two answers to the same query on the same
/// database, whenever and wherever they are computed, are the same refusal
/// or the same results.
pub proof fn lemma_search_is_deterministic(
    db: VectorDBView,
    query_len: usize,
    centroid_distances: Seq<u32>,
    distances: Seq<u32>,
    k: usize,
    first: Result<Vec<SearchResult>, KhadyotaError>,
    second: Result<Vec<SearchResult>, KhadyotaError>,
)
    requires
        db.answers(query_len, centroid_distances, distances, k, first),
        db.answers(query_len, centroid_distances, distances, k, second),
    ensures
        first is Ok <==> second is Ok,
        first matches Ok(a) ==> second matches Ok(b) && a@ == b@,
        first matches Err(e) ==> second == Err::<Vec<SearchResult>, KhadyotaError>(e),
{
}

/// A database restored from the parts of another answers as the other does:
/// what answers a query on the one answers it on the other.
pub proof fn lemma_restored_database_answers_alike(
    original: VectorDBView,
    restored: VectorDBView,
    query_len: usize,
    centroid_distances: Seq<u32>,
    distances: Seq<u32>,
    k: usize,
    r: Result<Vec<SearchResult>, KhadyotaError>,
)
    requires
        restored.config == original.config,
        restored.vectors == original.vectors,
        restored.quantized == original.quantized,
        restored.ivf_index == original.ivf_index,
        restored.metadata == original.metadata,
        restored.next_id == original.next_id,
        restored.index_built == original.index_built,
        original.answers(query_len, centroid_distances, distances, k, r),
    ensures
        restored.answers(query_len, centroid_distances, distances, k, r),
        restored.candidate_ids(centroid_distances) == original.candidate_ids(centroid_distances),
{
    assert(restored.scored(centroid_distances, distances) =~= original.scored(
        centroid_distances,
        distances,
    ));
    assert(restored.results(centroid_distances, distances, k) =~= original.results(
        centroid_distances,
        distances,
        k,
    ));
}

/// The results of a query are as many as asked for, as far as the
/// candidates go, and stand in ascending order of distance; each is one of
/// the candidates, with the distance measured for it.
pub proof fn lemma_results_are_nearest(
    db: VectorDBView,
    centroid_distances: Seq<u32>,
    distances: Seq<u32>,
    k: usize,
)
    requires
        db.takes(centroid_distances, distances),
    ensures
        db.results(centroid_distances, distances, k).len() == selected_len(
            distances.len(),
            k as nat,
        ),
        forall|i: int, j: int|
            0 <= i < j < db.results(centroid_distances, distances, k).len() ==> rank(
                (#[trigger] db.results(centroid_distances, distances, k)[i]).distance,
            ) <= rank((#[trigger] db.results(centroid_distances, distances, k)[j]).distance),
        forall|i: int|
            0 <= i < db.results(centroid_distances, distances, k).len() ==> exists|c: int|
                0 <= c < distances.len() && (#[trigger] db.results(
                    centroid_distances,
                    distances,
                    k,
                )[i]) == db.found(db.scored(centroid_distances, distances)[c]),
{
    let scored = db.scored(centroid_distances, distances);
    lemma_nearest_is_selection(scored, k as nat);
    let best = nearest(scored, k as nat);
    let found = db.results(centroid_distances, distances, k);
    assert forall|i: int, j: int| 0 <= i < j < found.len() implies rank(
        (#[trigger] found[i]).distance,
    ) <= rank((#[trigger] found[j]).distance) by {
        assert(!best[j].before(best[i]));
    }
    assert forall|i: int| 0 <= i < found.len() implies exists|c: int|
        0 <= c < distances.len() && (#[trigger] found[i]) == db.found(scored[c]) by {
        assert(scored.contains(best[i]));
        let c = choose|c: int| 0 <= c < scored.len() && scored[c] == best[i];
        assert(found[i] == db.found(scored[c]));
    }
}

/// The candidates of a query name stored vectors, and none of them twice:
/// nothing has to be removed from what the posting lists give.
pub proof fn lemma_candidates_are_distinct(db: VectorDBView, centroid_distances: Seq<u32>)
    requires
        db.well_formed(),
        db.index_built,
        db.uses_index() ==> centroid_distances.len() == db.ivf_index->0@.centroids.len(),
        centroid_distances.len() <= usize::MAX,
    ensures
        db.candidate_ids(centroid_distances).no_duplicates(),
        forall|i: int|
            0 <= i < db.candidate_ids(centroid_distances).len() ==> (#[trigger] db.candidate_ids(
                centroid_distances,
            )[i]) < db.vectors.len(),
{
    if db.uses_index() {
        let index = db.ivf_index->0;
        let width = index@.num_probe as nat;
        let probed = indices(nearest(indexed(centroid_distances), width));
        lemma_selected_indices_are_distinct(centroid_distances, width);
        lemma_nearest_is_selection(indexed(centroid_distances), width);
        assert forall|i: int| 0 <= i < probed.len() implies (#[trigger] probed[i])
            < index@.lists.len() by {
            let best = nearest(indexed(centroid_distances), width);
            assert(indexed(centroid_distances).contains(best[i]));
            let at = choose|at: int|
                0 <= at < indexed(centroid_distances).len() && indexed(centroid_distances)[at]
                    == best[i];
            assert(indexed(centroid_distances)[at].index == at as usize);
        }
        lemma_gathered_is_distinct(index@.lists, probed);
        let a = choose|a: Seq<usize>| files(index@.lists, a);
        lemma_files(index@.lists, a);
        lemma_gathered_within(index@.lists, probed, db.vectors.len());
    } else {
        assert(db.next_id == db.vectors.len());
    }
}

/// What is gathered from lists whose ids are all below a bound is below
/// that bound.
pub proof fn lemma_gathered_within(lists: Seq<Seq<u32>>, clusters: Seq<usize>, bound: nat)
    requires
        forall|i: int| 0 <= i < clusters.len() ==> (#[trigger] clusters[i]) < lists.len(),
        forall|c: int, i: int|
            0 <= c < lists.len() && 0 <= i < lists[c].len() ==> (#[trigger] lists[c][i]) < bound,
    ensures
        forall|i: int|
            0 <= i < gathered(lists, clusters).len() ==> (#[trigger] gathered(lists, clusters)[i])
                < bound,
    decreases clusters.len(),
{
    if clusters.len() > 0 {
        lemma_gathered_within(lists, clusters.drop_last(), bound);
        let head = gathered(lists, clusters.drop_last());
        let tail = lists[clusters.last() as int];
        assert forall|i: int| 0 <= i < gathered(lists, clusters).len() implies (#[trigger] gathered(
            lists,
            clusters,
        )[i]) < bound by {
            if i >= head.len() {
                assert(gathered(lists, clusters)[i] == tail[i - head.len()]);
            }
        }
    }
}

} // verus!
