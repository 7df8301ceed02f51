//! A codebook: the centroids that stand for the vectors of one subspace.

use crate::quantization::kmeans::KMeansResult;
use crate::ranking::{first_minimum, is_first_minimum};
use crate::table::{all_finite, rows};
use vstd::prelude::*;

verus! {

/// The most centroids a codebook can hold: as many as a byte can name.
pub const MAX_CENTROIDS: usize = 256;

/// A set of learned centroids, each named by its position.
#[derive(Debug, Clone)]
pub struct Codebook {
    /// The centroids, each as its scalars.
    pub centroids: Vec<Vec<u32>>,
    /// The length of every centroid.
    pub dimensions: usize,
}

impl Codebook {
    /// The centroids, each as its scalars.
    pub open spec fn centroid_rows(&self) -> Seq<Seq<u32>> {
        rows(self.centroids@)
    }

    /// There is a centroid, a byte can name each, and each has the length
    /// of the codebook.
    pub open spec fn well_formed(&self) -> bool {
        &&& 0 < self.centroids@.len() <= MAX_CENTROIDS
        &&& forall|c: int|
            0 <= c < self.centroids@.len() ==> (#[trigger] self.centroids@[c])@.len()
                == self.dimensions
    }

    /// Whether the codebook can serve a codec with subvectors of this
    /// length: it holds 256 centroids of that length, every scalar of them a
    /// number that is not an infinity.
    pub open spec fn holds(&self, subvector_size: usize) -> bool {
        &&& self.well_formed()
        &&& self.centroids@.len() == MAX_CENTROIDS
        &&& self.dimensions == subvector_size
        &&& all_finite(self.centroid_rows())
    }

    /// Makes the centroids of a clustering run into a codebook.
    pub fn train(result: KMeansResult) -> (codebook: Codebook)
        requires
            result.well_formed(),
        ensures
            codebook.centroids == result.centroids,
            codebook.dimensions == result.centroids@[0]@.len(),
            result.centroids@.len() <= MAX_CENTROIDS ==> codebook.well_formed(),
    {
        let dimensions = result.centroids[0].len();
        Codebook { centroids: result.centroids, dimensions }
    }

    /// The name of the nearest centroid, given the squared distance of a
    /// vector to each: the first of them where several are equally near.
    pub fn encode(&self, distances: &Vec<u32>) -> (code: u8)
        requires
            self.well_formed(),
            distances.len() == self.centroids.len(),
        ensures
            is_first_minimum(distances@, code as int),
    {
        let best = first_minimum(distances);
        best as u8
    }

    /// The centroid that `code` names.
    pub fn decode(&self, code: u8) -> (centroid: &Vec<u32>)
        requires
            (code as int) < self.centroids.len(),
        ensures
            *centroid == self.centroids[code as int],
    {
        &self.centroids[code as usize]
    }
}

} // verus!
