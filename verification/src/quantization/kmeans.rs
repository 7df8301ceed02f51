//! The decisions of k-means clustering.
//!
//! Distances, means and the convergence test are arithmetic on scalars and
//! are done by the caller. What is decided on them is decided here: which
//! centroid is nearest, which point a weighted draw selects, which clusters
//! came out empty and what replaces their centroids. A run is a value that
//! the caller drives: seed until there are `k` centroids, then assign every
//! vector and update the centroids, iteration after iteration.

use crate::error::KhadyotaError;
use crate::indexing::posting::{lemma_members, members};
use crate::ranking::{first_minimum, is_first_minimum};
use crate::scalar::{is_non_positive, non_positive};
use crate::table::rows;
use rand::SeedableRng;
use rand::rngs::StdRng;
use rand::seq::SliceRandom;
use vstd::prelude::*;
use vstd::string::*;

verus! {

/// The standard generator of `rand`, carried as a whole.
#[verifier::external_type_specification]
#[verifier::external_body]
pub struct ExGenerator(StdRng);

/// `SeedableRng::seed_from_u64` of `rand`, for its standard generator. The
/// contract claims nothing of the generator made.
#[verifier::external_body]
fn generator(seed: u64) -> StdRng {
    StdRng::seed_from_u64(seed)
}

/// `SliceRandom::choose` of `rand`, on a list of vectors: one of the
/// vectors, whichever the generator selects, or nothing for an empty list.
#[verifier::external_body]
fn draw<'a>(vectors: &'a Vec<Vec<u32>>, rng: &mut StdRng) -> (picked: Option<&'a Vec<u32>>)
    ensures
        picked is None <==> vectors.len() == 0,
        picked matches Some(v) ==> exists|i: int| 0 <= i < vectors.len() && vectors[i] == *v,
{
    vectors.choose(rng)
}

/// The outcome of a clustering run.
#[derive(Debug, Clone)]
pub struct KMeansResult {
    /// One centroid per cluster.
    pub centroids: Vec<Vec<u32>>,
    /// For each training vector, the cluster it belongs to.
    pub assignments: Vec<usize>,
    /// The sum of squared distances of the vectors to their centroids.
    pub inertia: u32,
}

impl KMeansResult {
    /// There is a centroid, all centroids have one length, and every vector
    /// is assigned to a cluster that exists.
    pub open spec fn well_formed(&self) -> bool {
        &&& self.centroids@.len() > 0
        &&& forall|c: int|
            0 <= c < self.centroids@.len() ==> (#[trigger] self.centroids@[c])@.len()
                == self.centroids@[0]@.len()
        &&& forall|i: int|
            0 <= i < self.assignments@.len() ==> (#[trigger] self.assignments@[i])
                < self.centroids@.len()
    }
}

/// Whether `i` is what a weighted draw selects, given what is left of the
/// threshold after each point: the first point that leaves nothing, or the
/// last point where every point leaves something.
pub open spec fn is_weighted_choice(remaining: Seq<u32>, i: int) -> bool {
    &&& 0 <= i < remaining.len()
    &&& forall|j: int| 0 <= j < i ==> !non_positive(#[trigger] remaining[j])
    &&& non_positive(remaining[i]) || i == remaining.len() - 1
}

/// Finds what a weighted draw selects.
pub fn weighted_pick(remaining: &Vec<u32>) -> (picked: usize)
    requires
        remaining.len() > 0,
    ensures
        is_weighted_choice(remaining@, picked as int),
{
    let mut i: usize = 0;
    while i + 1 < remaining.len() && !is_non_positive(remaining[i])
        invariant
            i < remaining.len(),
            forall|j: int| 0 <= j < i ==> !non_positive(#[trigger] remaining[j]),
        decreases remaining.len() - i,
    {
        i = i + 1;
    }
    i
}

/// The centroid nearest to a vector, given the distance to each, and that
/// distance: the first of the nearest where several are equally near.
pub fn find_nearest_centroid(distances: &Vec<u32>) -> (nearest: (usize, u32))
    requires
        distances.len() > 0,
    ensures
        is_first_minimum(distances@, nearest.0 as int),
        nearest.1 == distances[nearest.0 as int],
{
    let best = first_minimum(distances);
    (best, distances[best])
}

/// A clustering run in progress.
pub struct KMeans<'a> {
    vectors: &'a Vec<Vec<u32>>,
    k: usize,
    max_iterations: usize,
    iteration: usize,
    centroids: Vec<Vec<u32>>,
    assignments: Vec<usize>,
    rng: StdRng,
}

/// What a run holds.
pub struct KMeansView {
    /// The training vectors.
    pub vectors: Seq<Seq<u32>>,
    /// How many clusters are asked for.
    pub k: usize,
    /// How many iterations are allowed.
    pub max_iterations: usize,
    /// How many iterations are done.
    pub iteration: usize,
    /// The centroids chosen so far.
    pub centroids: Seq<Seq<u32>>,
    /// For each training vector, the cluster it was last assigned to.
    pub assignments: Seq<usize>,
}

impl<'a> View for KMeans<'a> {
    type V = KMeansView;

    closed spec fn view(&self) -> KMeansView {
        KMeansView {
            vectors: rows(self.vectors@),
            k: self.k,
            max_iterations: self.max_iterations,
            iteration: self.iteration,
            centroids: rows(self.centroids@),
            assignments: self.assignments@,
        }
    }
}

impl KMeansView {
    /// Whether all `k` centroids are chosen.
    pub open spec fn seeded(self) -> bool {
        self.centroids.len() == self.k
    }

    /// How many vectors are assigned to a cluster.
    pub open spec fn cluster_size(self, cluster: int) -> nat {
        members(self.assignments, cluster).len()
    }

    /// The length of the training vectors.
    pub open spec fn dimensions(self) -> nat {
        self.vectors[0].len()
    }
}

/// Starts a clustering run on vectors of one length. The first centroid is
/// a training vector drawn by a generator made from `seed`; every vector
/// starts in cluster zero. More clusters than vectors are rejected as
/// `InvalidConfig`.
pub fn kmeans<'a>(vectors: &'a Vec<Vec<u32>>, k: usize, max_iterations: usize, seed: u64) -> (r:
    Result<KMeans<'a>, KhadyotaError>)
    requires
        0 < vectors.len() <= u32::MAX,
        k > 0,
        forall|i: int| 0 <= i < vectors.len() ==> (#[trigger] vectors[i]).len() == vectors[0].len(),
    ensures
        r is Ok <==> k <= vectors.len(),
        r matches Ok(run) ==> {
            &&& run.well_formed()
            &&& run@.vectors == rows(vectors@)
            &&& run@.k == k
            &&& run@.max_iterations == max_iterations
            &&& run@.iteration == 0
            &&& run@.centroids.len() == 1
            &&& exists|i: int| 0 <= i < vectors.len() && run@.centroids[0] == vectors[i]@
            &&& run@.assignments == Seq::new(vectors.len() as nat, |i: int| 0usize)
        },
        r matches Err(e) ==> e matches KhadyotaError::InvalidConfig(m) && m@
            == "K must be <= number of vectors"@,
{
    if k > vectors.len() {
        return Err(
            KhadyotaError::InvalidConfig(String::from_str("K must be <= number of vectors")),
        );
    }
    let mut rng = generator(seed);
    let first = match draw(vectors, &mut rng) {
        Some(v) => v.clone(),
        None => Vec::new(),
    };
    let mut centroids: Vec<Vec<u32>> = Vec::new();
    centroids.push(first);
    let mut assignments: Vec<usize> = Vec::new();
    let mut i: usize = 0;
    while i < vectors.len()
        invariant
            i <= vectors.len(),
            assignments@ == Seq::new(i as nat, |j: int| 0usize),
        decreases vectors.len() - i,
    {
        assignments.push(0);
        assert(assignments@ =~= Seq::new((i + 1) as nat, |j: int| 0usize));
        i = i + 1;
    }
    let run = KMeans { vectors, k, max_iterations, iteration: 0, centroids, assignments, rng };
    assert(run@.centroids[0] == first@);
    Ok(run)
}

impl<'a> KMeans<'a> {
    /// The training vectors have one length and their ids are 32-bit
    /// numbers; there is a centroid and no more than `k`, each of the length
    /// of the vectors; every vector is assigned to one of `k` clusters; and
    /// no more iterations are done than allowed.
    pub open spec fn well_formed(&self) -> bool {
        &&& 0 < self@.vectors.len() <= u32::MAX
        &&& forall|i: int|
            0 <= i < self@.vectors.len() ==> (#[trigger] self@.vectors[i]).len()
                == self@.dimensions()
        &&& 0 < self@.centroids.len() <= self@.k
        &&& forall|c: int|
            0 <= c < self@.centroids.len() ==> (#[trigger] self@.centroids[c]).len()
                == self@.dimensions()
        &&& self@.assignments.len() == self@.vectors.len()
        &&& forall|i: int|
            0 <= i < self@.assignments.len() ==> (#[trigger] self@.assignments[i]) < self@.k
        &&& self@.iteration <= self@.max_iterations
    }

    /// Whether all `k` centroids are chosen.
    pub fn is_seeded(&self) -> (b: bool)
        ensures
            b == self@.seeded(),
    {
        self.centroids.len() == self.k
    }

    /// Whether another iteration is allowed.
    pub fn can_iterate(&self) -> (b: bool)
        ensures
            b == (self@.iteration < self@.max_iterations),
    {
        self.iteration < self.max_iterations
    }

    /// The centroids chosen so far.
    pub fn centroids(&self) -> (centroids: &Vec<Vec<u32>>)
        ensures
            rows(centroids@) == self@.centroids,
    {
        &self.centroids
    }

    /// For each training vector, the cluster it was last assigned to.
    pub fn assignments(&self) -> (assignments: &Vec<usize>)
        ensures
            assignments@ == self@.assignments,
    {
        &self.assignments
    }

    /// Chooses the next centroid by a weighted draw: the training vector
    /// that the draw selects, given what is left of the threshold after each
    /// vector.
    pub fn seed_next(&mut self, remaining: &Vec<u32>)
        requires
            old(self).well_formed(),
            !old(self)@.seeded(),
            remaining.len() == old(self)@.vectors.len(),
        ensures
            final(self).well_formed(),
            exists|i: int|
                is_weighted_choice(remaining@, i) && final(self)@.centroids == old(
                    self,
                )@.centroids.push(old(self)@.vectors[i]),
            final(self)@.vectors == old(self)@.vectors,
            final(self)@.k == old(self)@.k,
            final(self)@.max_iterations == old(self)@.max_iterations,
            final(self)@.iteration == old(self)@.iteration,
            final(self)@.assignments == old(self)@.assignments,
    {
        let picked = weighted_pick(remaining);
        let centroid = self.vectors[picked].clone();
        self.centroids.push(centroid);
        assert(self@.centroids =~= old(self)@.centroids.push(old(self)@.vectors[picked as int]));
        assert forall|c: int| 0 <= c < self@.centroids.len() implies (
        #[trigger] self@.centroids[c]).len() == self@.dimensions() by {
            if c < old(self)@.centroids.len() {
                assert(self@.centroids[c] == old(self)@.centroids[c]);
            }
        }
    }

    /// Assigns a training vector to its nearest centroid, given its distance
    /// to each, and tells which that is.
    pub fn assign(&mut self, index: usize, distances: &Vec<u32>) -> (cluster: usize)
        requires
            old(self).well_formed(),
            old(self)@.seeded(),
            index < old(self)@.vectors.len(),
            distances.len() == old(self)@.k,
        ensures
            final(self).well_formed(),
            is_first_minimum(distances@, cluster as int),
            final(self)@.assignments == old(self)@.assignments.update(index as int, cluster),
            final(self)@.vectors == old(self)@.vectors,
            final(self)@.k == old(self)@.k,
            final(self)@.max_iterations == old(self)@.max_iterations,
            final(self)@.iteration == old(self)@.iteration,
            final(self)@.centroids == old(self)@.centroids,
    {
        let cluster = first_minimum(distances);
        self.assignments.set(index, cluster);
        cluster
    }

    /// How many vectors each cluster holds.
    pub fn cluster_sizes(&self) -> (sizes: Vec<usize>)
        requires
            self.well_formed(),
        ensures
            sizes.len() == self@.k,
            forall|c: int| 0 <= c < self@.k ==> (#[trigger] sizes[c]) == self@.cluster_size(c),
    {
        count_members(&self.assignments, self.k)
    }

    /// Ends an iteration by replacing the centroids: a cluster that holds
    /// vectors gets the mean given for it, and an empty cluster gets a
    /// training vector drawn at random.
    pub fn update(&mut self, means: Vec<Vec<u32>>)
        requires
            old(self).well_formed(),
            old(self)@.seeded(),
            old(self)@.iteration < old(self)@.max_iterations,
            means.len() == old(self)@.k,
            forall|c: int|
                0 <= c < means.len() ==> (#[trigger] means[c]).len() == old(self)@.dimensions(),
        ensures
            final(self).well_formed(),
            final(self)@.seeded(),
            final(self)@.iteration == old(self)@.iteration + 1,
            forall|c: int|
                0 <= c < old(self)@.k ==> if old(self)@.cluster_size(c) > 0 {
                    (#[trigger] final(self)@.centroids[c]) == means[c]@
                } else {
                    exists|i: int|
                        0 <= i < old(self)@.vectors.len() && final(self)@.centroids[c] == old(
                            self,
                        )@.vectors[i]
                },
            final(self)@.vectors == old(self)@.vectors,
            final(self)@.k == old(self)@.k,
            final(self)@.max_iterations == old(self)@.max_iterations,
            final(self)@.assignments == old(self)@.assignments,
    {
        let sizes = count_members(&self.assignments, self.k);
        let mut next = means;
        let mut c: usize = 0;
        while c < self.k
            invariant
                c <= self.k,
                self.well_formed(),
                next.len() == self.k == sizes.len() == means.len(),
                forall|j: int|
                    0 <= j < self.k ==> (#[trigger] sizes[j]) == self@.cluster_size(j),
                forall|j: int| 0 <= j < self.k ==> (#[trigger] next[j]).len() == self@.dimensions(),
                forall|j: int| c <= j < self.k ==> (#[trigger] next[j]) == means[j],
                forall|j: int|
                    0 <= j < c ==> if self@.cluster_size(j) > 0 {
                        (#[trigger] next[j]) == means[j]
                    } else {
                        exists|i: int| 0 <= i < self@.vectors.len() && next[j]@ == self@.vectors[i]
                    },
                self@ == old(self)@,
            decreases self.k - c,
        {
            if sizes[c] == 0 {
                let drawn = match draw(self.vectors, &mut self.rng) {
                    Some(v) => v.clone(),
                    None => Vec::new(),
                };
                let ghost at = choose|i: int|
                    0 <= i < self.vectors.len() && self.vectors[i]@ == drawn@;
                assert(self@.vectors[at] == drawn@);
                let ghost filled = next@;
                next.set(c, drawn);
                assert(next[c as int]@ == self@.vectors[at]);
                assert forall|j: int| 0 <= j < c implies if self@.cluster_size(j) > 0 {
                    (#[trigger] next[j]) == means[j]
                } else {
                    exists|i: int| 0 <= i < self@.vectors.len() && next[j]@ == self@.vectors[i]
                } by {
                    assert(next[j] == filled[j]);
                }
            }
            assert(sizes[c as int] == self@.cluster_size(c as int));
            assert(if self@.cluster_size(c as int) > 0 {
                next[c as int] == means[c as int]
            } else {
                exists|i: int| 0 <= i < self@.vectors.len() && next[c as int]@ == self@.vectors[i]
            });
            c = c + 1;
        }
        self.centroids = next;
        self.iteration = self.iteration + 1;
    }

    /// Ends the run with the inertia that the caller has measured.
    pub fn finish(self, inertia: u32) -> (result: KMeansResult)
        requires
            self.well_formed(),
            self@.seeded(),
        ensures
            result.well_formed(),
            rows(result.centroids@) == self@.centroids,
            result.assignments@ == self@.assignments,
            result.inertia == inertia,
    {
        let result = KMeansResult {
            centroids: self.centroids,
            assignments: self.assignments,
            inertia,
        };
        assert forall|c: int| 0 <= c < result.centroids@.len() implies (
        #[trigger] result.centroids@[c])@.len() == result.centroids@[0]@.len() by {
            assert(self@.centroids[c].len() == self@.dimensions());
            assert(self@.centroids[0].len() == self@.dimensions());
        }
        result
    }
}

/// Counts, for each of `k` clusters, the vectors assigned to it.
pub fn count_members(assignments: &Vec<usize>, k: usize) -> (sizes: Vec<usize>)
    requires
        assignments.len() <= u32::MAX,
        forall|i: int| 0 <= i < assignments.len() ==> (#[trigger] assignments[i]) < k,
    ensures
        sizes.len() == k,
        forall|c: int| 0 <= c < k ==> (#[trigger] sizes[c]) == members(assignments@, c).len(),
{
    let mut sizes: Vec<usize> = Vec::new();
    let mut c: usize = 0;
    while c < k
        invariant
            c <= k,
            sizes.len() == c,
            forall|j: int| 0 <= j < c ==> (#[trigger] sizes[j]) == 0,
        decreases k - c,
    {
        sizes.push(0);
        c = c + 1;
    }
    let mut i: usize = 0;
    assert(assignments@.take(0) =~= Seq::<usize>::empty());
    while i < assignments.len()
        invariant
            i <= assignments.len() <= u32::MAX,
            sizes.len() == k,
            forall|j: int| 0 <= j < assignments.len() ==> (#[trigger] assignments[j]) < k,
            forall|j: int|
                0 <= j < k ==> (#[trigger] sizes[j]) == members(
                    assignments@.take(i as int),
                    j,
                ).len(),
        decreases assignments.len() - i,
    {
        let cluster = assignments[i];
        proof {
            assert(assignments@.take(i + 1).drop_last() =~= assignments@.take(i as int));
            lemma_members(assignments@.take(i as int), cluster as int);
        }
        let grown = sizes[cluster] + 1;
        sizes.set(cluster, grown);
        i = i + 1;
    }
    assert(assignments@.take(assignments.len() as int) =~= assignments@);
    sizes
}

} // verus!
