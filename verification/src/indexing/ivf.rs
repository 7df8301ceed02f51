//! The inverted-file index: coarse centroids, and for each of them the list
//! of the vectors nearest to it.

use crate::indexing::posting::{
    files, gathered, is_partition, is_partition_of, lemma_files, lemma_filing,
    lemma_total_len_grows, lemma_total_len_of_prefix, posting_lists, total_len, total_of,
};
use crate::indexing::stats::{lengths, non_empty_count, sorted_sizes, sorts, IVFStats};
use crate::ranking::{
    first_minimum, first_minimum_of, indexed, indices, indices_of, is_first_minimum,
    lemma_nearest_is_selection, nearest, nearest_of_each, score_all, select_nearest,
};
use crate::table::{all_finite, is_all_finite, rows};
use vstd::prelude::*;

verus! {

/// A probe width held to the clusters there are: at least one where there is
/// a cluster, and never more than there are.
pub open spec fn clamped_probe(num_probe: usize, clusters: nat) -> usize {
    if num_probe as nat > clusters {
        clusters as usize
    } else if num_probe == 0 && clusters > 0 {
        1
    } else {
        num_probe
    }
}

/// Coarse centroids with their posting lists.
#[derive(Debug, Clone)]
pub struct IVFIndex {
    centroids: Vec<Vec<u32>>,
    inverted_lists: Vec<Vec<u32>>,
    num_probe: usize,
    dimensions: usize,
}

/// What an index holds.
pub struct IVFIndexView {
    /// The coarse centroids, each as its scalars.
    pub centroids: Seq<Seq<u32>>,
    /// The posting lists, one per cluster.
    pub lists: Seq<Seq<u32>>,
    /// How many clusters a query visits.
    pub num_probe: usize,
    /// The length of the indexed vectors.
    pub dimensions: usize,
}

impl IVFIndexView {
    /// What every index satisfies: the probe width is within the clusters,
    /// a trained index has one centroid per list, each centroid has the
    /// length of the vectors and holds only numbers that are not infinities,
    /// and the lists file every vector exactly once.
    pub open spec fn well_formed(self) -> bool {
        &&& self.num_probe == clamped_probe(self.num_probe, self.lists.len())
        &&& all_finite(self.centroids)
        &&& is_partition(self.lists)
        &&& self.centroids.len() == 0 || self.centroids.len() == self.lists.len()
        &&& forall|c: int|
            0 <= c < self.centroids.len() ==> (#[trigger] self.centroids[c]).len()
                == self.dimensions
    }
}

impl View for IVFIndex {
    type V = IVFIndexView;

    closed spec fn view(&self) -> IVFIndexView {
        IVFIndexView {
            centroids: rows(self.centroids@),
            lists: rows(self.inverted_lists@),
            num_probe: self.num_probe,
            dimensions: self.dimensions,
        }
    }
}

impl IVFIndex {
    /// What every index satisfies.
    pub open spec fn well_formed(&self) -> bool {
        self@.well_formed()
    }

    /// Whether centroids have been trained.
    pub open spec fn is_trained(&self) -> bool {
        self@.centroids.len() > 0
    }

    /// An index without centroids, with `num_clusters` empty lists.
    pub fn new(dimensions: usize, num_clusters: usize, num_probe: usize) -> (index: IVFIndex)
        ensures
            index.well_formed(),
            index@.centroids == Seq::<Seq<u32>>::empty(),
            index@.lists == Seq::new(num_clusters as nat, |c: int| Seq::<u32>::empty()),
            index@.num_probe == clamped_probe(num_probe, num_clusters as nat),
            index@.dimensions == dimensions,
    {
        let lists = empty_lists(num_clusters);
        let index = IVFIndex {
            centroids: Vec::new(),
            inverted_lists: lists,
            num_probe: clamp_probe(num_probe, num_clusters),
            dimensions,
        };
        assert(index@.centroids =~= Seq::<Seq<u32>>::empty());
        assert(index@.lists =~= Seq::new(num_clusters as nat, |c: int| Seq::<u32>::empty()));
        proof {
            let nobody = Seq::<usize>::empty();
            assert(index@.lists =~= posting_lists(nobody, num_clusters as nat));
            assert(files(index@.lists, nobody));
        }
        index
    }

    /// An index of these parts, where they make one.
    pub fn from_parts(
        centroids: Vec<Vec<u32>>,
        inverted_lists: Vec<Vec<u32>>,
        num_probe: usize,
        dimensions: usize,
    ) -> (r: Option<IVFIndex>)
        ensures
            r is Some <==> (IVFIndexView {
                centroids: rows(centroids@),
                lists: rows(inverted_lists@),
                num_probe,
                dimensions,
            }).well_formed(),
            r matches Some(index) ==> index@ == (IVFIndexView {
                centroids: rows(centroids@),
                lists: rows(inverted_lists@),
                num_probe,
                dimensions,
            }),
    {
        if num_probe != clamp_probe(num_probe, inverted_lists.len()) {
            return None;
        }
        if centroids.len() != 0 && centroids.len() != inverted_lists.len() {
            return None;
        }
        if !is_all_finite(&centroids) {
            return None;
        }
        let mut c: usize = 0;
        while c < centroids.len()
            invariant
                c <= centroids.len(),
                forall|j: int| 0 <= j < c ==> (#[trigger] centroids[j]).len() == dimensions,
            decreases centroids.len() - c,
        {
            if centroids[c].len() != dimensions {
                assert(rows(centroids@)[c as int].len() != dimensions);
                return None;
            }
            c = c + 1;
        }
        if !is_partition_of(&inverted_lists) {
            return None;
        }
        Some(IVFIndex { centroids, inverted_lists, num_probe, dimensions })
    }

    /// Starts filing anew under trained centroids: one empty list for each.
    pub fn begin(&mut self, centroids: Vec<Vec<u32>>)
        requires
            old(self).well_formed(),
            centroids.len() > 0,
            forall|c: int|
                0 <= c < centroids.len() ==> (#[trigger] centroids[c]).len() == old(
                    self,
                )@.dimensions,
            all_finite(rows(centroids@)),
        ensures
            final(self).well_formed(),
            final(self).is_trained(),
            final(self)@.centroids == rows(centroids@),
            final(self)@.lists == posting_lists(Seq::<usize>::empty(), centroids.len() as nat),
            total_len(final(self)@.lists) == 0,
            final(self)@.num_probe == clamped_probe(
                old(self)@.num_probe,
                centroids.len() as nat,
            ),
            final(self)@.dimensions == old(self)@.dimensions,
    {
        let clusters = centroids.len();
        self.centroids = centroids;
        self.inverted_lists = empty_lists(clusters);
        self.num_probe = clamp_probe(self.num_probe, clusters);
        proof {
            let nobody = Seq::<usize>::empty();
            assert(self@.lists =~= posting_lists(nobody, clusters as nat));
            assert(files(self@.lists, nobody));
            lemma_files(self@.lists, nobody);
        }
    }

    /// Files the next vector under its nearest centroid, given its distance
    /// to each: its id, the number of vectors filed before it, is appended
    /// to the list of the first of the nearest clusters. Tells which cluster
    /// that is.
    pub fn file(&mut self, distances: &Vec<u32>) -> (cluster: usize)
        requires
            old(self).well_formed(),
            old(self).is_trained(),
            distances.len() == old(self)@.centroids.len(),
            total_len(old(self)@.lists) < u32::MAX,
        ensures
            final(self).well_formed(),
            cluster == first_minimum_of(distances@),
            is_first_minimum(distances@, cluster as int),
            final(self)@.lists == old(self)@.lists.update(
                cluster as int,
                old(self)@.lists[cluster as int].push(total_len(old(self)@.lists) as u32),
            ),
            total_len(final(self)@.lists) == total_len(old(self)@.lists) + 1,
            final(self)@.centroids == old(self)@.centroids,
            final(self)@.num_probe == old(self)@.num_probe,
            final(self)@.dimensions == old(self)@.dimensions,
            forall|a: Seq<usize>|
                files(old(self)@.lists, a) ==> #[trigger] files(
                    final(self)@.lists,
                    a.push(cluster),
                ),
    {
        let ghost before = self@.lists;
        let cluster = first_minimum(distances);
        let id = match total_of(&self.inverted_lists) {
            Some(total) => total as u32,
            None => 0,
        };
        self.inverted_lists[cluster].push(id);
        proof {
            assert(self@.lists =~= before.update(cluster as int, before[cluster as int].push(id)));
            lemma_total_len_grows(before, cluster as int, id);
            assert forall|a: Seq<usize>| files(before, a) implies #[trigger] files(
                self@.lists,
                a.push(cluster),
            ) by {
                lemma_files(before, a);
                lemma_filing(a, cluster, before.len());
            }
            let a = choose|a: Seq<usize>| files(before, a);
            assert(files(self@.lists, a.push(cluster)));
        }
        cluster
    }

    /// Adopts trained centroids and files every vector under its nearest
    /// centroid, given the distance of each vector to each centroid: vector
    /// `i` goes to the list of the first least entry of row `i`.
    pub fn build(&mut self, centroids: Vec<Vec<u32>>, distances: &Vec<Vec<u32>>)
        requires
            old(self).well_formed(),
            centroids.len() > 0,
            forall|c: int|
                0 <= c < centroids.len() ==> (#[trigger] centroids[c]).len() == old(
                    self,
                )@.dimensions,
            all_finite(rows(centroids@)),
            0 < distances.len() <= u32::MAX,
            forall|i: int|
                0 <= i < distances.len() ==> (#[trigger] distances[i]).len() == centroids.len(),
        ensures
            final(self).well_formed(),
            final(self).is_trained(),
            final(self)@.centroids == rows(centroids@),
            final(self)@.lists == posting_lists(
                nearest_of_each(rows(distances@)),
                centroids.len() as nat,
            ),
            final(self)@.num_probe == clamped_probe(
                old(self)@.num_probe,
                centroids.len() as nat,
            ),
            final(self)@.dimensions == old(self)@.dimensions,
            total_len(final(self)@.lists) == distances.len(),
    {
        let ghost clusters = centroids.len() as nat;
        let ghost table = rows(distances@);
        self.begin(centroids);
        let mut i: usize = 0;
        assert(nearest_of_each(table.take(0)) =~= Seq::<usize>::empty());
        while i < distances.len()
            invariant
                i <= distances.len() <= u32::MAX,
                table == rows(distances@),
                forall|j: int|
                    0 <= j < distances.len() ==> (#[trigger] distances[j]).len() == clusters,
                self.well_formed(),
                self.is_trained(),
                self@.centroids.len() == clusters,
                self@.lists.len() == clusters,
                files(self@.lists, nearest_of_each(table.take(i as int))),
                self@.centroids == rows(centroids@),
                self@.num_probe == clamped_probe(old(self)@.num_probe, clusters),
                self@.dimensions == old(self)@.dimensions,
            decreases distances.len() - i,
        {
            proof {
                lemma_files(self@.lists, nearest_of_each(table.take(i as int)));
            }
            let cluster = self.file(&distances[i]);
            assert(nearest_of_each(table.take(i as int)).push(cluster) =~= nearest_of_each(
                table.take(i + 1),
            ));
            i = i + 1;
        }
        assert(table.take(distances.len() as int) =~= table);
        proof {
            lemma_files(self@.lists, nearest_of_each(table));
        }
    }

    /// The cluster whose centroid is nearest, given the distance to each
    /// centroid; the first of them where several are equally near.
    pub fn find_nearest_cluster(&self, distances: &Vec<u32>) -> (cluster: usize)
        requires
            distances.len() > 0,
        ensures
            is_first_minimum(distances@, cluster as int),
    {
        first_minimum(distances)
    }

    /// The clusters to visit for a query, given its distance to each
    /// centroid: as many as the probe width of the nearest, nearest first,
    /// a lower cluster before a higher one at the same distance.
    pub fn probe(&self, distances: &Vec<u32>) -> (clusters: Vec<usize>)
        ensures
            clusters@ == indices(nearest(indexed(distances@), self@.num_probe as nat)),
            forall|i: int| 0 <= i < clusters.len() ==> (#[trigger] clusters[i]) < distances.len(),
    {
        let scored = score_all(distances);
        let best = select_nearest(&scored, self.num_probe);
        proof {
            lemma_nearest_is_selection(scored@, self.num_probe as nat);
            assert forall|i: int| 0 <= i < best@.len() implies (#[trigger] best@[i]).index
                < distances.len() by {
                assert(scored@.contains(best@[i]));
                let at = choose|at: int| 0 <= at < scored@.len() && scored@[at] == best@[i];
                assert(scored@.len() == distances@.len());
                assert(indexed(distances@)[at].index == at as usize);
            }
        }
        indices_of(&best)
    }

    /// The ids filed under the given clusters, list after list in the order
    /// given, nothing removed.
    pub fn get_candidates(&self, cluster_ids: &Vec<usize>) -> (candidates: Vec<u32>)
        requires
            forall|i: int|
                0 <= i < cluster_ids.len() ==> (#[trigger] cluster_ids[i]) < self@.lists.len(),
        ensures
            candidates@ == gathered(self@.lists, cluster_ids@),
    {
        let mut candidates: Vec<u32> = Vec::new();
        let mut i: usize = 0;
        while i < cluster_ids.len()
            invariant
                i <= cluster_ids.len(),
                forall|j: int|
                    0 <= j < cluster_ids.len() ==> (#[trigger] cluster_ids[j])
                        < self.inverted_lists.len(),
                candidates@ == gathered(self@.lists, cluster_ids@.take(i as int)),
            decreases cluster_ids.len() - i,
        {
            let cluster = cluster_ids[i];
            assert(cluster_ids@.take(i + 1).drop_last() =~= cluster_ids@.take(i as int));
            let list = &self.inverted_lists[cluster];
            candidates.extend_from_slice(list.as_slice());
            i = i + 1;
        }
        assert(cluster_ids@.take(cluster_ids.len() as int) =~= cluster_ids@);
        candidates
    }

    /// The coarse centroids.
    pub fn centroids(&self) -> (centroids: &Vec<Vec<u32>>)
        ensures
            rows(centroids@) == self@.centroids,
    {
        &self.centroids
    }

    /// The posting lists.
    pub fn inverted_lists(&self) -> (lists: &Vec<Vec<u32>>)
        ensures
            rows(lists@) == self@.lists,
    {
        &self.inverted_lists
    }

    /// How many vectors are filed.
    pub fn len(&self) -> (n: usize)
        requires
            self.well_formed(),
        ensures
            n == total_len(self@.lists),
    {
        proof {
            let a = choose|a: Seq<usize>| files(self@.lists, a);
            lemma_files(self@.lists, a);
        }
        match total_of(&self.inverted_lists) {
            Some(total) => total,
            None => 0,
        }
    }

    /// Whether no vector is filed.
    pub fn is_empty(&self) -> (b: bool)
        requires
            self.well_formed(),
        ensures
            b <==> total_len(self@.lists) == 0,
    {
        self.len() == 0
    }

    /// How many clusters a query visits.
    pub fn num_probe(&self) -> (n: usize)
        ensures
            n == self@.num_probe,
    {
        self.num_probe
    }

    /// The length of the indexed vectors.
    pub fn dimensions(&self) -> (n: usize)
        ensures
            n == self@.dimensions,
    {
        self.dimensions
    }

    /// Figures for diagnostics: how many clusters there are and how many
    /// hold vectors, how many vectors are filed, and the least, the middle
    /// and the greatest list length. The middle one is the upper of two
    /// where the number of lists is even; all three are zero where there is
    /// no list.
    pub fn stats(&self) -> (stats: IVFStats)
        requires
            self.well_formed(),
        ensures
            stats.num_clusters == self@.centroids.len(),
            stats.total_vectors == total_len(self@.lists),
            stats.non_empty_clusters == non_empty_count(self@.lists),
            stats.num_probe == self@.num_probe,
            self@.lists.len() == 0 ==> stats.min_cluster_size == 0 && stats.median_cluster_size
                == 0 && stats.max_cluster_size == 0,
            self@.lists.len() > 0 ==> exists|sorted: Seq<usize>|
                {
                    &&& #[trigger] sorts(sorted, lengths(self@.lists))
                    &&& stats.min_cluster_size == sorted[0]
                    &&& stats.median_cluster_size == sorted[sorted.len() as int / 2]
                    &&& stats.max_cluster_size == sorted[sorted.len() - 1]
                },
    {
        proof {
            let a = choose|a: Seq<usize>| files(self@.lists, a);
            lemma_files(self@.lists, a);
        }
        let mut total_vectors: usize = 0;
        let mut non_empty_clusters: usize = 0;
        let mut sizes: Vec<usize> = Vec::new();
        let mut c: usize = 0;
        assert(self@.lists.take(0) =~= Seq::<Seq<u32>>::empty());
        while c < self.inverted_lists.len()
            invariant
                c <= self.inverted_lists.len(),
                total_len(self@.lists) <= u32::MAX,
                total_vectors == total_len(self@.lists.take(c as int)),
                non_empty_clusters == non_empty_count(self@.lists.take(c as int)),
                non_empty_clusters <= c,
                sizes@ == lengths(self@.lists.take(c as int)),
            decreases self.inverted_lists.len() - c,
        {
            let size = self.inverted_lists[c].len();
            proof {
                assert(self@.lists.take(c + 1).drop_last() =~= self@.lists.take(c as int));
                lemma_total_len_of_prefix(self@.lists, c + 1);
            }
            total_vectors = total_vectors + size;
            if size > 0 {
                non_empty_clusters = non_empty_clusters + 1;
            }
            sizes.push(size);
            assert(sizes@ =~= lengths(self@.lists.take(c + 1)));
            c = c + 1;
        }
        assert(self@.lists.take(self@.lists.len() as int) =~= self@.lists);
        let sorted = sorted_sizes(&sizes);
        let (min_cluster_size, median_cluster_size, max_cluster_size) = if sorted.len() == 0 {
            (0, 0, 0)
        } else {
            (sorted[0], sorted[sorted.len() / 2], sorted[sorted.len() - 1])
        };
        IVFStats {
            num_clusters: self.centroids.len(),
            total_vectors,
            non_empty_clusters,
            min_cluster_size,
            median_cluster_size,
            max_cluster_size,
            num_probe: self.num_probe,
        }
    }

    /// Sets how many clusters a query visits, held to the clusters there are.
    pub fn set_num_probe(&mut self, num_probe: usize)
        requires
            old(self).well_formed(),
        ensures
            final(self).well_formed(),
            final(self)@.num_probe == clamped_probe(
                num_probe,
                old(self)@.lists.len(),
            ),
            final(self)@.centroids == old(self)@.centroids,
            final(self)@.lists == old(self)@.lists,
            final(self)@.dimensions == old(self)@.dimensions,
    {
        self.num_probe = clamp_probe(num_probe, self.inverted_lists.len());
    }
}

/// A clamped probe width is never more than the clusters there are, and at
/// least one where there is a cluster; a width within these bounds is kept,
/// and a greater one becomes the number of clusters.
pub proof fn lemma_clamped_probe(num_probe: usize, clusters: nat)
    requires
        clusters <= usize::MAX,
    ensures
        clamped_probe(num_probe, clusters) <= clusters,
        clusters > 0 ==> clamped_probe(num_probe, clusters) >= 1,
        1 <= num_probe <= clusters ==> clamped_probe(num_probe, clusters) == num_probe,
        num_probe > clusters ==> clamped_probe(num_probe, clusters) == clusters,
{
}

/// Holds a probe width to the clusters there are.
fn clamp_probe(num_probe: usize, clusters: usize) -> (p: usize)
    ensures
        p == clamped_probe(num_probe, clusters as nat),
        p == clamped_probe(p, clusters as nat),
{
    if num_probe > clusters {
        clusters
    } else if num_probe == 0 && clusters > 0 {
        1
    } else {
        num_probe
    }
}

/// Makes `count` empty lists.
fn empty_lists(count: usize) -> (lists: Vec<Vec<u32>>)
    ensures
        lists.len() == count,
        forall|c: int| 0 <= c < count ==> (#[trigger] lists[c])@ == Seq::<u32>::empty(),
{
    let mut lists: Vec<Vec<u32>> = Vec::new();
    let mut c: usize = 0;
    while c < count
        invariant
            c <= count,
            lists.len() == c,
            forall|j: int| 0 <= j < c ==> (#[trigger] lists[j])@ == Seq::<u32>::empty(),
        decreases count - c,
    {
        lists.push(Vec::new());
        c = c + 1;
    }
    lists
}

} // verus!
