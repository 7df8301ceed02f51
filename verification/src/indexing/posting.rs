//! Posting lists: for each cluster, the ids of the vectors assigned to it.
//!
//! The lists of an index are always the posting lists of some assignment of
//! vectors to clusters: every vector is filed exactly once, under one
//! cluster, and each list is in ascending order of id.

use crate::table::rows;
use vstd::prelude::*;

verus! {

/// The positions of `assignments` that hold `cluster`, ascending, as ids.
pub open spec fn members(assignments: Seq<usize>, cluster: int) -> Seq<u32>
    decreases assignments.len(),
{
    if assignments.len() == 0 {
        Seq::empty()
    } else if assignments.last() == cluster {
        members(assignments.drop_last(), cluster).push((assignments.len() - 1) as u32)
    } else {
        members(assignments.drop_last(), cluster)
    }
}

/// One posting list per cluster: the members of each.
pub open spec fn posting_lists(assignments: Seq<usize>, clusters: nat) -> Seq<Seq<u32>> {
    Seq::new(clusters, |c: int| members(assignments, c))
}

/// Whether the lists are the posting lists of `assignments`.
pub open spec fn files(lists: Seq<Seq<u32>>, assignments: Seq<usize>) -> bool {
    &&& assignments.len() <= u32::MAX
    &&& forall|i: int| 0 <= i < assignments.len() ==> (#[trigger] assignments[i]) < lists.len()
    &&& lists == posting_lists(assignments, lists.len())
}

/// Whether the lists file every vector exactly once: they are the posting
/// lists of some assignment of vectors to clusters.
pub open spec fn is_partition(lists: Seq<Seq<u32>>) -> bool {
    exists|assignments: Seq<usize>| files(lists, assignments)
}

/// The lists named by `clusters`, one after the other.
pub open spec fn gathered(lists: Seq<Seq<u32>>, clusters: Seq<usize>) -> Seq<u32>
    decreases clusters.len(),
{
    if clusters.len() == 0 {
        Seq::empty()
    } else {
        gathered(lists, clusters.drop_last()) + lists[clusters.last() as int]
    }
}

/// The lengths of all lists, added up.
pub open spec fn total_len(lists: Seq<Seq<u32>>) -> nat
    decreases lists.len(),
{
    if lists.len() == 0 {
        0
    } else {
        total_len(lists.drop_last()) + lists.last().len()
    }
}

/// The members of a cluster are ids of vectors assigned to it, in ascending
/// order, and every vector assigned to it is among them.
pub proof fn lemma_members(assignments: Seq<usize>, cluster: int)
    requires
        assignments.len() <= u32::MAX,
    ensures
        members(assignments, cluster).len() <= assignments.len(),
        forall|i: int|
            0 <= i < members(assignments, cluster).len() ==> {
                let id = #[trigger] members(assignments, cluster)[i];
                id < assignments.len() && assignments[id as int] == cluster
            },
        forall|i: int, j: int|
            0 <= i < j < members(assignments, cluster).len() ==> members(assignments, cluster)[i]
                < members(assignments, cluster)[j],
        forall|v: int|
            0 <= v < assignments.len() && assignments[v] == cluster ==> members(
                assignments,
                cluster,
            ).contains(v as u32),
    decreases assignments.len(),
{
    if assignments.len() > 0 {
        let rest = assignments.drop_last();
        lemma_members(rest, cluster);
        let m = members(assignments, cluster);
        let r = members(rest, cluster);
        assert forall|v: int|
            0 <= v < assignments.len() && assignments[v] == cluster implies m.contains(
            v as u32,
        ) by {
            if v < rest.len() {
                assert(rest[v] == cluster);
                let at = choose|at: int| 0 <= at < r.len() && r[at] == v as u32;
                assert(m[at] == v as u32);
            } else {
                assert(m[m.len() - 1] == v as u32);
            }
        }
        assert forall|i: int| 0 <= i < m.len() implies {
            let id = #[trigger] m[i];
            id < assignments.len() && assignments[id as int] == cluster
        } by {
            if i < r.len() {
                assert(m[i] == r[i]);
                assert(rest[r[i] as int] == assignments[r[i] as int]);
            }
        }
    }
}

/// The members of a cluster are the only ascending list of exactly the
/// vectors assigned to it.
pub proof fn lemma_members_unique(assignments: Seq<usize>, cluster: int, list: Seq<u32>)
    requires
        assignments.len() <= u32::MAX,
        forall|i: int, j: int| 0 <= i < j < list.len() ==> list[i] < list[j],
        forall|i: int|
            0 <= i < list.len() ==> (#[trigger] list[i]) < assignments.len()
                && assignments[list[i] as int] == cluster,
        forall|v: int|
            0 <= v < assignments.len() && #[trigger] assignments[v] == cluster ==> list.contains(
                v as u32,
            ),
    ensures
        list == members(assignments, cluster),
    decreases assignments.len(),
{
    if assignments.len() == 0 {
        if list.len() > 0 {
            assert(list[0] < assignments.len());
        }
        assert(list =~= Seq::<u32>::empty());
    } else {
        let rest = assignments.drop_last();
        let top = (assignments.len() - 1) as u32;
        if assignments.last() == cluster {
            assert(assignments[top as int] == cluster);
            assert(list.contains(top));
            let at = choose|at: int| 0 <= at < list.len() && list[at] == top;
            if at < list.len() - 1 {
                assert(list[at] < list[list.len() - 1]);
            }
            let front = list.drop_last();
            assert forall|i: int| 0 <= i < front.len() implies (#[trigger] front[i]) < rest.len()
                && rest[front[i] as int] == cluster by {
                assert(front[i] == list[i]);
                assert(list[i] < list[list.len() - 1]);
            }
            assert forall|v: int|
                0 <= v < rest.len() && #[trigger] rest[v] == cluster implies front.contains(
                v as u32,
            ) by {
                assert(assignments[v] == cluster);
                let w = choose|w: int| 0 <= w < list.len() && list[w] == v as u32;
                assert(front[w] == v as u32);
            }
            lemma_members_unique(rest, cluster, front);
            assert(list =~= front.push(top));
        } else {
            assert forall|i: int| 0 <= i < list.len() implies (#[trigger] list[i]) < rest.len()
                && rest[list[i] as int] == cluster by {
                assert(assignments[list[i] as int] == cluster);
            }
            assert forall|v: int|
                0 <= v < rest.len() && #[trigger] rest[v] == cluster implies list.contains(
                v as u32,
            ) by {
                assert(assignments[v] == cluster);
            }
            lemma_members_unique(rest, cluster, list);
        }
    }
}

/// What lists that file an assignment hold: as many ids as there are
/// vectors; in each list, in ascending order, ids of vectors assigned to its
/// cluster; and every vector in the list of its cluster.
pub proof fn lemma_files(lists: Seq<Seq<u32>>, assignments: Seq<usize>)
    requires
        files(lists, assignments),
    ensures
        total_len(lists) == assignments.len(),
        forall|c: int, k: int|
            0 <= c < lists.len() && 0 <= k < lists[c].len() ==> {
                let id = #[trigger] lists[c][k];
                id < assignments.len() && assignments[id as int] == c
            },
        forall|c: int, i: int, j: int|
            0 <= c < lists.len() && 0 <= i < j < lists[c].len() ==> #[trigger] lists[c][i]
                < #[trigger] lists[c][j],
        forall|v: int|
            0 <= v < assignments.len() ==> lists[assignments[v] as int].contains(v as u32),
{
    lemma_posting_lists_partition(assignments, lists.len());
}

/// Every id gathered stands in one of the lists named.
pub proof fn lemma_gathered_source(lists: Seq<Seq<u32>>, clusters: Seq<usize>, at: int)
    requires
        0 <= at < gathered(lists, clusters).len(),
    ensures
        exists|n: int, k: int|
            0 <= n < clusters.len() && 0 <= k < lists[clusters[n] as int].len() && gathered(
                lists,
                clusters,
            )[at] == #[trigger] lists[clusters[n] as int][k],
    decreases clusters.len(),
{
    let front = clusters.drop_last();
    let head = gathered(lists, front);
    if at < head.len() {
        lemma_gathered_source(lists, front, at);
        let (n, k) = choose|n: int, k: int|
            0 <= n < front.len() && 0 <= k < lists[front[n] as int].len() && head[at]
                == #[trigger] lists[front[n] as int][k];
        assert(front[n] == clusters[n]);
        assert(gathered(lists, clusters)[at] == lists[clusters[n] as int][k]);
    } else {
        let n = clusters.len() - 1;
        let k = at - head.len();
        assert(gathered(lists, clusters)[at] == lists[clusters[n] as int][k]);
    }
}

/// Gathering from lists that file every vector once, under clusters none
/// of which is named twice, gathers no id twice.
pub proof fn lemma_gathered_is_distinct(lists: Seq<Seq<u32>>, clusters: Seq<usize>)
    requires
        is_partition(lists),
        clusters.no_duplicates(),
        forall|i: int| 0 <= i < clusters.len() ==> (#[trigger] clusters[i]) < lists.len(),
    ensures
        gathered(lists, clusters).no_duplicates(),
    decreases clusters.len(),
{
    let a = choose|a: Seq<usize>| files(lists, a);
    lemma_files(lists, a);
    let all = gathered(lists, clusters);
    if clusters.len() > 0 {
        let front = clusters.drop_last();
        assert forall|i: int, j: int| 0 <= i < front.len() && 0 <= j < front.len() && i
            != j implies front[i] != front[j] by {
            assert(front[i] == clusters[i] && front[j] == clusters[j]);
        }
        lemma_gathered_is_distinct(lists, front);
        let head = gathered(lists, front);
        let last = clusters.last() as int;
        let tail = lists[last];
        assert forall|i: int, j: int| 0 <= i < all.len() && 0 <= j < all.len() && i
            != j implies all[i] != all[j] by {
            if i < head.len() && j < head.len() {
                assert(all[i] == head[i] && all[j] == head[j]);
            } else if i >= head.len() && j >= head.len() {
                let x = i - head.len();
                let y = j - head.len();
                assert(all[i] == tail[x] && all[j] == tail[y]);
                if x < y {
                    assert(lists[last][x] < lists[last][y]);
                } else {
                    assert(lists[last][y] < lists[last][x]);
                }
            } else {
                let (inner, outer) = if i < head.len() {
                    (i, j)
                } else {
                    (j, i)
                };
                lemma_gathered_source(lists, front, inner);
                let (n, k) = choose|n: int, k: int|
                    0 <= n < front.len() && 0 <= k < lists[front[n] as int].len() && head[inner]
                        == #[trigger] lists[front[n] as int][k];
                assert(front[n] == clusters[n]);
                assert(clusters[n] != clusters[clusters.len() - 1]);
                let y = outer - head.len();
                assert(all[outer] == lists[last][y]);
                assert(all[inner] == lists[front[n] as int][k]);
                assert(a[lists[front[n] as int][k] as int] == front[n]);
                assert(a[lists[last][y] as int] == last);
            }
        }
    }
}

/// Filing one more vector grows the list of its cluster by its id, the
/// number of vectors filed before it, and leaves the other lists as they
/// are.
pub proof fn lemma_filing(assignments: Seq<usize>, cluster: usize, clusters: nat)
    requires
        cluster < clusters,
        assignments.len() < u32::MAX,
        forall|i: int| 0 <= i < assignments.len() ==> (#[trigger] assignments[i]) < clusters,
    ensures
        posting_lists(assignments.push(cluster), clusters) == posting_lists(
            assignments,
            clusters,
        ).update(
            cluster as int,
            posting_lists(assignments, clusters)[cluster as int].push(assignments.len() as u32),
        ),
        files(
            posting_lists(assignments, clusters).update(
                cluster as int,
                posting_lists(assignments, clusters)[cluster as int].push(
                    assignments.len() as u32,
                ),
            ),
            assignments.push(cluster),
        ),
{
    let grown = assignments.push(cluster);
    assert(grown.drop_last() =~= assignments);
    let lists = posting_lists(assignments, clusters);
    let next = lists.update(cluster as int, lists[cluster as int].push(assignments.len() as u32));
    assert(posting_lists(grown, clusters) =~= next);
    assert(next.len() == clusters);
}

/// Growing one list by one id grows the total by one.
pub proof fn lemma_total_len_grows(lists: Seq<Seq<u32>>, cluster: int, id: u32)
    requires
        0 <= cluster < lists.len(),
    ensures
        total_len(lists.update(cluster, lists[cluster].push(id))) == total_len(lists) + 1,
    decreases lists.len(),
{
    let grown = lists.update(cluster, lists[cluster].push(id));
    if cluster == lists.len() - 1 {
        assert(grown.drop_last() =~= lists.drop_last());
    } else {
        lemma_total_len_grows(lists.drop_last(), cluster, id);
        assert(grown.drop_last() =~= lists.drop_last().update(
            cluster,
            lists[cluster].push(id),
        ));
    }
}

/// Empty lists hold nothing in total.
pub proof fn lemma_total_len_of_empty(lists: Seq<Seq<u32>>)
    requires
        forall|c: int| 0 <= c < lists.len() ==> (#[trigger] lists[c]).len() == 0,
    ensures
        total_len(lists) == 0,
    decreases lists.len(),
{
    if lists.len() > 0 {
        lemma_total_len_of_empty(lists.drop_last());
    }
}

/// Posting lists file every vector exactly once: their lengths add up to
/// the number of vectors, every id filed names a vector under the cluster
/// assigned to it, and no id stands twice in a list.
pub proof fn lemma_posting_lists_partition(assignments: Seq<usize>, clusters: nat)
    requires
        assignments.len() <= u32::MAX,
        forall|i: int| 0 <= i < assignments.len() ==> (#[trigger] assignments[i]) < clusters,
    ensures
        total_len(posting_lists(assignments, clusters)) == assignments.len(),
        forall|c: int, i: int|
            0 <= c < clusters && 0 <= i < posting_lists(assignments, clusters)[c].len() ==> {
                let id = #[trigger] posting_lists(assignments, clusters)[c][i];
                id < assignments.len() && assignments[id as int] == c
            },
        forall|c: int, i: int, j: int|
            0 <= c < clusters && 0 <= i < j < posting_lists(assignments, clusters)[c].len()
                ==> posting_lists(assignments, clusters)[c][i] < posting_lists(
                assignments,
                clusters,
            )[c][j],
        forall|v: int|
            0 <= v < assignments.len() ==> posting_lists(
                assignments,
                clusters,
            )[assignments[v] as int].contains(v as u32),
    decreases assignments.len(),
{
    let lists = posting_lists(assignments, clusters);
    assert forall|c: int, i: int| 0 <= c < clusters && 0 <= i < lists[c].len() implies {
        let id = #[trigger] lists[c][i];
        id < assignments.len() && assignments[id as int] == c
    } by {
        lemma_members(assignments, c);
    }
    assert forall|c: int, i: int, j: int|
        0 <= c < clusters && 0 <= i < j < lists[c].len() implies #[trigger] lists[c][i]
        < #[trigger] lists[c][j] by {
        lemma_members(assignments, c);
    }
    assert forall|v: int| 0 <= v < assignments.len() implies lists[assignments[v] as int].contains(
        v as u32,
    ) by {
        lemma_members(assignments, assignments[v] as int);
    }
    if assignments.len() == 0 {
        lemma_total_len_of_empty(lists);
    } else {
        let rest = assignments.drop_last();
        let before = posting_lists(rest, clusters);
        lemma_posting_lists_partition(rest, clusters);
        let cluster = assignments.last() as int;
        let id = (assignments.len() - 1) as u32;
        assert(lists =~= before.update(cluster, before[cluster].push(id)));
        lemma_total_len_grows(before, cluster, id);
    }
}

/// The first lists of some lists hold no more in total than all of them.
pub proof fn lemma_total_len_of_prefix(lists: Seq<Seq<u32>>, count: int)
    requires
        0 <= count <= lists.len(),
    ensures
        total_len(lists.take(count)) <= total_len(lists),
    decreases lists.len(),
{
    if count == lists.len() {
        assert(lists.take(count) =~= lists);
    } else {
        lemma_total_len_of_prefix(lists.drop_last(), count);
        assert(lists.drop_last().take(count) =~= lists.take(count));
    }
}

/// Adds up the lengths of the lists, as far as 32 bits can number them.
pub(crate) fn total_of(lists: &Vec<Vec<u32>>) -> (total: Option<usize>)
    ensures
        total matches Some(t) ==> t == total_len(rows(lists@)) && t <= u32::MAX,
        total is None ==> total_len(rows(lists@)) > u32::MAX,
{
    let ghost view = rows(lists@);
    let mut total: usize = 0;
    let mut l: usize = 0;
    assert(view.take(0) =~= Seq::<Seq<u32>>::empty());
    while l < lists.len()
        invariant
            l <= lists.len(),
            view == rows(lists@),
            total == total_len(view.take(l as int)),
            total <= u32::MAX,
        decreases lists.len() - l,
    {
        let size = lists[l].len();
        proof {
            assert(view.take(l + 1).drop_last() =~= view.take(l as int));
            lemma_total_len_of_prefix(view, l + 1);
        }
        if size > u32::MAX as usize - total {
            return None;
        }
        total = total + size;
        l = l + 1;
    }
    assert(view.take(view.len() as int) =~= view);
    Some(total)
}

/// Tells whether the lists file every vector exactly once.
#[verifier::loop_isolation(false)]
pub fn is_partition_of(lists: &Vec<Vec<u32>>) -> (b: bool)
    ensures
        b == is_partition(rows(lists@)),
{
    let ghost view = rows(lists@);
    let clusters = lists.len();
    let total = match total_of(lists) {
        Some(total) => total,
        None => {
            assert(!is_partition(view)) by {
                if is_partition(view) {
                    let a = choose|a: Seq<usize>| files(view, a);
                    lemma_files(view, a);
                }
            }
            return false;
        },
    };
    // the cluster that names each vector; `clusters` where none does yet
    let mut owner: Vec<usize> = Vec::new();
    let mut v: usize = 0;
    while v < total
        invariant
            v <= total,
            owner.len() == v,
            forall|u: int| 0 <= u < v ==> owner[u] == clusters,
        decreases total - v,
    {
        owner.push(clusters);
        v = v + 1;
    }
    let mut c: usize = 0;
    while c < clusters
        invariant
            c <= clusters,
            owner.len() == total,
            forall|u: int| 0 <= u < total ==> owner[u] < c || owner[u] == clusters,
            forall|d: int, k: int|
                0 <= d < c && 0 <= k < view[d].len() ==> (#[trigger] view[d][k]) < total
                    && owner[view[d][k] as int] == d,
            forall|d: int, i: int, j: int|
                0 <= d < c && 0 <= i < j < view[d].len() ==> #[trigger] view[d][i]
                    < #[trigger] view[d][j],
            forall|u: int|
                0 <= u < total && owner[u] < clusters ==> view[owner[u] as int].contains(u as u32),
        decreases clusters - c,
    {
        let list = &lists[c];
        assert(list@ == view[c as int]);
        let mut k: usize = 0;
        while k < list.len()
            invariant
                k <= list.len(),
                owner.len() == total,
                forall|u: int| 0 <= u < total ==> owner[u] <= c || owner[u] == clusters,
                forall|d: int, m: int|
                    0 <= d < c && 0 <= m < view[d].len() ==> (#[trigger] view[d][m]) < total
                        && owner[view[d][m] as int] == d,
                forall|m: int|
                    0 <= m < k ==> (#[trigger] list[m]) < total && owner[list[m] as int] == c,
                forall|i: int, j: int| 0 <= i < j < k ==> list[i] < list[j],
                forall|u: int|
                    0 <= u < total && owner[u] < c ==> view[owner[u] as int].contains(u as u32),
                forall|u: int|
                    0 <= u < total && owner[u] == c ==> exists|m: int|
                        0 <= m < k && #[trigger] list[m] == u,
            decreases list.len() - k,
        {
            let id = list[k] as usize;
            if id >= total || (k > 0 && list[k - 1] >= list[k]) || owner[id] != clusters {
                assert(!is_partition(view)) by {
                    if is_partition(view) {
                        let a = choose|a: Seq<usize>| files(view, a);
                        lemma_files(view, a);
                        assert(view[c as int][k as int] == list[k as int]);
                        if id < total && !(k > 0 && list[k - 1] >= list[k as int]) {
                            let held = owner[id as int];
                            if held < c {
                                let m = choose|m: int|
                                    0 <= m < view[held as int].len() && view[held as int][m]
                                        == id as u32;
                                assert(a[view[held as int][m] as int] == held);
                            } else {
                                let m = choose|m: int| 0 <= m < k && list[m] == id;
                                assert(view[c as int][m] == list[m]);
                                assert(view[c as int][m] < view[c as int][k as int]);
                            }
                        } else if id < total {
                            assert(view[c as int][k - 1] == list[k - 1]);
                            assert(view[c as int][k - 1] < view[c as int][k as int]);
                        }
                    }
                }
                return false;
            }
            let ghost before = owner@;
            owner.set(id, c);
            assert forall|d: int, m: int| 0 <= d < c && 0 <= m < view[d].len() implies (
            #[trigger] view[d][m]) < total && owner[view[d][m] as int] == d by {
                assert(before[view[d][m] as int] == d);
            }
            assert forall|m: int| 0 <= m < k + 1 implies (#[trigger] list[m]) < total
                && owner[list[m] as int] == c by {
                if m < k {
                    assert(before[list[m] as int] == c);
                }
            }
            assert forall|i: int, j: int| 0 <= i < j < k + 1 implies list[i] < list[j] by {
                if j == k && i < k - 1 {
                    assert(list[i] < list[k - 1]);
                }
            }
            assert forall|u: int| 0 <= u < total && owner[u] == c implies exists|m: int|
                0 <= m < k + 1 && #[trigger] list[m] == u by {
                if u == id {
                    assert(list[k as int] == u);
                } else {
                    assert(before[u] == c);
                    let m = choose|m: int| 0 <= m < k && #[trigger] list[m] == u;
                    assert(0 <= m < k + 1 && list[m] == u);
                }
            }
            k = k + 1;
        }
        assert forall|u: int| 0 <= u < total && owner[u] < clusters implies view[owner[u]
            as int].contains(u as u32) by {
            if owner[u] == c {
                let m = choose|m: int| 0 <= m < list.len() && #[trigger] list[m] == u;
                assert(view[c as int][m] == u as u32);
            }
        }
        assert forall|d: int, i: int, j: int|
            0 <= d < c + 1 && 0 <= i < j < view[d].len() implies #[trigger] view[d][i]
            < #[trigger] view[d][j] by {
            if d == c {
                assert(list[i] < list[j]);
            }
        }
        assert forall|d: int, m: int| 0 <= d < c + 1 && 0 <= m < view[d].len() implies (
        #[trigger] view[d][m]) < total && owner[view[d][m] as int] == d by {
            if d == c {
                assert(list[m] < total && owner[list[m] as int] == c);
            }
        }
        c = c + 1;
    }
    let mut u: usize = 0;
    while u < total
        invariant
            u <= total,
            forall|w: int| 0 <= w < u ==> owner[w] < clusters,
        decreases total - u,
    {
        if owner[u] == clusters {
            assert(!is_partition(view)) by {
                if is_partition(view) {
                    let a = choose|a: Seq<usize>| files(view, a);
                    lemma_files(view, a);
                    let d = a[u as int] as int;
                    assert(view[d].contains(u as u32));
                    let m = choose|m: int| 0 <= m < view[d].len() && view[d][m] == u as u32;
                    assert(owner[view[d][m] as int] == d);
                }
            }
            return false;
        }
        u = u + 1;
    }
    proof {
        let a = owner@;
        assert forall|d: int| 0 <= d < clusters implies #[trigger] view[d] == members(a, d) by {
            assert forall|w: int|
                0 <= w < a.len() && #[trigger] a[w] == d implies view[d].contains(w as u32) by {
                assert(view[owner[w] as int].contains(w as u32));
            }
            assert forall|i: int| 0 <= i < view[d].len() implies (#[trigger] view[d][i]) < a.len()
                && a[view[d][i] as int] == d by {
            }
            lemma_members_unique(a, d, view[d]);
        }
        assert(view =~= posting_lists(a, clusters as nat));
        assert(files(view, a));
    }
    true
}

} // verus!
