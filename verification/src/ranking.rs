//! Choosing the nearest of a set of scored items.
//!
//! An item is an index (a cluster, a vector id) with its distance. Items are
//! ordered by distance and, where distances are equal, by index, so that the
//! result of a selection depends on the items alone and not on the order in
//! which they arrive.

use crate::scalar::{rank, rank_of};
use vstd::prelude::*;

verus! {

/// An index with its distance.
#[derive(Debug, Clone, Copy, PartialEq, Eq, Structural)]
pub struct Scored {
    /// What is scored: a cluster, or a vector id.
    pub index: usize,
    /// Its distance, as the bits of a scalar.
    pub distance: u32,
}

impl Scored {
    /// Whether `self` is strictly nearer than `other`: a smaller distance, or
    /// the same distance and a smaller index.
    pub open spec fn before(self, other: Scored) -> bool {
        rank(self.distance) < rank(other.distance) || (rank(self.distance) == rank(other.distance)
            && self.index < other.index)
    }

    /// Decides `before`.
    pub fn comes_before(&self, other: &Scored) -> (b: bool)
        ensures
            b == self.before(*other),
    {
        let a = rank_of(self.distance);
        let c = rank_of(other.distance);
        a < c || (a == c && self.index < other.index)
    }
}

/// Coming before is a strict order: nothing comes before itself, the order
/// carries over a middle item, and of two items that differ in distance or
/// in index one comes before the other.
pub proof fn lemma_before_is_a_strict_order(a: Scored, b: Scored, c: Scored)
    ensures
        !a.before(a),
        a.before(b) && b.before(c) ==> a.before(c),
        a.before(b) ==> !b.before(a),
        rank(a.distance) != rank(b.distance) || a.index != b.index ==> a.before(b) || b.before(a),
{
}

/// No item stands after one that it comes before.
pub open spec fn is_ascending(s: Seq<Scored>) -> bool {
    forall|i: int, j: int| 0 <= i < j < s.len() ==> !(#[trigger] s[j]).before(#[trigger] s[i])
}

/// Where `x` goes in `s`: behind the last item that it does not come before.
pub open spec fn place_index(s: Seq<Scored>, x: Scored) -> nat
    decreases s.len(),
{
    if s.len() == 0 {
        0
    } else if x.before(s.last()) {
        place_index(s.drop_last(), x)
    } else {
        s.len()
    }
}

/// `s` with `x` put in its place.
pub open spec fn place(s: Seq<Scored>, x: Scored) -> Seq<Scored> {
    s.insert(place_index(s, x) as int, x)
}

/// The items of `s` in ascending order.
pub open spec fn ascending(s: Seq<Scored>) -> Seq<Scored>
    decreases s.len(),
{
    if s.len() == 0 {
        Seq::empty()
    } else {
        place(ascending(s.drop_last()), s.last())
    }
}

/// How many items a selection of at most `k` out of `n` holds.
pub open spec fn selected_len(n: nat, k: nat) -> nat {
    if k < n {
        k
    } else {
        n
    }
}

/// The `k` nearest items of `s`, nearest first; all of them where `s` holds
/// fewer.
pub open spec fn nearest(s: Seq<Scored>, k: nat) -> Seq<Scored> {
    ascending(s).take(selected_len(s.len(), k) as int)
}

/// `place_index` is a position in `s`; everything from it on comes after `x`,
/// and what stands just before it does not.
pub proof fn lemma_place_index(s: Seq<Scored>, x: Scored)
    ensures
        place_index(s, x) <= s.len(),
        forall|j: int| place_index(s, x) <= j < s.len() ==> x.before(#[trigger] s[j]),
        place_index(s, x) > 0 ==> !x.before(s[place_index(s, x) - 1]),
    decreases s.len(),
{
    if s.len() > 0 && x.before(s.last()) {
        lemma_place_index(s.drop_last(), x);
        let p = place_index(s.drop_last(), x);
        assert forall|j: int| p <= j < s.len() implies x.before(#[trigger] s[j]) by {
            if j < s.len() - 1 {
                assert(s.drop_last()[j] == s[j]);
            }
        }
        if p > 0 {
            assert(s.drop_last()[p - 1] == s[p - 1]);
        }
    }
}

/// A position that `place_index` could be is `place_index`.
pub proof fn lemma_place_index_unique(s: Seq<Scored>, x: Scored, pos: int)
    requires
        0 <= pos <= s.len(),
        forall|j: int| pos <= j < s.len() ==> x.before(#[trigger] s[j]),
        pos > 0 ==> !x.before(s[pos - 1]),
    ensures
        place_index(s, x) == pos,
    decreases s.len(),
{
    if s.len() > 0 {
        if pos == s.len() {
            assert(!x.before(s.last()));
        } else {
            assert(x.before(s[s.len() - 1]));
            let d = s.drop_last();
            assert forall|j: int| pos <= j < d.len() implies x.before(#[trigger] d[j]) by {
                assert(d[j] == s[j]);
            }
            if pos > 0 {
                assert(d[pos - 1] == s[pos - 1]);
            }
            lemma_place_index_unique(d, x, pos);
        }
    }
}

/// Putting an item in its place keeps an ascending sequence ascending.
pub proof fn lemma_place_keeps_ascending(s: Seq<Scored>, x: Scored)
    requires
        is_ascending(s),
    ensures
        is_ascending(place(s, x)),
        place(s, x).len() == s.len() + 1,
{
    lemma_place_index(s, x);
    let p = place_index(s, x) as int;
    let t = place(s, x);
    assert forall|i: int, j: int| 0 <= i < j < t.len() implies !(#[trigger] t[j]).before(
        #[trigger] t[i],
    ) by {
        if j < p {
            assert(t[i] == s[i] && t[j] == s[j]);
        } else if j == p {
            assert(t[i] == s[i]);
            if i < p - 1 {
                assert(!s[p - 1].before(s[i]));
            }
        } else if i == p {
            assert(t[j] == s[j - 1]);
        } else if i < p {
            assert(t[i] == s[i] && t[j] == s[j - 1]);
        } else {
            assert(t[i] == s[i - 1] && t[j] == s[j - 1]);
        }
    }
}

/// The ascending arrangement is ascending and as long as what it arranges.
pub proof fn lemma_ascending_is_ascending(s: Seq<Scored>)
    ensures
        is_ascending(ascending(s)),
        ascending(s).len() == s.len(),
    decreases s.len(),
{
    if s.len() > 0 {
        lemma_ascending_is_ascending(s.drop_last());
        lemma_place_keeps_ascending(ascending(s.drop_last()), s.last());
    }
}

/// The ascending arrangement holds the same items, each as often.
pub proof fn lemma_ascending_permutes(s: Seq<Scored>)
    ensures
        ascending(s).to_multiset() == s.to_multiset(),
    decreases s.len(),
{
    broadcast use vstd::seq_lib::group_to_multiset_ensures;

    if s.len() == 0 {
        assert(ascending(s) =~= s);
    } else {
        let d = s.drop_last();
        lemma_ascending_permutes(d);
        lemma_place_index(ascending(d), s.last());
        vstd::seq_lib::to_multiset_insert(
            ascending(d),
            place_index(ascending(d), s.last()) as int,
            s.last(),
        );
        assert(s =~= d.push(s.last()));
        vstd::seq_lib::to_multiset_build(d, s.last());
    }
}

/// Every selected item is one of the items selected from, and the selection
/// is ascending and of the length asked for, as far as the items go.
pub proof fn lemma_nearest_is_selection(s: Seq<Scored>, k: nat)
    ensures
        nearest(s, k).len() == selected_len(s.len(), k),
        is_ascending(nearest(s, k)),
        forall|i: int| 0 <= i < nearest(s, k).len() ==> s.contains(#[trigger] nearest(s, k)[i]),
{
    broadcast use vstd::seq_lib::group_to_multiset_ensures;

    lemma_ascending_is_ascending(s);
    lemma_ascending_permutes(s);
    let a = ascending(s);
    let n = nearest(s, k);
    assert forall|i: int| 0 <= i < n.len() implies s.contains(#[trigger] n[i]) by {
        assert(n[i] == a[i]);
        assert(a.contains(a[i]));
        vstd::seq_lib::to_multiset_contains(a, a[i]);
        vstd::seq_lib::to_multiset_contains(s, a[i]);
    }
    assert forall|i: int, j: int| 0 <= i < j < n.len() implies !(#[trigger] n[j]).before(
        #[trigger] n[i],
    ) by {
        assert(n[i] == a[i] && n[j] == a[j]);
    }
}

/// Where no item stands twice among the items selected from, none stands
/// twice in their ascending arrangement.
pub proof fn lemma_ascending_keeps_distinct(s: Seq<Scored>)
    requires
        s.no_duplicates(),
    ensures
        ascending(s).no_duplicates(),
{
    lemma_ascending_permutes(s);
    s.lemma_multiset_has_no_duplicates();
    ascending(s).lemma_multiset_has_no_duplicates_conv();
}

/// A selection from distances scored under their positions names no
/// position twice.
pub proof fn lemma_selected_indices_are_distinct(distances: Seq<u32>, k: nat)
    requires
        distances.len() <= usize::MAX,
    ensures
        indices(nearest(indexed(distances), k)).no_duplicates(),
{
    let items = indexed(distances);
    assert forall|i: int, j: int|
        0 <= i < items.len() && 0 <= j < items.len() && i != j implies items[i] != items[j] by {
        assert(items[i].index == i as usize && items[j].index == j as usize);
    }
    let sorted = ascending(items);
    let best = nearest(items, k);
    lemma_ascending_keeps_distinct(items);
    lemma_ascending_is_ascending(items);
    lemma_nearest_is_selection(items, k);
    assert forall|i: int, j: int|
        0 <= i < best.len() && 0 <= j < best.len() && i != j implies indices(best)[i] != indices(
        best,
    )[j] by {
        assert(best[i] == sorted[i] && best[j] == sorted[j]);
        assert(items.contains(best[i]) && items.contains(best[j]));
        let a = choose|a: int| 0 <= a < items.len() && items[a] == best[i];
        let b = choose|b: int| 0 <= b < items.len() && items[b] == best[j];
        assert(items[a].index == a as usize && items[b].index == b as usize);
        if best[i].index == best[j].index {
            assert(a == b);
            assert(sorted[i] == sorted[j]);
        }
    }
}

/// What a selection leaves out is not nearer than anything it keeps.
pub proof fn lemma_nearest_is_least(s: Seq<Scored>, k: nat, kept: int, left: int)
    requires
        0 <= kept < nearest(s, k).len() <= left < s.len(),
    ensures
        !ascending(s)[left].before(nearest(s, k)[kept]),
{
    lemma_ascending_is_ascending(s);
}

/// Cutting an ascending sequence to `k` items before placing `x` gives the
/// same first `k` items as placing `x` and cutting afterwards.
pub proof fn lemma_place_then_take(s: Seq<Scored>, x: Scored, k: int)
    requires
        is_ascending(s),
        0 <= k <= s.len(),
    ensures
        place(s, x).take(k) == place(s.take(k), x).take(k),
{
    lemma_place_index(s, x);
    let p = place_index(s, x) as int;
    let t = s.take(k);
    if p < k {
        assert forall|j: int| p <= j < t.len() implies x.before(#[trigger] t[j]) by {
            assert(t[j] == s[j]);
        }
        if p > 0 {
            assert(t[p - 1] == s[p - 1]);
        }
        lemma_place_index_unique(t, x, p);
        assert(place(s, x).take(k) =~= place(t, x).take(k));
    } else {
        if k > 0 {
            assert(t[k - 1] == s[k - 1]);
            if p > k {
                assert(!s[p - 1].before(s[k - 1]));
            }
            assert(!x.before(t[k - 1]));
        }
        lemma_place_index_unique(t, x, k);
        assert(place(s, x).take(k) =~= place(t, x).take(k));
    }
}

/// The nearest `k` of a sequence grown by one item are the nearest `k` of:
/// the nearest `k` so far, with the new item put in its place.
pub proof fn lemma_nearest_step(s: Seq<Scored>, x: Scored, k: nat)
    ensures
        nearest(s.push(x), k) == place(nearest(s, k), x).take(
            selected_len(s.len() + 1, k) as int,
        ),
{
    let a = ascending(s);
    lemma_ascending_is_ascending(s);
    assert(s.push(x).drop_last() =~= s);
    assert(ascending(s.push(x)) == place(a, x));
    if k < s.len() {
        lemma_place_then_take(a, x, k as int);
    } else {
        assert(a.take(s.len() as int) =~= a);
    }
}

/// Puts `x` in its place in `best`, which was ascending, and drops the last
/// item where that leaves more than `limit`.
pub fn place_bounded(best: &mut Vec<Scored>, x: Scored, limit: usize)
    requires
        old(best).len() <= limit,
    ensures
        final(best)@ == place(old(best)@, x).take(
            selected_len(old(best)@.len() + 1, limit as nat) as int,
        ),
{
    let ghost before = best@;
    proof {
        lemma_place_index(before, x);
    }
    if best.len() == limit {
        if limit == 0 {
            assert(place(before, x).take(0) =~= before);
            return ;
        }
        if !x.comes_before(&best[limit - 1]) {
            assert(place(before, x).take(limit as int) =~= before);
            return ;
        }
        best.pop();
        proof {
            assert(best@ == before.drop_last());
            lemma_place_index(best@, x);
            assert(place(before, x).take(limit as int) =~= place(best@, x));
        }
    }
    let ghost kept = best@;
    let mut pos: usize = best.len();
    while pos > 0 && x.comes_before(&best[pos - 1])
        invariant
            best@ == kept,
            pos <= kept.len(),
            forall|j: int| pos <= j < kept.len() ==> x.before(#[trigger] kept[j]),
        decreases pos,
    {
        pos = pos - 1;
    }
    proof {
        lemma_place_index_unique(kept, x, pos as int);
    }
    best.insert(pos, x);
    assert(best@ =~= place(kept, x).take(kept.len() as int + 1));
}

/// Selects the `k` nearest of `items`, nearest first.
pub fn select_nearest(items: &Vec<Scored>, k: usize) -> (best: Vec<Scored>)
    ensures
        best@ == nearest(items@, k as nat),
{
    let mut best: Vec<Scored> = Vec::new();
    let mut i: usize = 0;
    assert(items@.take(0) =~= Seq::<Scored>::empty());
    assert(ascending(Seq::<Scored>::empty()).take(0) =~= Seq::<Scored>::empty());
    while i < items.len()
        invariant
            i <= items.len(),
            best@ == nearest(items@.take(i as int), k as nat),
        decreases items.len() - i,
    {
        proof {
            lemma_ascending_is_ascending(items@.take(i as int));
            lemma_nearest_step(items@.take(i as int), items@[i as int], k as nat);
            assert(items@.take(i as int).push(items@[i as int]) =~= items@.take(i + 1));
        }
        place_bounded(&mut best, items[i], k);
        i = i + 1;
    }
    assert(items@.take(items.len() as int) =~= items@);
    best
}

/// The distances of `s`, each scored under its position.
pub open spec fn indexed(s: Seq<u32>) -> Seq<Scored> {
    Seq::new(s.len(), |i: int| Scored { index: i as usize, distance: s[i] })
}

/// The indices of `s`, in order.
pub open spec fn indices(s: Seq<Scored>) -> Seq<usize> {
    Seq::new(s.len(), |i: int| s[i].index)
}

/// Whether `i` is the first position of a least distance in `s`.
pub open spec fn is_first_minimum(s: Seq<u32>, i: int) -> bool {
    &&& 0 <= i < s.len()
    &&& forall|j: int| 0 <= j < s.len() ==> rank(s[i]) <= rank(#[trigger] s[j])
    &&& forall|j: int| 0 <= j < i ==> rank(s[i]) < rank(#[trigger] s[j])
}

/// The first position of a least distance in `s`; zero where `s` is empty.
pub open spec fn first_minimum_of(s: Seq<u32>) -> int
    decreases s.len(),
{
    if s.len() <= 1 {
        0
    } else {
        let before = first_minimum_of(s.drop_last());
        if rank(s.last()) < rank(s[before]) {
            s.len() - 1
        } else {
            before
        }
    }
}

/// For each row, the first position of a least distance in it.
pub open spec fn nearest_of_each(table: Seq<Seq<u32>>) -> Seq<usize> {
    Seq::new(table.len(), |i: int| first_minimum_of(table[i]) as usize)
}

/// `first_minimum_of` is the first minimum of what is not empty.
pub proof fn lemma_first_minimum_of(s: Seq<u32>)
    requires
        s.len() > 0,
    ensures
        is_first_minimum(s, first_minimum_of(s)),
    decreases s.len(),
{
    if s.len() > 1 {
        let front = s.drop_last();
        lemma_first_minimum_of(front);
        let before = first_minimum_of(front);
        let at = first_minimum_of(s);
        assert forall|j: int| 0 <= j < s.len() implies rank(s[at]) <= rank(#[trigger] s[j]) by {
            if j < front.len() {
                assert(rank(front[before]) <= rank(front[j]));
            }
        }
        assert forall|j: int| 0 <= j < at implies rank(s[at]) < rank(#[trigger] s[j]) by {
            if at == before {
                assert(rank(front[before]) < rank(front[j]));
            } else {
                assert(rank(front[before]) <= rank(front[j]));
            }
        }
    }
}

/// At most one position is the first minimum.
pub proof fn lemma_first_minimum_unique(s: Seq<u32>, i: int, j: int)
    requires
        is_first_minimum(s, i),
        is_first_minimum(s, j),
    ensures
        i == j,
{
    if i < j {
        assert(rank(s[j]) < rank(s[i]));
    } else if j < i {
        assert(rank(s[i]) < rank(s[j]));
    }
}

/// Finds the first position of a least distance.
pub fn first_minimum(distances: &Vec<u32>) -> (best: usize)
    requires
        distances.len() > 0,
    ensures
        is_first_minimum(distances@, best as int),
        best == first_minimum_of(distances@),
{
    proof {
        lemma_first_minimum_of(distances@);
    }
    let mut best: usize = 0;
    let mut i: usize = 1;
    while i < distances.len()
        invariant
            1 <= i <= distances.len(),
            is_first_minimum(distances@.take(i as int), best as int),
        decreases distances.len() - i,
    {
        if rank_of(distances[i]) < rank_of(distances[best]) {
            best = i;
        }
        i = i + 1;
    }
    assert(distances@.take(distances.len() as int) =~= distances@);
    proof {
        lemma_first_minimum_unique(distances@, best as int, first_minimum_of(distances@));
    }
    best
}

/// Scores each distance under its position.
pub fn score_all(distances: &Vec<u32>) -> (items: Vec<Scored>)
    ensures
        items@ == indexed(distances@),
{
    let mut items: Vec<Scored> = Vec::new();
    let mut i: usize = 0;
    while i < distances.len()
        invariant
            i <= distances.len(),
            items@ == indexed(distances@.take(i as int)),
        decreases distances.len() - i,
    {
        items.push(Scored { index: i, distance: distances[i] });
        assert(items@ =~= indexed(distances@.take(i + 1)));
        i = i + 1;
    }
    assert(distances@.take(distances.len() as int) =~= distances@);
    items
}

/// Reads the indices off a list of scored items.
pub fn indices_of(items: &Vec<Scored>) -> (out: Vec<usize>)
    ensures
        out@ == indices(items@),
{
    let mut out: Vec<usize> = Vec::new();
    let mut i: usize = 0;
    while i < items.len()
        invariant
            i <= items.len(),
            out@ == indices(items@.take(i as int)),
        decreases items.len() - i,
    {
        out.push(items[i].index);
        assert(out@ =~= indices(items@.take(i + 1)));
        i = i + 1;
    }
    assert(items@.take(items.len() as int) =~= items@);
    out
}

/// The first minimum is what a selection of one selects: naming the
/// nearest centroid and probing one cluster follow the same order.
pub proof fn lemma_first_minimum_is_nearest(distances: Seq<u32>, i: int)
    requires
        is_first_minimum(distances, i),
        distances.len() <= usize::MAX,
    ensures
        nearest(indexed(distances), 1) == seq![
            Scored { index: i as usize, distance: distances[i] },
        ],
{
    broadcast use vstd::seq_lib::group_to_multiset_ensures;

    let items = indexed(distances);
    let sorted = ascending(items);
    let least = items[i];
    lemma_ascending_is_ascending(items);
    lemma_ascending_permutes(items);
    vstd::seq_lib::to_multiset_contains(sorted, sorted[0]);
    vstd::seq_lib::to_multiset_contains(items, sorted[0]);
    assert(sorted.contains(sorted[0]));
    let j = choose|j: int| 0 <= j < items.len() && items[j] == sorted[0];
    if j != i {
        assert(items[j].index == j as usize && items[i].index == i as usize);
        assert(rank(distances[i]) <= rank(distances[j]));
        if j < i {
            assert(rank(distances[i]) < rank(distances[j]));
        }
        assert(least.before(items[j]));
        assert(items.contains(least));
        vstd::seq_lib::to_multiset_contains(items, least);
        vstd::seq_lib::to_multiset_contains(sorted, least);
        let p = choose|p: int| 0 <= p < sorted.len() && sorted[p] == least;
        if p > 0 {
            assert(!sorted[p].before(sorted[0]));
        }
    }
    assert(nearest(items, 1) =~= seq![least]);
}

} // verus!
