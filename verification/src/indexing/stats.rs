//! Figures that describe an index, for diagnostics.

use crate::error::{append_decimal, decimal_text};
use vstd::prelude::*;
use vstd::string::*;

verus! {

/// How many lists hold an id.
pub open spec fn non_empty_count(lists: Seq<Seq<u32>>) -> nat
    decreases lists.len(),
{
    if lists.len() == 0 {
        0
    } else if lists.last().len() > 0 {
        non_empty_count(lists.drop_last()) + 1
    } else {
        non_empty_count(lists.drop_last())
    }
}

/// The length of each list.
pub open spec fn lengths(lists: Seq<Seq<u32>>) -> Seq<usize> {
    Seq::new(lists.len(), |c: int| lists[c].len() as usize)
}

/// No number stands before a smaller one.
pub open spec fn is_sorted(s: Seq<usize>) -> bool {
    forall|i: int, j: int| 0 <= i < j < s.len() ==> s[i] <= s[j]
}

/// Whether `sorted` is `s` in ascending order: sorted, and the same numbers,
/// each as often.
pub open spec fn sorts(sorted: Seq<usize>, s: Seq<usize>) -> bool {
    &&& sorted.len() == s.len()
    &&& is_sorted(sorted)
    &&& sorted.to_multiset() == s.to_multiset()
}

/// Puts numbers in ascending order.
pub fn sorted_sizes(sizes: &Vec<usize>) -> (sorted: Vec<usize>)
    ensures
        sorts(sorted@, sizes@),
{
    broadcast use vstd::seq_lib::group_to_multiset_ensures;

    let mut sorted: Vec<usize> = Vec::new();
    let mut i: usize = 0;
    assert(sizes@.take(0) =~= Seq::<usize>::empty());
    while i < sizes.len()
        invariant
            i <= sizes.len(),
            sorts(sorted@, sizes@.take(i as int)),
        decreases sizes.len() - i,
    {
        let size = sizes[i];
        let mut pos: usize = sorted.len();
        while pos > 0 && sorted[pos - 1] > size
            invariant
                pos <= sorted.len(),
                forall|j: int| pos <= j < sorted.len() ==> sorted[j] > size,
            decreases pos,
        {
            pos = pos - 1;
        }
        let ghost before = sorted@;
        sorted.insert(pos, size);
        proof {
            vstd::seq_lib::to_multiset_insert(before, pos as int, size);
            assert(sizes@.take(i + 1) =~= sizes@.take(i as int).push(size));
            vstd::seq_lib::to_multiset_build(sizes@.take(i as int), size);
            assert forall|a: int, b: int| 0 <= a < b < sorted@.len() implies sorted@[a]
                <= sorted@[b] by {
                if b < pos {
                    assert(sorted@[a] == before[a] && sorted@[b] == before[b]);
                } else if b == pos {
                    assert(sorted@[a] == before[a]);
                    if a < pos - 1 {
                        assert(before[a] <= before[pos - 1]);
                    }
                } else if a == pos {
                    assert(sorted@[b] == before[b - 1]);
                } else if a < pos {
                    assert(sorted@[a] == before[a] && sorted@[b] == before[b - 1]);
                } else {
                    assert(sorted@[a] == before[a - 1] && sorted@[b] == before[b - 1]);
                }
            }
        }
        i = i + 1;
    }
    assert(sizes@.take(sizes.len() as int) =~= sizes@);
    sorted
}

/// Figures that describe an index.
#[derive(Debug, Clone)]
pub struct IVFStats {
    pub num_clusters: usize,
    pub total_vectors: usize,
    pub non_empty_clusters: usize,
    pub min_cluster_size: usize,
    pub median_cluster_size: usize,
    pub max_cluster_size: usize,
    pub num_probe: usize,
}

impl IVFStats {
    /// The figures, laid out for a reader.
    pub open spec fn text(&self) -> Seq<char> {
        "IVF Index Stats:\n- Clusters: "@ + decimal_text(self.num_clusters as nat) + " ("@
            + decimal_text(self.non_empty_clusters as nat) + " non-empty)\n- Total vectors: "@
            + decimal_text(self.total_vectors as nat) + "\n- Cluster sizes: min="@ + decimal_text(
            self.min_cluster_size as nat,
        ) + ", median="@ + decimal_text(self.median_cluster_size as nat) + ", max="@
            + decimal_text(self.max_cluster_size as nat) + "\n- Probe: "@ + decimal_text(
            self.num_probe as nat,
        ) + " clusters per query"@
    }

    /// Lays the figures out for a reader.
    pub fn to_text(&self) -> (s: String)
        ensures
            s@ == self.text(),
    {
        let mut s = String::from_str("IVF Index Stats:\n- Clusters: ");
        append_decimal(&mut s, self.num_clusters as u64);
        s.append(" (");
        append_decimal(&mut s, self.non_empty_clusters as u64);
        s.append(" non-empty)\n- Total vectors: ");
        append_decimal(&mut s, self.total_vectors as u64);
        s.append("\n- Cluster sizes: min=");
        append_decimal(&mut s, self.min_cluster_size as u64);
        s.append(", median=");
        append_decimal(&mut s, self.median_cluster_size as u64);
        s.append(", max=");
        append_decimal(&mut s, self.max_cluster_size as u64);
        s.append("\n- Probe: ");
        append_decimal(&mut s, self.num_probe as u64);
        s.append(" clusters per query");
        s
    }
}

} // verus!
