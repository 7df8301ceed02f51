//! Tables: lists of lists, read as sequences of sequences.

use crate::scalar::{is_finite, is_finite_number};
use vstd::prelude::*;

verus! {

/// The rows of a table, each as a sequence.
pub open spec fn rows<T>(table: Seq<Vec<T>>) -> Seq<Seq<T>> {
    Seq::new(table.len(), |i: int| table[i]@)
}

/// Whether every scalar of a table is a number that is not an infinity.
pub open spec fn all_finite(table: Seq<Seq<u32>>) -> bool {
    forall|i: int, j: int|
        0 <= i < table.len() && 0 <= j < table[i].len() ==> is_finite(#[trigger] table[i][j])
}

/// Tells whether every scalar of a table is a number that is not an
/// infinity.
pub fn is_all_finite(table: &Vec<Vec<u32>>) -> (b: bool)
    ensures
        b == all_finite(rows(table@)),
{
    let mut i: usize = 0;
    while i < table.len()
        invariant
            i <= table.len(),
            forall|a: int, b: int|
                0 <= a < i && 0 <= b < table[a].len() ==> is_finite(#[trigger] table[a][b]),
        decreases table.len() - i,
    {
        let row = &table[i];
        let mut j: usize = 0;
        while j < row.len()
            invariant
                j <= row.len(),
                i < table.len(),
                *row == table[i as int],
                forall|b: int| 0 <= b < j ==> is_finite(#[trigger] row[b]),
            decreases row.len() - j,
        {
            if !is_finite_number(row[j]) {
                assert(!is_finite(rows(table@)[i as int][j as int]));
                return false;
            }
            j = j + 1;
        }
        i = i + 1;
    }
    assert forall|a: int, b: int|
        0 <= a < rows(table@).len() && 0 <= b < rows(table@)[a].len() implies is_finite(
        #[trigger] rows(table@)[a][b],
    ) by {
        assert(is_finite(table[a][b]));
    }
    true
}

} // verus!
