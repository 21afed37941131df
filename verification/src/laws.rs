//! General laws of the edit-distance recurrence, proved once and for all
//! over [`edit_cost`], the spec that `DistanceMatrix::get_distance` is
//! verified against.

use crate::engine::edit_cost;
use vstd::prelude::*;

verus! {

/// Transposing the whole table swaps the two sequences when insertion and
/// deletion are charged one and the same cost `c`.
pub proof fn lemma_edit_cost_swap(a: Seq<char>, b: Seq<char>, c: int, sub: int, i: int, j: int)
    ensures
        edit_cost(a, b, c, c, sub, i, j) == edit_cost(b, a, c, c, sub, j, i),
    decreases i + j,
{
    if i >= 1 && j >= 1 {
        lemma_edit_cost_swap(a, b, c, sub, i - 1, j);
        lemma_edit_cost_swap(a, b, c, sub, i, j - 1);
        lemma_edit_cost_swap(a, b, c, sub, i - 1, j - 1);
    }
}

/// With equal insertion and deletion costs the distance is symmetric:
/// swapping the two sequences does not change it. When the two costs
/// differ, no such law holds and the distance may change under a swap.
pub proof fn lemma_distance_symmetric(a: Seq<char>, b: Seq<char>, ins: int, del: int, sub: int)
    requires
        ins == del,
    ensures
        edit_cost(a, b, ins, del, sub, b.len() as int, a.len() as int) == edit_cost(
            b,
            a,
            ins,
            del,
            sub,
            a.len() as int,
            b.len() as int,
        ),
{
    lemma_edit_cost_swap(a, b, ins, sub, b.len() as int, a.len() as int);
}

/// Every diagonal cell of the table for a sequence against itself is zero:
/// matching characters are free, whatever the three costs are.
pub proof fn lemma_edit_cost_diagonal(a: Seq<char>, ins: int, del: int, sub: int, i: int)
    requires
        0 <= i <= a.len(),
    ensures
        edit_cost(a, a, ins, del, sub, i, i) == 0,
    decreases i,
{
    if i >= 1 {
        lemma_edit_cost_diagonal(a, ins, del, sub, i - 1);
    }
}

/// A sequence is at distance zero from itself, whatever the costs.
pub proof fn lemma_distance_identical(a: Seq<char>, ins: int, del: int, sub: int)
    ensures
        edit_cost(a, a, ins, del, sub, a.len() as int, a.len() as int) == 0,
{
    lemma_edit_cost_diagonal(a, ins, del, sub, a.len() as int);
}

/// From an empty source, the distance to `b` is `b.len()` insertions.
pub proof fn lemma_distance_from_empty(a: Seq<char>, b: Seq<char>, ins: int, del: int, sub: int)
    requires
        a.len() == 0,
    ensures
        edit_cost(a, b, ins, del, sub, b.len() as int, a.len() as int) == b.len() * ins,
{
}

/// To an empty target, the distance from `a` is also charged per
/// *insertion* cost: the engine reuses that cost for both base cases, so
/// the deletion cost never reaches the degenerate column.
pub proof fn lemma_distance_to_empty(a: Seq<char>, b: Seq<char>, ins: int, del: int, sub: int)
    requires
        b.len() == 0,
    ensures
        edit_cost(a, b, ins, del, sub, b.len() as int, a.len() as int) == a.len() * ins,
{
}

} // verus!
