//! An alignment written out cell by cell.

use crate::pos::Pos;
use vstd::prelude::*;

verus! {

/// The path corresponding to an alignment of two sequences: the cells it
/// visits, from `(0, 0)` to the target.
///
/// The type is a plain vector. Whether its contents are a path at all is
/// what [`is_path`] says and [`is_valid_path`] tests.
pub type Path = Vec<Pos>;

/// `q` is one cell below `p`, one cell to its right, or both.
pub open spec fn is_step(p: Pos, q: Pos) -> bool {
    ||| (q.0 == p.0 + 1 && q.1 == p.1 + 1)
    ||| (q.0 == p.0 + 1 && q.1 == p.1)
    ||| (q.0 == p.0 && q.1 == p.1 + 1)
}

/// Each element follows the one before it by a step.
pub open spec fn steps_legal(path: Seq<Pos>) -> bool {
    forall|i: int, j: int|
        0 <= i && j == i + 1 && j < path.len() ==> is_step(#[trigger] path[i], #[trigger] path[j])
}

/// `path` leads from `(0, 0)` to `target` by steps.
pub open spec fn is_path(path: Seq<Pos>, target: Pos) -> bool {
    &&& path.len() > 0
    &&& path[0] == Pos(0, 0)
    &&& path.last() == target
    &&& steps_legal(path)
}

/// Whether `q` follows `p` by a step.
pub fn step_between(p: Pos, q: Pos) -> (b: bool)
    ensures
        b == is_step(p, q),
{
    let same_row = q.0 == p.0;
    let same_col = q.1 == p.1;
    let next_row = p.0 < q.0 && q.0 - 1 == p.0;
    let next_col = p.1 < q.1 && q.1 - 1 == p.1;
    (next_row && next_col) || (next_row && same_col) || (same_row && next_col)
}

/// Whether `path` leads from `(0, 0)` to `target` by steps.
pub fn is_valid_path(path: &[Pos], target: Pos) -> (b: bool)
    ensures
        b == is_path(path@, target),
{
    let n = path.len();
    if n == 0 {
        return false;
    }
    if !(path[0].0 == 0 && path[0].1 == 0) {
        return false;
    }
    if !(path[n - 1].0 == target.0 && path[n - 1].1 == target.1) {
        return false;
    }
    let mut k: usize = 1;
    while k < n
        invariant
            1 <= k <= n,
            n == path@.len(),
            forall|i: int, j: int|
                0 <= i && j == i + 1 && j < k ==> is_step(#[trigger] path@[i], #[trigger] path@[j]),
        decreases n - k,
    {
        if !step_between(path[k - 1], path[k]) {
            assert(!steps_legal(path@)) by {
                assert(!is_step(path@[k - 1], path@[k as int]));
            }
            return false;
        }
        k += 1;
    }
    true
}

/// Along a sequence of steps no cell is visited before one that it
/// dominates: earlier cells are below or equal to later ones, and the anti
/// diagonal grows by one or two with every step.
pub proof fn lemma_steps_are_monotone(path: Seq<Pos>, i: int, j: int)
    requires
        steps_legal(path),
        0 <= i <= j < path.len(),
    ensures
        path[i].spec_le(path[j]),
        j - i <= path[j].spec_anti_diag() - path[i].spec_anti_diag() <= 2 * (j - i),
        i < j ==> path[i].spec_lt(path[j]),
    decreases j - i,
{
    if i < j {
        lemma_steps_are_monotone(path, i, j - 1);
        assert(is_step(path[j - 1], path[j]));
    }
}

/// Every cell of a path lies between the start and the target, and the
/// number of cells is bounded by the two lengths.
pub proof fn lemma_path_stays_in_matrix(path: Seq<Pos>, target: Pos, k: int)
    requires
        is_path(path, target),
        0 <= k < path.len(),
    ensures
        Pos(0, 0).spec_le(path[k]),
        path[k].spec_le(target),
        target.0 + 1 <= path.len() <= target.0 + target.1 + 1,
        target.1 + 1 <= path.len(),
{
    lemma_steps_are_monotone(path, 0, k);
    lemma_steps_are_monotone(path, k, path.len() - 1);
    lemma_steps_are_monotone(path, 0, path.len() - 1);
    lemma_steps_advance_each_coordinate_by_at_most_one(path, path.len() - 1);
}

/// After `k` steps from the first cell, neither coordinate has advanced by
/// more than `k`.
pub proof fn lemma_steps_advance_each_coordinate_by_at_most_one(path: Seq<Pos>, k: int)
    requires
        steps_legal(path),
        0 <= k < path.len(),
    ensures
        path[k].0 - path[0].0 <= k,
        path[k].1 - path[0].1 <= k,
    decreases k,
{
    if 0 < k {
        lemma_steps_advance_each_coordinate_by_at_most_one(path, k - 1);
        assert(is_step(path[k - 1], path[k]));
    }
}

} // verus!
