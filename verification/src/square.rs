//! Fixed-size squares and the transposer that relabels a pair of
//! vertices by exchanging the matching rows and columns.

use vstd::prelude::*;

verus! {

/// Dimension of every square handled by this crate.
pub const SIZE: usize = 7;

/// An edge coloring of the complete graph on SIZE vertices: cell
/// (i, j) holds the label of the edge between vertices i and j.
pub type Square = [[i32; SIZE]; SIZE];

/// The mathematical contents of a square, row by row.
pub open spec fn grid_of(s: Square) -> Seq<Seq<i32>> {
    Seq::new(SIZE as nat, |i: int| Seq::new(SIZE as nat, |j: int| s[i][j]))
}

/// Where index x goes when vertices a and b trade places.
pub open spec fn transposed(x: int, a: int, b: int) -> int {
    if x == a {
        b
    } else if x == b {
        a
    } else {
        x
    }
}

/// The grid after relabeling vertices a and b throughout: rows a and b
/// trade places, and so do columns a and b.
pub open spec fn relabeled(g: Seq<Seq<i32>>, a: int, b: int) -> Seq<Seq<i32>> {
    Seq::new(
        SIZE as nat,
        |i: int| Seq::new(SIZE as nat, |j: int| g[transposed(i, a, b)][transposed(j, a, b)]),
    )
}

/// Exchanges row i with row j and column i with column j of `sqr`,
/// in place: the relabeling of vertices i and j.
pub fn apply_swap(sqr: &mut Square, swap: &(usize, usize))
    requires
        swap.0 < SIZE,
        swap.1 < SIZE,
    ensures
        grid_of(*final(sqr)) == relabeled(grid_of(*old(sqr)), swap.0 as int, swap.1 as int),
{
    let i = swap.0;
    let j = swap.1;
    let row = sqr[i];
    sqr[i] = sqr[j];
    sqr[j] = row;
    let mut k: usize = 0;
    while k < SIZE
        invariant
            k <= SIZE,
            i < SIZE,
            j < SIZE,
            forall|r: int, c: int|
                0 <= r < SIZE && 0 <= c < SIZE && r < k ==> sqr[r][c] == old(
                    sqr,
                )[transposed(r, i as int, j as int)][transposed(c, i as int, j as int)],
            forall|r: int, c: int|
                0 <= r < SIZE && 0 <= c < SIZE && r >= k ==> sqr[r][c] == old(
                    sqr,
                )[transposed(r, i as int, j as int)][c],
        decreases SIZE - k,
    {
        let cell = sqr[k][i];
        sqr[k][i] = sqr[k][j];
        sqr[k][j] = cell;
        k = k + 1;
    }
    proof {
        assert(grid_of(*sqr) =~~= relabeled(grid_of(*old(sqr)), i as int, j as int));
    }
}

/// Relabeling the same pair of vertices twice restores the square:
/// the transposer is an involution.
pub proof fn lemma_relabel_involution(s: Square, a: int, b: int)
    requires
        0 <= a < SIZE,
        0 <= b < SIZE,
    ensures
        relabeled(relabeled(grid_of(s), a, b), a, b) == grid_of(s),
{
    assert(relabeled(relabeled(grid_of(s), a, b), a, b) =~~= grid_of(s));
}

} // verus!
