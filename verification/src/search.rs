//! The stacking search: walk the transposition sequence and test, after
//! each relabeling, whether two squares disagree on every off-diagonal
//! cell.

use vstd::prelude::*;
use crate::square::{apply_swap, grid_of, relabeled, Square, SIZE};

verus! {

/// Two grids disagree at every off-diagonal cell: a rainbow stacking.
pub open spec fn disagrees(a: Seq<Seq<i32>>, b: Seq<Seq<i32>>) -> bool {
    forall|i: int, j: int| #![trigger a[i][j], b[i][j]] 0 <= i < j < SIZE ==> a[i][j] != b[i][j]
}

/// The grid after the first k transpositions of `swaps` have been
/// applied, in order.
pub open spec fn applied(g: Seq<Seq<i32>>, swaps: Seq<(usize, usize)>) -> Seq<Seq<i32>>
    decreases swaps.len(),
{
    if swaps.len() == 0 {
        g
    } else {
        applied(relabeled(g, swaps[0].0 as int, swaps[0].1 as int), swaps.drop_first())
    }
}

/// Appending one transposition applies it after all the others.
pub proof fn lemma_applied_push(g: Seq<Seq<i32>>, swaps: Seq<(usize, usize)>, s: (usize, usize))
    ensures
        applied(g, swaps.push(s)) == relabeled(applied(g, swaps), s.0 as int, s.1 as int),
    decreases swaps.len(),
{
    assert(swaps.push(s)[0] == if swaps.len() == 0 {
        s
    } else {
        swaps[0]
    });
    if swaps.len() == 0 {
        assert(swaps.push(s).drop_first() =~= swaps);
        assert(applied(g, swaps.push(s)) == applied(
            relabeled(g, s.0 as int, s.1 as int),
            swaps.push(s).drop_first(),
        ));
    } else {
        assert(swaps.push(s).drop_first() =~= swaps.drop_first().push(s));
        lemma_applied_push(relabeled(g, swaps[0].0 as int, swaps[0].1 as int), swaps.drop_first(), s);
    }
}

/// A square never disagrees with a copy of itself: some off-diagonal
/// cell (indeed every one) equals its own copy, so the step-zero test
/// of the search fails and only proper relabelings remain to be tried.
pub proof fn lemma_no_self_disagreement(s: Square)
    ensures
        !disagrees(grid_of(s), grid_of(s)),
{
    if disagrees(grid_of(s), grid_of(s)) {
        lemma_disagrees_at(grid_of(s), grid_of(s), 0, 1);
    }
}

/// With the movable square starting as an exact copy of the fixed
/// square, the step-zero test of the search fails: only proper
/// relabelings can produce a stacking of a square with its own copy.
pub proof fn lemma_copy_fails_at_step_zero(s: Square, swaps: Seq<(usize, usize)>)
    ensures
        !disagrees(grid_of(s), applied(grid_of(s), swaps.take(0))),
{
    assert(swaps.take(0) =~= Seq::<(usize, usize)>::empty());
    lemma_no_self_disagreement(s);
}

/// Grids that disagree everywhere off the diagonal disagree at any one
/// off-diagonal cell in particular.
pub proof fn lemma_disagrees_at(a: Seq<Seq<i32>>, b: Seq<Seq<i32>>, i: int, j: int)
    requires
        disagrees(a, b),
        0 <= i < j < SIZE,
    ensures
        a[i][j] != b[i][j],
{
}

/// Tests whether the two squares hold different labels at every
/// off-diagonal cell.
pub fn squares_disagree(a: &Square, b: &Square) -> (r: bool)
    ensures
        r == disagrees(grid_of(*a), grid_of(*b)),
{
    let mut i: usize = 0;
    while i < SIZE
        invariant
            i <= SIZE,
            forall|p: int, q: int| 0 <= p < q < SIZE && p < i ==> grid_of(*a)[p][q] != grid_of(*b)[p][q],
        decreases SIZE - i,
    {
        let mut j: usize = i + 1;
        while j < SIZE
            invariant
                i < SIZE,
                i < j <= SIZE,
                forall|q: int| i < q < j ==> grid_of(*a)[i as int][q] != grid_of(*b)[i as int][q],
            decreases SIZE - j,
        {
            if a[i][j] == b[i][j] {
                assert(grid_of(*a)[i as int][j as int] == grid_of(*b)[i as int][j as int]);
                return false;
            }
            j = j + 1;
        }
        i = i + 1;
    }
    true
}

/// Walks the transposition sequence looking for a rainbow stacking of
/// `sqr1` and `sqr2`.  The state of `sqr2` is tested before each
/// transposition is consumed, the identity relabeling first of all; on
/// success the search stops at once, leaving `sqr2` in the relabeled
/// state that achieved full disagreement.  On failure every
/// transposition has been applied and no tested state disagreed.
pub fn find_stacking(swaps: &Vec<(usize, usize)>, sqr1: &Square, sqr2: &mut Square) -> (found:
    bool)
    requires
        forall|k: int|
            0 <= k < swaps@.len() ==> (#[trigger] swaps@[k]).0 < SIZE && swaps@[k].1 < SIZE,
    ensures
        found == exists|k: int|
            #![trigger swaps@.take(k)]
            0 <= k < swaps@.len() && disagrees(
                grid_of(*sqr1),
                applied(grid_of(*old(sqr2)), swaps@.take(k)),
            ),
        found ==> exists|k: int|
            #![trigger swaps@.take(k)]
            {
                &&& 0 <= k < swaps@.len()
                &&& grid_of(*final(sqr2)) == applied(grid_of(*old(sqr2)), swaps@.take(k))
                &&& disagrees(grid_of(*sqr1), grid_of(*final(sqr2)))
                &&& forall|m: int|
                    0 <= m < k ==> !disagrees(
                        grid_of(*sqr1),
                        applied(grid_of(*old(sqr2)), swaps@.take(m)),
                    )
            },
        !found ==> grid_of(*final(sqr2)) == applied(grid_of(*old(sqr2)), swaps@),
{
    let n = swaps.len();
    let mut idx: usize = 0;
    while idx < n
        invariant
            idx <= n,
            n == swaps@.len(),
            forall|k: int|
                0 <= k < swaps@.len() ==> (#[trigger] swaps@[k]).0 < SIZE && swaps@[k].1 < SIZE,
            grid_of(*sqr2) == applied(grid_of(*old(sqr2)), swaps@.take(idx as int)),
            forall|m: int|
                0 <= m < idx ==> !disagrees(
                    grid_of(*sqr1),
                    applied(grid_of(*old(sqr2)), swaps@.take(m)),
                ),
        decreases n - idx,
    {
        if squares_disagree(sqr1, sqr2) {
            proof {
                assert(disagrees(
                    grid_of(*sqr1),
                    applied(grid_of(*old(sqr2)), swaps@.take(idx as int)),
                ));
            }
            return true;
        }
        apply_swap(sqr2, &swaps[idx]);
        proof {
            assert(swaps@.take(idx + 1) =~= swaps@.take(idx as int).push(swaps@[idx as int]));
            lemma_applied_push(
                grid_of(*old(sqr2)),
                swaps@.take(idx as int),
                swaps@[idx as int],
            );
        }
        idx = idx + 1;
    }
    proof {
        assert(swaps@.take(n as int) =~= swaps@);
    }
    false
}

} // verus!
