use rainbow_stacking::search::{find_stacking, squares_disagree};
use rainbow_stacking::square::{apply_swap, Square, SIZE};
use rainbow_stacking::swaps::generate_swaps;

fn build(f: impl Fn(usize, usize) -> i32) -> Square {
    let mut sq = [[0i32; SIZE]; SIZE];
    for i in 0..SIZE {
        for j in 0..SIZE {
            sq[i][j] = f(i, j);
        }
    }
    sq
}

// Applying the same transposition twice restores the square.
#[test]
fn test_apply_swap_involution() {
    let original = build(|i, j| (3 * i + 5 * j) as i32);
    let mut sq = original;
    apply_swap(&mut sq, &(4, 2));
    assert_ne!(sq, original);
    apply_swap(&mut sq, &(4, 2));
    assert_eq!(sq, original);
}

#[test]
fn test_apply_swap_relabels_rows_and_columns() {
    let sq0 = build(|i, j| (7 * i + j) as i32);
    let mut sq = sq0;
    apply_swap(&mut sq, &(1, 0));
    for i in 0..SIZE {
        for j in 0..SIZE {
            let p = |x: usize| {
                if x == 1 {
                    0
                } else if x == 0 {
                    1
                } else {
                    x
                }
            };
            assert_eq!(sq[i][j], sq0[p(i)][p(j)]);
        }
    }
}

// A square compared against an exact copy of itself fails the
// disagreement test at step zero.
#[test]
fn test_identical_squares_never_disagree_at_step_zero() {
    let sq = build(|i, j| ((i * j) % 5) as i32);
    let copy = sq;
    assert!(!squares_disagree(&sq, &copy));
}

// Two constant squares collide at every off-diagonal cell under every
// relabeling, so the search exhausts the whole sequence and fails.
#[test]
fn test_no_stacking_for_identical_constant_squares() {
    let swaps = generate_swaps(SIZE);
    let fixed = build(|_, _| 0);
    let mut movable = fixed;
    assert!(!find_stacking(&swaps, &fixed, &mut movable));
}

// Two hand-built symmetric squares that admit a rainbow stacking under
// the relabeling that exchanges vertices 0 and 1: the search must find
// it and leave the movable square disagreeing with the fixed square at
// all 21 off-diagonal cells.
#[test]
fn test_stacking_found_after_one_swap() {
    let swaps = generate_swaps(SIZE);
    let fixed = build(|i, j| ((i + j) % SIZE) as i32);
    let p = |x: usize| {
        if x == 0 {
            1
        } else if x == 1 {
            0
        } else {
            x
        }
    };
    let mut movable = build(|i, j| ((p(i) + p(j) + 1) % SIZE) as i32);
    // the two squares agree somewhere at step zero
    assert!(!squares_disagree(&fixed, &movable));
    assert!(find_stacking(&swaps, &fixed, &mut movable));
    for i in 0..SIZE {
        for j in (i + 1)..SIZE {
            assert_ne!(fixed[i][j], movable[i][j]);
        }
    }
}

// A pair that already disagrees everywhere is accepted at step zero,
// with the movable square left untouched.
#[test]
fn test_stacking_found_at_step_zero() {
    let swaps = generate_swaps(SIZE);
    let fixed = build(|i, j| ((i + j) % SIZE) as i32);
    let start = build(|i, j| ((i + j + 1) % SIZE) as i32);
    let mut movable = start;
    assert!(find_stacking(&swaps, &fixed, &mut movable));
    assert_eq!(movable, start);
}
