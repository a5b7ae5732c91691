use rainbow_stacking::swaps::{factorial, generate_swaps};

#[test]
fn test_swaps() {
    assert_eq!(generate_swaps(4).len(), factorial(4) - 1);
    assert_eq!(generate_swaps(7).len(), factorial(7) - 1);
}

#[test]
fn test_swap_counts_small() {
    assert_eq!(generate_swaps(1).len(), 0);
    assert_eq!(generate_swaps(2).len(), 1);
    assert_eq!(generate_swaps(3).len(), 5);
    assert_eq!(generate_swaps(5).len(), 119);
}

#[test]
fn test_factorial_values() {
    assert_eq!(factorial(1), 1);
    assert_eq!(factorial(2), 2);
    assert_eq!(factorial(4), 24);
    assert_eq!(factorial(7), 5040);
}

#[test]
fn test_swaps_in_range() {
    for n in 2..8usize {
        for (a, b) in generate_swaps(n) {
            assert!(b < a && a < n);
        }
    }
}

// Walking the full sequence for n = 4 visits all 24 orderings of four
// labels, none of them twice.
#[test]
fn test_permutation_coverage_n4() {
    let swaps = generate_swaps(4);
    assert_eq!(swaps.len(), 23);
    let mut perm = [0usize, 1, 2, 3];
    let mut seen = vec![perm];
    for &(a, b) in swaps.iter() {
        perm.swap(a, b);
        seen.push(perm);
    }
    assert_eq!(seen.len(), 24);
    for x in 0..seen.len() {
        for y in (x + 1)..seen.len() {
            assert_ne!(seen[x], seen[y]);
        }
    }
}

// The same walk for n = 5 visits all 120 orderings exactly once.
#[test]
fn test_permutation_coverage_n5() {
    let swaps = generate_swaps(5);
    assert_eq!(swaps.len(), 119);
    let mut perm = [0usize, 1, 2, 3, 4];
    let mut seen = vec![perm];
    for &(a, b) in swaps.iter() {
        perm.swap(a, b);
        seen.push(perm);
    }
    assert_eq!(seen.len(), 120);
    for x in 0..seen.len() {
        for y in (x + 1)..seen.len() {
            assert_ne!(seen[x], seen[y]);
        }
    }
}

// At the dimension the search actually runs, the walk visits all
// 5040 orderings of seven labels exactly once.
#[test]
fn test_permutation_coverage_n7() {
    let swaps = generate_swaps(7);
    assert_eq!(swaps.len(), 5039);
    let mut perm = [0usize, 1, 2, 3, 4, 5, 6];
    let mut seen = std::collections::HashSet::new();
    seen.insert(perm);
    for &(a, b) in swaps.iter() {
        perm.swap(a, b);
        seen.insert(perm);
    }
    assert_eq!(seen.len(), 5040);
}

// The first transposition of the sequence, for any n, exchanges the
// first two indices.
#[test]
fn test_first_swap() {
    assert_eq!(generate_swaps(7)[0], (1, 0));
}
