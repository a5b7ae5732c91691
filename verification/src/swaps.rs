//! Heap's algorithm: the canonical sequence of n! - 1 transpositions
//! that steps through every ordering of n labels exactly once.

use vstd::prelude::*;

verus! {

/// Mathematical factorial.
pub open spec fn fact(n: nat) -> nat
    decreases n,
{
    if n == 0 {
        1
    } else {
        n * fact((n - 1) as nat)
    }
}

pub proof fn lemma_fact_pos(n: nat)
    ensures
        fact(n) >= 1,
    decreases n,
{
    if n > 0 {
        lemma_fact_pos((n - 1) as nat);
        assert(n * fact((n - 1) as nat) >= 1) by (nonlinear_arith)
            requires
                n >= 1,
                fact((n - 1) as nat) >= 1,
        ;
    }
}

/// For n >= 1 the factorial dominates its argument, strictly from 3 on.
pub proof fn lemma_fact_ge(n: nat)
    requires
        n >= 1,
    ensures
        fact(n) >= n,
        n >= 3 ==> fact(n) >= 2 * n,
    decreases n,
{
    if n == 1 || n == 2 {
        reveal_with_fuel(fact, 3);
    } else {
        lemma_fact_ge((n - 1) as nat);
        assert(n * fact((n - 1) as nat) >= 2 * n) by (nonlinear_arith)
            requires
                n >= 3,
                fact((n - 1) as nat) >= 2,
        ;
    }
}

/// Product of the integers 1..=n.
pub fn factorial(n: usize) -> (r: usize)
    requires
        n >= 1,
        fact(n as nat) <= usize::MAX,
    ensures
        r == fact(n as nat),
{
    let mut acc: usize = 1;
    let mut i: usize = 1;
    proof {
        assert(fact(0) == 1);
    }
    while i < n
        invariant
            1 <= i <= n,
            acc == fact(i as nat),
            fact(n as nat) <= usize::MAX,
        decreases n - i,
    {
        proof {
            lemma_fact_mono((i + 1) as nat, n as nat);
            assert(fact((i + 1) as nat) == (i + 1) * fact(i as nat));
            assert((i + 1) * fact(i as nat) == fact(i as nat) * (i + 1)) by (nonlinear_arith);
        }
        acc = acc * (i + 1);
        i = i + 1;
    }
    acc
}

/// fact is monotone.
pub proof fn lemma_fact_mono(a: nat, b: nat)
    requires
        a <= b,
    ensures
        fact(a) <= fact(b),
    decreases b,
{
    if a < b {
        lemma_fact_mono(a, (b - 1) as nat);
        lemma_fact_pos((b - 1) as nat);
        assert(fact(b) == b * fact((b - 1) as nat));
        assert(b * fact((b - 1) as nat) >= 1 * fact((b - 1) as nat)) by (nonlinear_arith)
            requires
                b >= 1,
                fact((b - 1) as nat) >= 0,
        ;
    }
}

/// The transposition that Heap's algorithm emits between two
/// sub-rounds at the level whose sub-array has size m: the last index
/// of the level trades places with index 0 when that last index is
/// even, and with the level's round counter i when it is odd.
pub open spec fn top_swap(m: int, i: int) -> (usize, usize) {
    ((m - 1) as usize, if (m - 1) % 2 == 0 {
        0usize
    } else {
        i as usize
    })
}

/// The first k rounds of the level of size m, each a full sub-sequence
/// for size m - 1 followed by one top-level transposition.
pub open spec fn heap_level(m: int, k: int) -> Seq<(usize, usize)>
    decreases m, k,
{
    if m <= 1 || k <= 0 {
        Seq::empty()
    } else {
        heap_level(m, k - 1) + heap_swaps(m - 1) + seq![top_swap(m, k - 1)]
    }
}

/// The full transposition sequence of Heap's algorithm for m labels:
/// m - 1 complete rounds, then one final sub-sequence for m - 1 labels.
/// Applying it step by step to any ordering of m labels visits every
/// ordering exactly once.
pub open spec fn heap_swaps(m: int) -> Seq<(usize, usize)>
    decreases m, m,
{
    if m <= 1 {
        Seq::empty()
    } else {
        heap_level(m, m - 1) + heap_swaps(m - 1)
    }
}

/// What the counter state of the iterative algorithm has emitted so
/// far: counter d[m - 2] says how many rounds of the level of size m
/// are complete, and the lower counters locate the position inside the
/// round now in progress.
pub open spec fn emitted(d: Seq<usize>, m: int) -> Seq<(usize, usize)>
    decreases m,
{
    if m <= 1 {
        Seq::empty()
    } else {
        heap_level(m, d[m - 2] as int) + emitted(d, m - 1)
    }
}

pub proof fn lemma_heap_level_len(m: int, k: int)
    requires
        m >= 2,
        0 <= k <= m - 1,
    ensures
        heap_level(m, k).len() == k * fact((m - 1) as nat),
    decreases m, k,
{
    if k > 0 {
        lemma_heap_level_len(m, k - 1);
        lemma_heap_swaps_len(m - 1);
        lemma_fact_pos((m - 1) as nat);
        assert(heap_level(m, k) == heap_level(m, k - 1) + heap_swaps(m - 1) + seq![
            top_swap(m, k - 1),
        ]);
        assert(heap_level(m, k).len() == (k - 1) * fact((m - 1) as nat) + (fact((m - 1) as nat)
            - 1) + 1);
        assert((k - 1) * fact((m - 1) as nat) + fact((m - 1) as nat) == k * fact(
            (m - 1) as nat,
        )) by (nonlinear_arith);
    } else {
        assert(heap_level(m, k).len() == 0);
        assert(k * fact((m - 1) as nat) == 0) by (nonlinear_arith)
            requires
                k == 0,
        ;
    }
}

/// The sequence for m labels has m! - 1 transpositions.
pub proof fn lemma_heap_swaps_len(m: int)
    ensures
        m >= 1 ==> heap_swaps(m).len() == fact(m as nat) - 1,
        heap_swaps(m).len() <= fact(m as nat) - 1 || m <= 0,
    decreases m, m,
{
    if m <= 1 {
        reveal_with_fuel(fact, 2);
    } else {
        lemma_heap_level_len(m, m - 1);
        lemma_heap_swaps_len(m - 1);
        lemma_fact_pos((m - 1) as nat);
        assert((m - 1) * fact((m - 1) as nat) + (fact((m - 1) as nat) - 1) == m * fact(
            (m - 1) as nat,
        ) - 1) by (nonlinear_arith);
        assert(fact(m as nat) == m * fact((m - 1) as nat));
    }
}

/// A counter state whose counters below level m are all at their
/// maximum has emitted the whole sequence for m labels.
pub proof fn lemma_emitted_maxed(d: Seq<usize>, m: int)
    requires
        forall|k: int| 0 <= k < m - 1 ==> #[trigger] d[k] as int == k + 1,
    ensures
        emitted(d, m) == heap_swaps(m),
    decreases m,
{
    if m > 1 {
        lemma_emitted_maxed(d, m - 1);
    }
}

/// A counter state whose counters below level m are all zero has
/// emitted nothing.
pub proof fn lemma_emitted_zero(d: Seq<usize>, m: int)
    requires
        forall|k: int| 0 <= k < m - 1 ==> #[trigger] d[k] as int == 0,
    ensures
        emitted(d, m) == Seq::<(usize, usize)>::empty(),
    decreases m,
{
    if m > 1 {
        lemma_emitted_zero(d, m - 1);
        assert(emitted(d, m) =~= Seq::<(usize, usize)>::empty());
    }
}

/// In-range counters have emitted at most m! - 1 transpositions, and
/// only the all-maxed state has emitted that many.
pub proof fn lemma_emitted_len(d: Seq<usize>, m: int)
    requires
        m >= 1,
        forall|k: int| 0 <= k < m - 1 ==> #[trigger] d[k] as int <= k + 1,
    ensures
        emitted(d, m).len() <= fact(m as nat) - 1,
        emitted(d, m).len() == fact(m as nat) - 1 ==> forall|k: int|
            0 <= k < m - 1 ==> #[trigger] d[k] as int == k + 1,
    decreases m,
{
    lemma_fact_pos(m as nat);
    if m == 1 {
        reveal_with_fuel(fact, 2);
    } else {
        lemma_emitted_len(d, m - 1);
        lemma_heap_level_len(m, d[m - 2] as int);
        lemma_fact_pos((m - 1) as nat);
        assert(fact(m as nat) == m * fact((m - 1) as nat));
        assert(d[m - 2] as int <= m - 1);
        assert(d[m - 2] * fact((m - 1) as nat) + (fact((m - 1) as nat) - 1) <= m * fact(
            (m - 1) as nat,
        ) - 1) by (nonlinear_arith)
            requires
                d[m - 2] as int <= m - 1,
                fact((m - 1) as nat) >= 1,
        ;
        if (d[m - 2] as int) < m - 1 {
            assert(d[m - 2] * fact((m - 1) as nat) + (fact((m - 1) as nat) - 1) < (m - 1) * fact(
                (m - 1) as nat,
            )) by (nonlinear_arith)
                requires
                    (d[m - 2] as int) < m - 1,
                    fact((m - 1) as nat) >= 1,
            ;
            assert((m - 1) * fact((m - 1) as nat) < m * fact((m - 1) as nat)) by (nonlinear_arith)
                requires
                    fact((m - 1) as nat) >= 1,
            ;
        }
    }
}

/// One step of the iterative algorithm: resetting the maxed counters
/// below level j and incrementing counter j appends exactly one
/// top-level transposition of level j + 2 to what has been emitted.
pub proof fn lemma_emitted_step(d1: Seq<usize>, d2: Seq<usize>, m: int, j: int)
    requires
        0 <= j <= m - 2,
        forall|k: int| 0 <= k < j ==> #[trigger] d1[k] as int == k + 1,
        forall|k: int| 0 <= k < j ==> #[trigger] d2[k] as int == 0,
        (d1[j] as int) <= j,
        d2[j] as int == d1[j] as int + 1,
        forall|k: int| j < k < m - 1 ==> #[trigger] d2[k] == d1[k],
    ensures
        emitted(d2, m) == emitted(d1, m) + seq![top_swap(j + 2, d1[j] as int)],
    decreases m,
{
    if m == j + 2 {
        lemma_emitted_maxed(d1, m - 1);
        lemma_emitted_zero(d2, m - 1);
        assert(heap_level(m, d1[j] as int + 1) == heap_level(m, d1[j] as int) + heap_swaps(m - 1)
            + seq![top_swap(m, d1[j] as int)]);
        assert(emitted(d2, m) =~= emitted(d1, m) + seq![top_swap(j + 2, d1[j] as int)]);
    } else {
        lemma_emitted_step(d1, d2, m - 1, j);
        assert(emitted(d2, m) =~= emitted(d1, m) + seq![top_swap(j + 2, d1[j] as int)]);
    }
}

/// An ordering of labels after two of its positions trade contents.
pub open spec fn swapped_labels(p: Seq<int>, a: int, b: int) -> Seq<int> {
    p.update(a, p[b]).update(b, p[a])
}

/// Every transposition of the generated sequence names two distinct
/// positions, so applying it to an ordering of distinct labels always
/// moves to a different ordering: the walk never stands still.
pub proof fn lemma_step_moves(p: Seq<int>, a: int, b: int)
    requires
        0 <= b < a < p.len(),
        forall|x: int, y: int| 0 <= x < y < p.len() ==> #[trigger] p[x] != #[trigger] p[y],
    ensures
        swapped_labels(p, a, b) != p,
{
    assert(p[b] != p[a]);
    assert(swapped_labels(p, a, b)[b] == p[a]);
    if swapped_labels(p, a, b) == p {
        assert(swapped_labels(p, a, b)[b] == p[b]);
    }
}

/// Generates the n! - 1 transpositions of Heap's algorithm, with a
/// counter per level and a sentinel above the last level that stops
/// the walk once every ordering has been visited.
pub fn generate_swaps(n: usize) -> (r: Vec<(usize, usize)>)
    requires
        n >= 1,
        fact(n as nat) <= usize::MAX,
    ensures
        r@ == heap_swaps(n as int),
        r@.len() == fact(n as nat) - 1,
        forall|t: int| 0 <= t < r@.len() ==> (#[trigger] r@[t]).1 < r@[t].0 < n,
{
    let nfact = factorial(n);
    proof {
        if n >= 3 {
            lemma_fact_ge(n as nat);
        }
    }
    let mut digits: Vec<usize> = Vec::new();
    while digits.len() < n
        invariant
            digits@.len() <= n,
            forall|k: int| 0 <= k < digits@.len() ==> #[trigger] digits@[k] as int == 0,
        decreases n - digits@.len(),
    {
        digits.push(0);
    }
    digits[n - 1] = n + 1;  // sentinel
    let mut swps: Vec<(usize, usize)> = Vec::new();
    proof {
        lemma_emitted_zero(digits@, n as int);
        lemma_fact_pos(n as nat);
    }
    let mut i: usize = 0;
    while i < nfact
        invariant_except_break
            n >= 1,
            nfact == fact(n as nat),
            digits@.len() == n,
            digits@[n - 1] as int == n + 1,
            forall|k: int| 0 <= k < n - 1 ==> #[trigger] digits@[k] as int <= k + 1,
            swps@ == emitted(digits@, n as int),
            swps@.len() == i,
            i <= nfact - 1,
            forall|t: int| 0 <= t < swps@.len() ==> (#[trigger] swps@[t]).1 < swps@[t].0 < n,
        ensures
            swps@ == heap_swaps(n as int),
            forall|t: int| 0 <= t < swps@.len() ==> (#[trigger] swps@[t]).1 < swps@[t].0 < n,
        decreases nfact - i,
    {
        let ghost d0 = digits@;
        let mut j: usize = 0;
        while digits[j] == j + 1
            invariant
                n >= 1,
                digits@.len() == n,
                d0.len() == n,
                digits@[n - 1] as int == n + 1,
                j <= n - 1,
                forall|k: int| 0 <= k < j ==> #[trigger] d0[k] as int == k + 1,
                forall|k: int| 0 <= k < j ==> #[trigger] digits@[k] as int == 0,
                forall|k: int| j <= k < n ==> #[trigger] digits@[k] == d0[k],
            decreases n - j,
        {
            digits[j] = 0;
            j = j + 1;
        }
        if j == n - 1 {
            proof {
                lemma_emitted_maxed(d0, n as int);
            }
            break ;
        }
        let x = if (j + 1) % 2 == 0 {
            0
        } else {
            digits[j]
        };
        swps.push((j + 1, x));
        let c = digits[j];
        digits[j] = c + 1;
        proof {
            lemma_emitted_len(d0, n as int);
            if i == nfact - 1 {
                assert(d0[j as int] as int == j + 1);  // contradicts the scan's stop
            }
            lemma_emitted_step(d0, digits@, n as int, j as int);
            assert(top_swap(j + 2, d0[j as int] as int) == (((j + 1) as usize), x));
            assert(swps@ =~= emitted(d0, n as int) + seq![top_swap(j + 2, d0[j as int] as int)]);
        }
        i = i + 1;
    }
    proof {
        lemma_heap_swaps_len(n as int);
    }
    swps
}

} // verus!
