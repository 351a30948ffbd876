//! Ranking of node combinations-with-replacement: the column-block index of a
//! sorted node tuple, with closed forms for orders one to three and a
//! binomial-prefix-sum recursion for higher orders, each proved against one
//! recursive rank definition.

use vstd::prelude::*;

verus! {

/// Binomial coefficient C(n, k) by Pascal's rule.
pub open spec fn spec_binomial(n: nat, k: nat) -> nat
    decreases n,
{
    if k == 0 {
        1
    } else if n == 0 {
        0
    } else {
        spec_binomial((n - 1) as nat, (k - 1) as nat) + spec_binomial((n - 1) as nat, k)
    }
}

/// The n-th triangular number 0 + 1 + ... + n.
pub open spec fn spec_triangular(m: int) -> int
    decreases m,
{
    if m <= 0 {
        0
    } else {
        spec_triangular(m - 1) + m
    }
}

/// The m-th tetrahedral number, the sum of the first m triangular numbers.
pub open spec fn spec_tetrahedral_of(m: int) -> int
    decreases m,
{
    if m <= 0 {
        0
    } else {
        spec_tetrahedral_of(m - 1) + spec_triangular(m)
    }
}

/// The prefix sum of binomials that counts the order-k combinations starting
/// below `i`: the sum over t in 0..i of C(n - t + k - 2, k - 1).
pub open spec fn rank_prefix_sum(n: int, i: int, k: int) -> int
    decreases i,
{
    if i <= 0 {
        0
    } else {
        rank_prefix_sum(n, i - 1, k) + spec_binomial((n - (i - 1) + k - 2) as nat, (k - 1) as nat)
    }
}

/// The rank of a sorted combination-with-replacement `c` drawn from
/// 0 .. n: the position of `c` in the lexicographic enumeration of all
/// sorted tuples of its length. Peel the first entry: all combinations with
/// a smaller first entry come before, then the tail is ranked recursively in
/// the shrunken id range.
pub open spec fn spec_rank(n: int, c: Seq<int>) -> int
    decreases c.len(),
{
    if c.len() == 0 {
        0
    } else if c.len() == 1 {
        c[0]
    } else {
        rank_prefix_sum(n, c[0], c.len() as int) + spec_rank(
            n - c[0],
            c.drop_first().map_values(|x: int| x - c[0]),
        )
    }
}

/// A sorted combination with every entry below n.
pub open spec fn valid_combination(n: int, c: Seq<int>) -> bool {
    &&& forall|t: int| 0 <= t < c.len() ==> 0 <= #[trigger] c[t] < n
    &&& forall|t: int, u: int| 0 <= t <= u < c.len() ==> #[trigger] c[t] <= #[trigger] c[u]
}

/// C(n, k) never exceeds 2^n.
pub proof fn lemma_binomial_le_pow2(n: nat, k: nat)
    ensures
        spec_binomial(n, k) <= vstd::arithmetic::power2::pow2(n),
    decreases n,
{
    if n == 0 {
        assert(vstd::arithmetic::power2::pow2(0) == 1) by {
            vstd::arithmetic::power2::lemma2_to64();
        }
    } else {
        vstd::arithmetic::power2::lemma_pow2_unfold(n);
        lemma_binomial_le_pow2((n - 1) as nat, (k - 1) as nat);
        lemma_binomial_le_pow2((n - 1) as nat, k);
        if k == 0 {
            vstd::arithmetic::power2::lemma_pow2_pos(n);
        }
    }
}

/// C(m, 1) == m.
pub proof fn lemma_binomial_one(m: nat)
    ensures
        spec_binomial(m, 1) == m,
    decreases m,
{
    if m > 0 {
        lemma_binomial_one((m - 1) as nat);
        assert(spec_binomial((m - 1) as nat, 0) == 1);
    }
}

/// C(m + 1, 2) is the m-th triangular number.
pub proof fn lemma_binomial_triangular(m: nat)
    ensures
        spec_binomial((m + 1) as nat, 2) == spec_triangular(m as int),
    decreases m,
{
    if m == 0 {
        assert(spec_binomial(1, 2) == spec_binomial(0, 1) + spec_binomial(0, 2));
        assert(spec_binomial(0, 1) == 0 && spec_binomial(0, 2) == 0);
    } else {
        lemma_binomial_triangular((m - 1) as nat);
        lemma_binomial_one(m);
        assert(spec_binomial((m + 1) as nat, 2) == spec_binomial(m, 1) + spec_binomial(m, 2));
    }
}

/// C(m + 2, 3) is the m-th tetrahedral number.
pub proof fn lemma_binomial_tetrahedral(m: nat)
    ensures
        spec_binomial((m + 2) as nat, 3) == spec_tetrahedral_of(m as int),
    decreases m,
{
    if m == 0 {
        assert(spec_binomial(2, 3) == spec_binomial(1, 2) + spec_binomial(1, 3));
        assert(spec_binomial(1, 2) == spec_binomial(0, 1) + spec_binomial(0, 2));
        assert(spec_binomial(1, 3) == spec_binomial(0, 2) + spec_binomial(0, 3));
        assert(spec_binomial(0, 1) == 0 && spec_binomial(0, 2) == 0 && spec_binomial(0, 3) == 0);
    } else {
        lemma_binomial_tetrahedral((m - 1) as nat);
        lemma_binomial_triangular(m);
        assert(spec_binomial((m + 2) as nat, 3) == spec_binomial((m + 1) as nat, 2)
            + spec_binomial((m + 1) as nat, 3));
    }
}

/// Twice the m-th triangular number is m (m + 1).
pub proof fn lemma_triangular_doubled(m: int)
    requires
        m >= 0,
    ensures
        2 * spec_triangular(m) == m * (m + 1),
    decreases m,
{
    if m > 0 {
        lemma_triangular_doubled(m - 1);
        assert(2 * spec_triangular(m) == m * (m + 1)) by (nonlinear_arith)
            requires
                2 * spec_triangular(m - 1) == (m - 1) * ((m - 1) + 1),
                spec_triangular(m) == spec_triangular(m - 1) + m,
        ;
    } else {
        assert(m * (m + 1) == 0) by (nonlinear_arith)
            requires
                m == 0,
        ;
    }
}

/// Six times the m-th tetrahedral number is m (m + 1) (m + 2).
pub proof fn lemma_tetrahedral_six(m: int)
    requires
        m >= 0,
    ensures
        6 * spec_tetrahedral_of(m) == m * (m + 1) * (m + 2),
    decreases m,
{
    if m > 0 {
        lemma_tetrahedral_six(m - 1);
        lemma_triangular_doubled(m);
        assert(6 * spec_tetrahedral_of(m) == m * (m + 1) * (m + 2)) by (nonlinear_arith)
            requires
                6 * spec_tetrahedral_of(m - 1) == (m - 1) * ((m - 1) + 1) * ((m - 1) + 2),
                2 * spec_triangular(m) == m * (m + 1),
                spec_tetrahedral_of(m) == spec_tetrahedral_of(m - 1) + spec_triangular(m),
        ;
    } else {
        assert(m * (m + 1) * (m + 2) == 0) by (nonlinear_arith)
            requires
                m == 0,
        ;
    }
}

/// The order-2 prefix sum telescopes to a difference of triangular numbers.
pub proof fn lemma_prefix_sum_two(n: int, i: int)
    requires
        0 <= i <= n,
    ensures
        rank_prefix_sum(n, i, 2) == spec_triangular(n) - spec_triangular(n - i),
    decreases i,
{
    if i > 0 {
        lemma_prefix_sum_two(n, i - 1);
        lemma_binomial_one((n - i + 1) as nat);
    }
}

/// The order-3 prefix sum telescopes to a difference of tetrahedral numbers.
pub proof fn lemma_prefix_sum_three(n: int, i: int)
    requires
        0 <= i <= n,
    ensures
        rank_prefix_sum(n, i, 3) == spec_tetrahedral_of(n) - spec_tetrahedral_of(n - i),
    decreases i,
{
    if i > 0 {
        lemma_prefix_sum_three(n, i - 1);
        lemma_binomial_triangular((n - i + 1) as nat);
    }
}

/// C(n, k) == 0 whenever k exceeds n.
pub proof fn lemma_binomial_beyond(n: nat, k: nat)
    requires
        k > n,
    ensures
        spec_binomial(n, k) == 0,
    decreases n,
{
    if n > 0 {
        lemma_binomial_beyond((n - 1) as nat, (k - 1) as nat);
        lemma_binomial_beyond((n - 1) as nat, k);
    }
}

/// C(n, n) == 1.
pub proof fn lemma_binomial_diagonal(n: nat)
    ensures
        spec_binomial(n, n) == 1,
    decreases n,
{
    if n > 0 {
        lemma_binomial_diagonal((n - 1) as nat);
        lemma_binomial_beyond((n - 1) as nat, n);
    }
}

/// Binomial coefficient by Pascal's triangle, row by row. The bound on `n`
/// keeps every entry below 2^62, so the additions cannot overflow.
pub fn binomial(n: u64, k: u64) -> (r: u64)
    requires
        n <= 62,
    ensures
        r as nat == spec_binomial(n as nat, k as nat),
{
    if k > n {
        proof {
            lemma_binomial_beyond(n as nat, k as nat);
        }
        return 0;
    }
    let mut row: Vec<u64> = Vec::new();
    row.push(1u64);
    let mut i: u64 = 0;
    while i < n
        invariant
            i <= n <= 62,
            row@.len() == i + 1,
            forall|j: int| 0 <= j <= i ==> #[trigger] row@[j] as nat == spec_binomial(
                i as nat,
                j as nat,
            ),
        decreases n - i,
    {
        row.push(1u64);
        proof {
            lemma_binomial_diagonal((i + 1) as nat);
            lemma_binomial_diagonal(i as nat);
        }
        let mut j: usize = i as usize;
        while j >= 1
            invariant
                j <= i,
                i < n <= 62,
                row@.len() == i + 2,
                forall|p: int| 0 <= p <= j ==> #[trigger] row@[p] as nat == spec_binomial(
                    i as nat,
                    p as nat,
                ),
                forall|p: int| j < p <= i + 1 ==> #[trigger] row@[p] as nat == spec_binomial(
                    (i + 1) as nat,
                    p as nat,
                ),
            decreases j,
        {
            proof {
                lemma_binomial_le_pow2((i + 1) as nat, j as nat);
                vstd::arithmetic::power2::lemma2_to64();
                vstd::arithmetic::power2::lemma2_to64_rest();
                if i + 1 < 63 {
                    vstd::arithmetic::power2::lemma_pow2_strictly_increases((i + 1) as nat, 63);
                }
                assert(spec_binomial((i + 1) as nat, j as nat) == spec_binomial(
                    i as nat,
                    (j - 1) as nat,
                ) + spec_binomial(i as nat, j as nat));
            }
            let v: u64 = row[j] + row[j - 1];
            row.set(j, v);
            j = j - 1;
        }
        i = i + 1;
    }
    row[k as usize]
}

/// The full prefix sum over all n starting entries counts every order-k
/// combination: it equals C(n + k - 1, k).
pub proof fn lemma_prefix_sum_complete(n: int, i: int, k: int)
    requires
        0 <= i <= n,
        k >= 1,
    ensures
        rank_prefix_sum(n, i, k) == spec_binomial((n + k - 1) as nat, k as nat) - spec_binomial(
            (n - i + k - 1) as nat,
            k as nat,
        ),
    decreases i,
{
    if i > 0 {
        lemma_prefix_sum_complete(n, i - 1, k);
        assert(spec_binomial((n - i + k) as nat, k as nat) == spec_binomial(
            (n - i + k - 1) as nat,
            (k - 1) as nat,
        ) + spec_binomial((n - i + k - 1) as nat, k as nat));
    }
}

/// The shifted tail of a valid combination is again a valid combination, in
/// the id range shrunk by the first entry.
pub proof fn lemma_shifted_valid(n: int, c: Seq<int>)
    requires
        valid_combination(n, c),
        c.len() >= 2,
    ensures
        valid_combination(n - c[0], c.drop_first().map_values(|x: int| x - c[0])),
{
    let tail = c.drop_first().map_values(|x: int| x - c[0]);
    assert forall|t: int| 0 <= t < tail.len() implies 0 <= #[trigger] tail[t] < n - c[0] by {
        assert(c.drop_first()[t] == c[t + 1]);
        assert(c[0] <= c[t + 1]);
    }
    assert forall|t: int, u: int| 0 <= t <= u < tail.len() implies #[trigger] tail[t]
        <= #[trigger] tail[u] by {
        assert(c.drop_first()[t] == c[t + 1]);
        assert(c.drop_first()[u] == c[u + 1]);
        assert(c[t + 1] <= c[u + 1]);
    }
}

/// The binomial prefix sum grows with its upper index.
pub proof fn lemma_prefix_sum_monotone(n: int, i1: int, i2: int, k: int)
    requires
        0 <= i1 <= i2,
    ensures
        rank_prefix_sum(n, i1, k) <= rank_prefix_sum(n, i2, k),
    decreases i2,
{
    if i2 > i1 {
        lemma_prefix_sum_monotone(n, i1, i2 - 1, k);
    }
}

/// The rank of a valid combination lies in 0 .. C(n + k - 1, k): ranks fill
/// no more than the count of all order-k combinations with replacement.
pub proof fn lemma_rank_in_range(n: int, c: Seq<int>)
    requires
        valid_combination(n, c),
        c.len() >= 1,
    ensures
        0 <= spec_rank(n, c) < spec_binomial((n + c.len() - 1) as nat, c.len() as nat),
    decreases c.len(),
{
    let k = c.len() as int;
    assert(0 <= c[0] < n);
    if c.len() == 1 {
        lemma_binomial_one(n as nat);
    } else {
        let tail = c.drop_first().map_values(|x: int| x - c[0]);
        lemma_shifted_valid(n, c);
        lemma_rank_in_range(n - c[0], tail);
        // spec_rank(n, c) < rank_prefix_sum(n, c[0] + 1, k)
        assert(rank_prefix_sum(n, c[0] + 1, k) == rank_prefix_sum(n, c[0], k) + spec_binomial(
            (n - c[0] + k - 2) as nat,
            (k - 1) as nat,
        ));
        lemma_prefix_sum_monotone(n, 0, c[0], k);
        lemma_prefix_sum_monotone(n, c[0] + 1, n, k);
        lemma_prefix_sum_complete(n, n, k);
        lemma_binomial_diagonal((k - 1) as nat);
        assert(spec_binomial((k - 1) as nat, k as nat) == 0) by {
            lemma_binomial_beyond((k - 1) as nat, k as nat);
        }
    }
}

/// Finds where a rank falls among the prefix sums: the unique first entry
/// `c0` whose block of combinations contains the rank.
proof fn lemma_find_start(n: int, k: int, r: int, i: int) -> (c0: int)
    requires
        1 <= n,
        2 <= k,
        0 <= i < n,
        rank_prefix_sum(n, i, k) <= r,
        r < spec_binomial((n + k - 1) as nat, k as nat),
    ensures
        0 <= c0 < n,
        rank_prefix_sum(n, c0, k) <= r,
        r < rank_prefix_sum(n, c0 + 1, k),
    decreases n - i,
{
    if r < rank_prefix_sum(n, i + 1, k) {
        i
    } else {
        lemma_prefix_sum_complete(n, n, k);
        lemma_binomial_beyond((k - 1) as nat, k as nat);
        if i + 1 >= n {
            assert(rank_prefix_sum(n, n, k) == spec_binomial((n + k - 1) as nat, k as nat));
            assert(false);
        }
        lemma_find_start(n, k, r, i + 1)
    }
}

/// Every index below the combination count is the rank of some valid
/// combination: with the range and injectivity lemmas, the ranking is a
/// bijection between the sorted order-k combinations from 0 .. n and
/// 0 .. C(n + k - 1, k).
pub proof fn lemma_rank_surjective(n: int, k: int, r: int) -> (c: Seq<int>)
    requires
        1 <= n,
        1 <= k,
        0 <= r < spec_binomial((n + k - 1) as nat, k as nat),
    ensures
        valid_combination(n, c),
        c.len() == k,
        spec_rank(n, c) == r,
    decreases k,
{
    if k == 1 {
        lemma_binomial_one(n as nat);
        seq![r]
    } else {
        let c0 = lemma_find_start(n, k, r, 0);
        let r2 = r - rank_prefix_sum(n, c0, k);
        assert(rank_prefix_sum(n, c0 + 1, k) == rank_prefix_sum(n, c0, k) + spec_binomial(
            (n - c0 + k - 2) as nat,
            (k - 1) as nat,
        ));
        let tail = lemma_rank_surjective(n - c0, k - 1, r2);
        let c = seq![c0] + tail.map_values(|x: int| x + c0);
        assert(c.len() == k);
        assert(c[0] == c0);
        assert forall|t: int| 0 <= t < c.len() implies 0 <= #[trigger] c[t] < n by {
            if t > 0 {
                assert(c[t] == tail[t - 1] + c0);
                assert(0 <= tail[t - 1] < n - c0);
            }
        }
        assert forall|t: int, u: int| 0 <= t <= u < c.len() implies #[trigger] c[t]
            <= #[trigger] c[u] by {
            if t == 0 {
                if u > 0 {
                    assert(c[u] == tail[u - 1] + c0);
                    assert(tail[u - 1] >= 0);
                }
            } else {
                assert(c[t] == tail[t - 1] + c0 && c[u] == tail[u - 1] + c0);
                assert(tail[t - 1] <= tail[u - 1]);
            }
        }
        assert(c.drop_first().map_values(|x: int| x - c[0]) =~= tail);
        assert(spec_rank(n, c) == rank_prefix_sum(n, c0, k) + spec_rank(n - c0, tail));
        c
    }
}

/// Distinct valid combinations of one order never collide: the ranking is
/// injective.
pub proof fn lemma_rank_injective(n: int, c1: Seq<int>, c2: Seq<int>)
    requires
        valid_combination(n, c1),
        valid_combination(n, c2),
        c1.len() == c2.len(),
        c1.len() >= 1,
        c1 != c2,
    ensures
        spec_rank(n, c1) != spec_rank(n, c2),
    decreases c1.len(),
{
    let k = c1.len() as int;
    if c1.len() == 1 {
        assert(c1[0] != c2[0]) by {
            if c1[0] == c2[0] {
                assert(c1 =~= c2);
            }
        }
    } else if c1[0] != c2[0] {
        let (lo, hi) = if c1[0] < c2[0] {
            (c1, c2)
        } else {
            (c2, c1)
        };
        let lo_tail = lo.drop_first().map_values(|x: int| x - lo[0]);
        lemma_shifted_valid(n, lo);
        lemma_rank_in_range(n - lo[0], lo_tail);
        assert(rank_prefix_sum(n, lo[0] + 1, k) == rank_prefix_sum(n, lo[0], k) + spec_binomial(
            (n - lo[0] + k - 2) as nat,
            (k - 1) as nat,
        ));
        lemma_prefix_sum_monotone(n, lo[0] + 1, hi[0], k);
        let hi_tail = hi.drop_first().map_values(|x: int| x - hi[0]);
        lemma_shifted_valid(n, hi);
        lemma_rank_in_range(n - hi[0], hi_tail);
        assert(spec_rank(n, lo) < rank_prefix_sum(n, lo[0] + 1, k));
        assert(spec_rank(n, hi) >= rank_prefix_sum(n, hi[0], k));
    } else {
        let t1 = c1.drop_first().map_values(|x: int| x - c1[0]);
        let t2 = c2.drop_first().map_values(|x: int| x - c2[0]);
        lemma_shifted_valid(n, c1);
        lemma_shifted_valid(n, c2);
        assert(t1 != t2) by {
            if t1 == t2 {
                assert forall|t: int| 0 <= t < c1.len() implies c1[t] == c2[t] by {
                    if t > 0 {
                        assert(t1[t - 1] == t2[t - 1]);
                        assert(c1.drop_first()[t - 1] == c1[t]);
                        assert(c2.drop_first()[t - 1] == c2[t]);
                    }
                }
                assert(c1 =~= c2);
            }
        }
        lemma_rank_injective(n - c1[0], t1, t2);
    }
}

/// A node tuple as mathematical values.
pub open spec fn combo_view(s: Seq<usize>) -> Seq<int> {
    s.map_values(|x: usize| x as int)
}

/// The machine-size bounds under which the rank of an order-k combination
/// from 0 .. n can be computed without overflow.
pub open spec fn rank_fits(n: int, k: int) -> bool {
    if k <= 1 {
        true
    } else if k == 2 {
        (2 * n + 1) * n <= usize::MAX
    } else if k == 3 {
        n * (n + 1) * (n + 2) <= usize::MAX && (2 * n + 1) * n <= usize::MAX
    } else {
        n + k - 1 <= 62 && spec_binomial((n + k - 1) as nat, k as nat) <= usize::MAX
    }
}

/// A combination whose entries all sit at the top id keeps the last rank,
/// C(n + k - 1, k) - 1.
pub proof fn lemma_rank_saturated(n: int, c: Seq<int>)
    requires
        valid_combination(n, c),
        c.len() >= 1,
        forall|t: int| 0 <= t < c.len() ==> #[trigger] c[t] == n - 1,
    ensures
        spec_rank(n, c) == spec_binomial((n + c.len() - 1) as nat, c.len() as nat) - 1,
    decreases c.len(),
{
    let k = c.len() as int;
    if c.len() == 1 {
        lemma_binomial_one(n as nat);
    } else {
        let tail = c.drop_first().map_values(|x: int| x - c[0]);
        lemma_shifted_valid(n, c);
        assert forall|t: int| 0 <= t < tail.len() implies #[trigger] tail[t] == 1 - 1 by {
            assert(c.drop_first()[t] == c[t + 1]);
        }
        lemma_rank_saturated(1, tail);
        lemma_prefix_sum_complete(n, n - 1, k);
        lemma_binomial_diagonal(k as nat);
        lemma_binomial_diagonal((k - 1) as nat);
    }
}

/// One summand of the prefix sum never exceeds the total combination count.
pub proof fn lemma_prefix_summand_bounded(n: int, c0: int, k: int)
    requires
        0 <= c0 < n,
        k >= 1,
    ensures
        spec_binomial((n - c0 + k - 2) as nat, (k - 1) as nat) <= spec_binomial(
            (n + k - 1) as nat,
            k as nat,
        ),
{
    assert(rank_prefix_sum(n, c0 + 1, k) == rank_prefix_sum(n, c0, k) + spec_binomial(
        (n - c0 + k - 2) as nat,
        (k - 1) as nat,
    ));
    lemma_prefix_sum_monotone(n, 0, c0, k);
    lemma_prefix_sum_monotone(n, c0 + 1, n, k);
    lemma_prefix_sum_complete(n, n, k);
    lemma_binomial_beyond((k - 1) as nat, k as nat);
}

/// Twice the difference of triangular numbers in the order-2 closed form.
proof fn lemma_closed_form_two(n: int, i: int)
    requires
        0 <= i <= n,
    ensures
        2 * (spec_triangular(n) - spec_triangular(n - i)) == (2 * n - i + 1) * i,
{
    lemma_triangular_doubled(n);
    lemma_triangular_doubled(n - i);
    assert(n * (n + 1) - (n - i) * ((n - i) + 1) == (2 * n - i + 1) * i) by (nonlinear_arith);
}

/// Calculates the tetrahedral number m (m + 1) (m + 2) / 6.
pub fn tetrahedral(m: usize) -> (r: usize)
    requires
        m * (m + 1) * (m + 2) <= usize::MAX,
    ensures
        r as int == spec_tetrahedral_of(m as int),
{
    proof {
        lemma_tetrahedral_six(m as int);
        if m >= 1 {
            assert(m + 1 <= m * (m + 1) * (m + 2) && m * (m + 1) <= m * (m + 1) * (m + 2) && m * (m
                + 1) >= 0) by (nonlinear_arith)
                requires
                    m >= 1,
            ;
        }
    }
    m * (m + 1) * (m + 2) / 6
}

/// Calculates the number of column blocks of the nonlinear stiffness matrix:
/// the count C(n_nodes + order - 1, order) of order-way symmetric node
/// tuples, through the closed forms for low orders.
pub fn number_of_columns(n_nodes: usize, order: usize) -> (r: usize)
    requires
        order >= 1,
        n_nodes >= 1,
        order == 2 ==> n_nodes * (n_nodes + 1) <= usize::MAX,
        order == 3 ==> n_nodes * (n_nodes + 1) * (n_nodes + 2) <= usize::MAX,
        order >= 4 ==> n_nodes + order - 1 <= 62 && spec_binomial(
            (n_nodes + order - 1) as nat,
            order as nat,
        ) <= usize::MAX,
    ensures
        r as nat == spec_binomial((n_nodes + order - 1) as nat, order as nat),
{
    match order {
        1 => {
            proof {
                lemma_binomial_one(n_nodes as nat);
            }
            n_nodes
        },
        2 => {
            proof {
                lemma_binomial_triangular(n_nodes as nat);
                lemma_triangular_doubled(n_nodes as int);
                assert(n_nodes + 1 <= n_nodes * (n_nodes + 1)) by (nonlinear_arith)
                    requires
                        n_nodes >= 1,
                ;
            }
            n_nodes * (n_nodes + 1) / 2
        },
        3 => {
            proof {
                lemma_binomial_tetrahedral(n_nodes as nat);
            }
            tetrahedral(n_nodes)
        },
        _ => {
            proof {
                lemma_binomial_le_pow2((n_nodes + order - 1) as nat, order as nat);
            }
            binomial((n_nodes + order - 1) as u64, order as u64) as usize
        },
    }
}

/// Calculates the per-element block count: each of the element's nodes rows
/// against every order-way node combination.
pub fn element_block_size(n_nodes: usize, order: usize) -> (r: usize)
    requires
        order >= 1,
        n_nodes >= 1,
        order == 2 ==> n_nodes * (n_nodes + 1) <= usize::MAX,
        order == 3 ==> n_nodes * (n_nodes + 1) * (n_nodes + 2) <= usize::MAX,
        order >= 4 ==> n_nodes + order - 1 <= 62,
        n_nodes * spec_binomial((n_nodes + order - 1) as nat, order as nat) <= usize::MAX,
    ensures
        r as int == n_nodes * spec_binomial((n_nodes + order - 1) as nat, order as nat),
{
    proof {
        lemma_binomial_pos((n_nodes + order - 1) as nat, order as nat);
        assert(spec_binomial((n_nodes + order - 1) as nat, order as nat) <= n_nodes
            * spec_binomial((n_nodes + order - 1) as nat, order as nat)) by (nonlinear_arith)
            requires
                n_nodes >= 1,
                spec_binomial((n_nodes + order - 1) as nat, order as nat) >= 0,
        ;
    }
    n_nodes * number_of_columns(n_nodes, order)
}

/// C(n, k) is positive whenever k <= n.
pub proof fn lemma_binomial_pos(n: nat, k: nat)
    requires
        k <= n,
    ensures
        spec_binomial(n, k) >= 1,
    decreases n,
{
    if k > 0 {
        lemma_binomial_pos((n - 1) as nat, (k - 1) as nat);
    }
}

/// Locates the column block index of a combination of column nodes: its rank
/// in the lexicographic order of all sorted node tuples of that length, by
/// the closed forms for orders one to three and the recursive
/// binomial-prefix scheme beyond.
pub fn locate_block_column(num_nodes: usize, nodes: &Vec<usize>) -> (r: usize)
    requires
        nodes@.len() >= 1,
        valid_combination(num_nodes as int, combo_view(nodes@)),
        rank_fits(num_nodes as int, nodes@.len() as int),
    ensures
        r as int == spec_rank(num_nodes as int, combo_view(nodes@)),
    decreases nodes@.len(),
{
    let order = nodes.len();
    let ghost cv = combo_view(nodes@);
    let ghost n = num_nodes as int;
    if order == 1 {
        nodes[0]
    } else if order == 2 {
        let i = nodes[0];
        let j = nodes[1];
        proof {
            assert(cv[0] == i && cv[1] == j);
            assert(cv.drop_first().map_values(|x: int| x - cv[0]) =~= seq![j - i as int]);
            assert(spec_rank(n - i, seq![j - i as int]) == j - i);
            lemma_prefix_sum_two(n, i as int);
            lemma_closed_form_two(n, i as int);
            lemma_rank_in_range(n, cv);
            lemma_binomial_triangular((num_nodes - 1) as nat);
            lemma_triangular_doubled(n - 1);
            assert(2 * n <= (2 * n + 1) * n && n * (n + 1) <= (2 * n + 1) * n && (2 * n - i + 1)
                * i <= (2 * n + 1) * n && (2 * n - i + 1) * i >= 0 && (n - 1) * ((n - 1) + 1) <= (2
                * n + 1) * n) by (nonlinear_arith)
                requires
                    0 <= i as int <= n,
                    n >= 1,
            ;
            assert(spec_rank(n, cv) < spec_binomial((n + 1) as nat, 2));
            assert(spec_binomial((n + 1) as nat, 2) == spec_triangular(n - 1) + spec_binomial(
                n as nat,
                1,
            )) by {
                lemma_binomial_triangular((n - 1) as nat);
                assert(spec_binomial((n + 1) as nat, 2) == spec_binomial(n as nat, 1)
                    + spec_binomial(n as nat, 2));
                lemma_binomial_triangular((n - 1) as nat);
            }
            lemma_binomial_one(n as nat);
        }
        (2 * num_nodes - i + 1) * i / 2 + (j - i)
    } else if order == 3 {
        let i = nodes[0];
        let j = nodes[1];
        let k = nodes[2];
        proof {
            assert(cv[0] == i && cv[1] == j && cv[2] == k);
            let tail = cv.drop_first().map_values(|x: int| x - cv[0]);
            assert(tail =~= seq![j - i as int, k - i as int]);
            lemma_shifted_valid(n, cv);
            assert(tail.drop_first().map_values(|x: int| x - tail[0]) =~= seq![k - j as int]);
            assert(spec_rank(n - i - (j - i), seq![k - j as int]) == k - j);
            lemma_prefix_sum_three(n, i as int);
            lemma_prefix_sum_two(n - i, (j - i) as int);
            lemma_closed_form_two(n - i, (j - i) as int);
            lemma_rank_in_range(n, cv);
            lemma_binomial_tetrahedral(num_nodes as nat);
            lemma_tetrahedral_six(n);
            lemma_tetrahedral_six(n - i);
            assert((2 * (n - i) - (j - i) + 1) * (j - i) <= (2 * n + 1) * n && (2 * (n - i) - (j
                - i) + 1) * (j - i) >= 0) by (nonlinear_arith)
                requires
                    0 <= i as int <= n,
                    i as int <= j as int <= n,
            ;
            assert(spec_tetrahedral_of(n - i) >= 0 && spec_tetrahedral_of(n - i)
                <= spec_tetrahedral_of(n)) by {
                lemma_tetrahedral_monotone(0, n - i);
                lemma_tetrahedral_monotone(n - i, n);
            }
            // The shrunken tetrahedral product and the closed-form products
            // stay within the caller's bounds.
            assert((n - i) * ((n - i) + 1) * ((n - i) + 2) <= n * (n + 1) * (n + 2) && (n - i) * ((n
                - i) + 1) * ((n - i) + 2) >= 0 && 2 * n <= (2 * n + 1) * n && 2 * (n - i) - (j - i)
                + 1 >= 1 && (2 * (n - i) - (j - i) + 1) * (j - i) <= (2 * n + 1) * n && (2 * (n - i)
                - (j - i) + 1) * (j - i) >= 0) by (nonlinear_arith)
                requires
                    0 <= i as int,
                    i as int <= j as int,
                    (j as int) < n,
                    n >= 1,
            ;
            assert(spec_rank(n, cv) < spec_binomial((n + 2) as nat, 3));
            assert(6 * spec_tetrahedral_of(n) <= 6 * (n * (n + 1) * (n + 2) / 6)) by {
                lemma_tetrahedral_six(n);
            }
        }
        let before_i = tetrahedral(num_nodes) - tetrahedral(num_nodes - i);
        proof {
            let a: int = (j - i) as int;
            let b: int = 2 * (n - i) - (j - i) + 1;
            assert(a * b == b * a && a * b >= 0 && a * b <= (2 * n + 1) * n) by (nonlinear_arith)
                requires
                    0 <= a,
                    b >= 1,
                    b * a >= 0,
                    b * a <= (2 * n + 1) * n,
            ;
        }
        let before_j = (j - i) * (2 * (num_nodes - i) - (j - i) + 1) / 2;
        let position_ijk = k - j;
        proof {
            assert(before_i as int == spec_tetrahedral_of(n) - spec_tetrahedral_of(n - i));
            assert(before_j as int == spec_triangular(n - i) - spec_triangular(n - i - (j - i)));
            let tail = cv.drop_first().map_values(|x: int| x - cv[0]);
            assert(tail =~= seq![j - i as int, k - i as int]);
            assert(spec_rank(n, cv) == rank_prefix_sum(n, i as int, 3) + spec_rank(n - i, tail));
            assert(spec_rank(n - i, tail) == rank_prefix_sum(n - i, (j - i) as int, 2) + spec_rank(
                n - i - (j - i),
                tail.drop_first().map_values(|x: int| x - tail[0]),
            ));
            assert(tail.drop_first().map_values(|x: int| x - tail[0]) =~= seq![k - j as int]);
            assert(spec_rank(n - i - (j - i), seq![k - j as int]) == k - j);
            assert(before_i + before_j + position_ijk == spec_rank(n, cv));
            assert(spec_rank(n, cv) < spec_tetrahedral_of(n));
        }
        before_i + before_j + position_ijk
    } else {
        let first = nodes[0];
        proof {
            lemma_binomial_le_pow2((n + order - 1) as nat, order as nat);
        }
        if first == num_nodes - 1 {
            proof {
                assert forall|t: int| 0 <= t < cv.len() implies #[trigger] cv[t] == n - 1 by {
                    assert(cv[0] <= cv[t] < n);
                }
                lemma_rank_saturated(n, cv);
                lemma_binomial_pos((n + order - 1) as nat, order as nat);
            }
            binomial((num_nodes + order - 1) as u64, order as u64) as usize - 1
        } else {
            let ghost k = order as int;
            let mut sum: usize = 0;
            let mut idx: usize = 0;
            while idx < first
                invariant
                    idx <= first,
                    first < num_nodes,
                    first == cv[0],
                    cv == combo_view(nodes@),
                    nodes@.len() == order,
                    4 <= order,
                    n == num_nodes as int,
                    k == order as int,
                    n + k - 1 <= 62,
                    spec_binomial((n + k - 1) as nat, k as nat) <= usize::MAX,
                    valid_combination(n, cv),
                    sum as int == rank_prefix_sum(n, idx as int, k),
                decreases first - idx,
            {
                proof {
                    lemma_prefix_summand_bounded(n, idx as int, k);
                    lemma_prefix_sum_monotone(n, idx as int + 1, n, k);
                    lemma_prefix_sum_complete(n, n, k);
                    lemma_binomial_beyond((k - 1) as nat, k as nat);
                    lemma_prefix_sum_monotone(n, 0, idx as int, k);
                }
                sum = sum + binomial((num_nodes - idx + order - 2) as u64, (order - 1) as u64)
                    as usize;
                idx = idx + 1;
            }
            let mut remaining: Vec<usize> = Vec::new();
            let mut t: usize = 1;
            while t < order
                invariant
                    1 <= t <= order,
                    nodes@.len() == order,
                    cv == combo_view(nodes@),
                    valid_combination(n, cv),
                    first == cv[0],
                    n == num_nodes as int,
                    remaining@.len() == t - 1,
                    forall|u: int|
                        0 <= u < t - 1 ==> #[trigger] remaining@[u] as int == cv[u + 1] - cv[0],
                decreases order - t,
            {
                proof {
                    assert(cv[0] <= cv[t as int]);
                }
                remaining.push(nodes[t] - first);
                t = t + 1;
            }
            proof {
                lemma_shifted_valid(n, cv);
                assert(combo_view(remaining@) =~= cv.drop_first().map_values(
                    |x: int| x - cv[0],
                ));
                // Shrunken bounds for the recursive call.
                lemma_fits_shrinks(n, first as int, k);
                lemma_rank_in_range(n, cv);
                lemma_prefix_sum_monotone(n, 0, first as int, k);
            }
            let tail_rank = locate_block_column(num_nodes - first, &remaining);
            sum + tail_rank
        }
    }
}

/// Tetrahedral numbers are monotone.
proof fn lemma_tetrahedral_monotone(a: int, b: int)
    requires
        a <= b,
    ensures
        spec_tetrahedral_of(a) <= spec_tetrahedral_of(b),
    decreases b - a,
{
    if a < b {
        lemma_tetrahedral_monotone(a, b - 1);
        lemma_triangular_nonneg(b);
    }
}

/// Triangular numbers are never negative.
proof fn lemma_triangular_nonneg(m: int)
    ensures
        spec_triangular(m) >= 0,
    decreases m,
{
    if m > 0 {
        lemma_triangular_nonneg(m - 1);
    }
}

/// The overflow bounds survive the peel-one-entry recursion step.
proof fn lemma_fits_shrinks(n: int, c0: int, k: int)
    requires
        k >= 4,
        0 <= c0 < n,
        n + k - 1 <= 62,
        spec_binomial((n + k - 1) as nat, k as nat) <= usize::MAX,
    ensures
        rank_fits(n - c0, k - 1),
{
    let n2 = n - c0;
    if k - 1 == 2 {
        assert((2 * n2 + 1) * n2 <= usize::MAX) by (nonlinear_arith)
            requires
                0 < n2 <= 62,
        ;
    } else if k - 1 == 3 {
        assert(n2 * (n2 + 1) * (n2 + 2) <= usize::MAX && (2 * n2 + 1) * n2 <= usize::MAX)
            by (nonlinear_arith)
            requires
                0 < n2 <= 62,
        ;
    } else {
        lemma_prefix_summand_bounded(n, c0, k);
        lemma_prefix_sum_monotone(n, 0, c0, k);
        assert(spec_binomial((n - c0 + k - 2) as nat, (k - 1) as nat) <= spec_binomial(
            (n + k - 1) as nat,
            k as nat,
        ));
    }
}

} // verus!
