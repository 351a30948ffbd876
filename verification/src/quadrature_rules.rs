//! Gauss quadrature rules on the unit interval, square and cube, held in
//! exact arithmetic: every point coordinate is a surd (a + b sqrt(r)) / d and
//! every weight a rational, so the tensor-product construction and the
//! interval transformation carry exact contracts. Turning the exact values
//! into floating point is the caller's one step.

use vstd::prelude::*;

verus! {

/// Errors of quadrature-rule construction.
#[derive(Debug)]
pub enum QuadratureError {
    UnsupportedRule { dim: usize, order: usize },
    DimensionMismatch { expected: usize, actual: usize },
}

/// One point coordinate in exact form: (num + surd_num * sqrt(radicand)) /
/// den.
#[derive(Debug, Clone, Copy, PartialEq, Eq, Structural)]
pub struct SurdCoordinate {
    pub num: i64,
    pub surd_num: i64,
    pub den: i64,
    pub radicand: i64,
}

/// An exact rational weight num / den.
#[derive(Debug, Clone, Copy, PartialEq, Eq, Structural)]
pub struct RationalWeight {
    pub num: i64,
    pub den: i64,
}

/// A quadrature rule: per sample point, one surd coordinate per axis, and
/// one rational weight.
#[derive(Debug)]
pub struct QuadratureRule {
    pub points: Vec<Vec<SurdCoordinate>>,
    pub weights: Vec<RationalWeight>,
}

/// As many weights as points, every point of the stated dimension, and
/// positive weight denominators.
pub open spec fn rule_wf(r: QuadratureRule, dim: int) -> bool {
    &&& r.points@.len() == r.weights@.len()
    &&& forall|i: int| 0 <= i < r.points@.len() ==> (#[trigger] r.points@[i])@.len() == dim
    &&& forall|i: int| 0 <= i < r.weights@.len() ==> 0 < (#[trigger] r.weights@[i]).den
}

/// Weight numerators and denominators within a magnitude bound, so that
/// products of a few of them stay exact in 64 bits.
pub open spec fn weights_within(r: QuadratureRule, bound: int) -> bool {
    forall|i: int|
        0 <= i < r.weights@.len() ==> (#[trigger] r.weights@[i]).den <= bound && -bound
            <= r.weights@[i].num <= bound
}

impl QuadratureRule {
    /// The number of sample points.
    pub fn len(&self) -> (r: usize)
        ensures
            r == self.points@.len(),
    {
        self.points.len()
    }

    /// The (point, weight) pairs in order, for iteration.
    pub fn pairs(&self) -> (r: Vec<(Vec<SurdCoordinate>, RationalWeight)>)
        requires
            self.points@.len() == self.weights@.len(),
        ensures
            r@.len() == self.points@.len(),
            forall|i: int|
                0 <= i < r@.len() ==> (#[trigger] r@[i]).0@ == self.points@[i]@ && r@[i].1
                    == self.weights@[i],
    {
        let mut r: Vec<(Vec<SurdCoordinate>, RationalWeight)> = Vec::new();
        let mut i: usize = 0;
        while i < self.points.len()
            invariant
                i <= self.points@.len(),
                self.points@.len() == self.weights@.len(),
                r@.len() == i,
                forall|t: int|
                    0 <= t < i ==> (#[trigger] r@[t]).0@ == self.points@[t]@ && r@[t].1
                        == self.weights@[t],
            decreases self.points@.len() - i,
        {
            let mut point: Vec<SurdCoordinate> = Vec::new();
            let src = &self.points[i];
            let mut k: usize = 0;
            while k < src.len()
                invariant
                    k <= src@.len(),
                    src@ == self.points@[i as int]@,
                    i < self.points@.len(),
                    point@.len() == k,
                    forall|u: int| 0 <= u < k ==> #[trigger] point@[u] == src@[u],
                decreases src@.len() - k,
            {
                point.push(src[k]);
                k = k + 1;
            }
            proof {
                assert(point@ =~= self.points@[i as int]@);
            }
            r.push((point, self.weights[i]));
            i = i + 1;
        }
        r
    }
}

/// Creates the two-point Gauss rule on [0,1]: points (3 -+ sqrt(3)) / 6,
/// weights 1/2 each. Exact to polynomial degree one (and in fact three).
pub fn create_linear_1d_rule() -> (r: QuadratureRule)
    ensures
        rule_wf(r, 1),
        r.points@.len() == 2,
        r.points@[0]@ == seq![
            SurdCoordinate { num: 3, surd_num: -1i64, den: 6, radicand: 3 },
        ],
        r.points@[1]@ == seq![SurdCoordinate { num: 3, surd_num: 1, den: 6, radicand: 3 }],
        r.weights@[0] == (RationalWeight { num: 1, den: 2 }),
        r.weights@[1] == (RationalWeight { num: 1, den: 2 }),
{
    let mut points: Vec<Vec<SurdCoordinate>> = Vec::new();
    let mut low: Vec<SurdCoordinate> = Vec::new();
    low.push(SurdCoordinate { num: 3, surd_num: -1i64, den: 6, radicand: 3 });
    let mut high: Vec<SurdCoordinate> = Vec::new();
    high.push(SurdCoordinate { num: 3, surd_num: 1, den: 6, radicand: 3 });
    points.push(low);
    points.push(high);
    let mut weights: Vec<RationalWeight> = Vec::new();
    weights.push(RationalWeight { num: 1, den: 2 });
    weights.push(RationalWeight { num: 1, den: 2 });
    proof {
        assert(points@[0]@ =~= seq![
            SurdCoordinate { num: 3, surd_num: -1i64, den: 6, radicand: 3 },
        ]);
        assert(points@[1]@ =~= seq![SurdCoordinate { num: 3, surd_num: 1, den: 6, radicand: 3 }]);
    }
    QuadratureRule { points, weights }
}

/// Creates the three-point Gauss rule on [0,1]: points (5 - sqrt(15)) / 10,
/// 1/2 and (5 + sqrt(15)) / 10, weights 5/18, 8/18 and 5/18. Exact to
/// polynomial degree three (and in fact five).
pub fn create_quadratic_1d_rule() -> (r: QuadratureRule)
    ensures
        rule_wf(r, 1),
        r.points@.len() == 3,
        r.points@[0]@ == seq![
            SurdCoordinate { num: 5, surd_num: -1i64, den: 10, radicand: 15 },
        ],
        r.points@[1]@ == seq![SurdCoordinate { num: 1, surd_num: 0, den: 2, radicand: 15 }],
        r.points@[2]@ == seq![SurdCoordinate { num: 5, surd_num: 1, den: 10, radicand: 15 }],
        r.weights@[0] == (RationalWeight { num: 5, den: 18 }),
        r.weights@[1] == (RationalWeight { num: 8, den: 18 }),
        r.weights@[2] == (RationalWeight { num: 5, den: 18 }),
{
    let mut points: Vec<Vec<SurdCoordinate>> = Vec::new();
    let mut low: Vec<SurdCoordinate> = Vec::new();
    low.push(SurdCoordinate { num: 5, surd_num: -1i64, den: 10, radicand: 15 });
    let mut mid: Vec<SurdCoordinate> = Vec::new();
    mid.push(SurdCoordinate { num: 1, surd_num: 0, den: 2, radicand: 15 });
    let mut high: Vec<SurdCoordinate> = Vec::new();
    high.push(SurdCoordinate { num: 5, surd_num: 1, den: 10, radicand: 15 });
    points.push(low);
    points.push(mid);
    points.push(high);
    let mut weights: Vec<RationalWeight> = Vec::new();
    weights.push(RationalWeight { num: 5, den: 18 });
    weights.push(RationalWeight { num: 8, den: 18 });
    weights.push(RationalWeight { num: 5, den: 18 });
    proof {
        assert(points@[0]@ =~= seq![
            SurdCoordinate { num: 5, surd_num: -1i64, den: 10, radicand: 15 },
        ]);
        assert(points@[1]@ =~= seq![SurdCoordinate { num: 1, surd_num: 0, den: 2, radicand: 15 }]);
        assert(points@[2]@ =~= seq![
            SurdCoordinate { num: 5, surd_num: 1, den: 10, radicand: 15 },
        ]);
    }
    QuadratureRule { points, weights }
}

/// Entry t of the 2D grid pairs the 1D coordinates at t / n and t % n and
/// multiplies their weights, n being the 1D point count.
pub open spec fn grid2_entry_ok(
    points: Seq<Vec<SurdCoordinate>>,
    weights: Seq<RationalWeight>,
    rule_1d: QuadratureRule,
    t: int,
) -> bool {
    let n = rule_1d.points@.len() as int;
    &&& points[t]@ == seq![rule_1d.points@[t / n]@[0], rule_1d.points@[t % n]@[0]]
    &&& weights[t].num == rule_1d.weights@[t / n].num * rule_1d.weights@[t % n].num
    &&& weights[t].den == rule_1d.weights@[t / n].den * rule_1d.weights@[t % n].den
}

/// Builds the tensor-product rule on the unit square from a 1D rule: the
/// point at flat index t = i*n + j pairs the i-th and j-th 1D coordinates,
/// and its weight is the product of their weights. The requested point count
/// must match the square of the 1D count.
pub fn create_2d_from_1d(rule_1d: &QuadratureRule, out_len: usize) -> (r: Result<
    QuadratureRule,
    QuadratureError,
>)
    requires
        rule_wf(*rule_1d, 1),
        weights_within(*rule_1d, 0x10000),
        rule_1d.points@.len() * rule_1d.points@.len() <= usize::MAX,
    ensures
        ({
            let n = rule_1d.points@.len() as int;
            &&& (r is Ok <==> n * n == out_len)
            &&& r matches Err(e) ==> e == (QuadratureError::DimensionMismatch {
                expected: out_len,
                actual: (n * n) as usize,
            })
            &&& r matches Ok(rule) ==> {
                &&& rule_wf(rule, 2)
                &&& weights_within(rule, 0x1_0000_0000)
                &&& rule.points@.len() == n * n
                &&& forall|t: int|
                    0 <= t < n * n ==> #[trigger] grid2_entry_ok(
                        rule.points@,
                        rule.weights@,
                        *rule_1d,
                        t,
                    )
            }
        }),
{
    let n = rule_1d.points.len();
    let actual_dimension: usize = n * n;
    if actual_dimension != out_len {
        return Err(
            QuadratureError::DimensionMismatch { expected: out_len, actual: actual_dimension },
        );
    }
    let mut points: Vec<Vec<SurdCoordinate>> = Vec::new();
    let mut weights: Vec<RationalWeight> = Vec::new();
    let mut i: usize = 0;
    while i < n
        invariant
            i <= n,
            n == rule_1d.points@.len(),
            rule_wf(*rule_1d, 1),
            weights_within(*rule_1d, 0x10000),
            n * n <= usize::MAX,
            points@.len() == i * n,
            weights@.len() == i * n,
            i * n <= n * n,
            forall|t: int|
                0 <= t < points@.len() ==> #[trigger] grid2_entry_ok(
                    points@,
                    weights@,
                    *rule_1d,
                    t,
                ),
            forall|t: int| 0 <= t < weights@.len() ==> 0 < (#[trigger] weights@[t]).den
                <= 0x1_0000_0000 && -0x1_0000_0000 <= weights@[t].num <= 0x1_0000_0000,
            forall|t: int| 0 <= t < points@.len() ==> (#[trigger] points@[t])@.len() == 2,
        decreases n - i,
    {
        proof {
            assert(i * n + n == (i + 1) * n) by (nonlinear_arith);
            assert((i + 1) * n <= n * n) by (nonlinear_arith)
                requires
                    i + 1 <= n,
                    n >= 0,
            ;
        }
        let mut j: usize = 0;
        while j < n
            invariant
                j <= n,
                i < n,
                n == rule_1d.points@.len(),
                rule_wf(*rule_1d, 1),
                weights_within(*rule_1d, 0x10000),
                n * n <= usize::MAX,
                i * n + n <= n * n,
                points@.len() == i * n + j,
                weights@.len() == i * n + j,
                forall|t: int|
                    0 <= t < points@.len() ==> #[trigger] grid2_entry_ok(
                        points@,
                        weights@,
                        *rule_1d,
                        t,
                    ),
                forall|t: int| 0 <= t < weights@.len() ==> 0 < (#[trigger] weights@[t]).den
                    <= 0x1_0000_0000 && -0x1_0000_0000 <= weights@[t].num <= 0x1_0000_0000,
                forall|t: int| 0 <= t < points@.len() ==> (#[trigger] points@[t])@.len() == 2,
            decreases n - j,
        {
            let mut point: Vec<SurdCoordinate> = Vec::new();
            point.push(rule_1d.points[i][0]);
            point.push(rule_1d.points[j][0]);
            let wi = rule_1d.weights[i];
            let wj = rule_1d.weights[j];
            proof {
                assert(-0x1_0000_0000 <= wi.num as int * wj.num as int <= 0x1_0000_0000 && 0
                    < wi.den as int * wj.den as int <= 0x1_0000_0000) by (nonlinear_arith)
                    requires
                        -0x10000 <= wi.num as int <= 0x10000,
                        -0x10000 <= wj.num as int <= 0x10000,
                        0 < wi.den as int <= 0x10000,
                        0 < wj.den as int <= 0x10000,
                ;
            }
            let w = RationalWeight { num: wi.num * wj.num, den: wi.den * wj.den };
            let ghost prior_points = points@;
            let ghost prior_weights = weights@;
            points.push(point);
            weights.push(w);
            proof {
                let ghost new_index = i * n + j as int;
                vstd::arithmetic::div_mod::lemma_fundamental_div_mod_converse(
                    new_index,
                    n as int,
                    i as int,
                    j as int,
                );
                assert(points@[new_index]@ =~= seq![
                    rule_1d.points@[i as int]@[0],
                    rule_1d.points@[j as int]@[0],
                ]);
                assert(grid2_entry_ok(points@, weights@, *rule_1d, new_index));
                assert forall|t: int| 0 <= t < points@.len() implies #[trigger] grid2_entry_ok(
                    points@,
                    weights@,
                    *rule_1d,
                    t,
                ) by {
                    if t < new_index {
                        assert(grid2_entry_ok(prior_points, prior_weights, *rule_1d, t));
                        assert(points@[t] == prior_points[t]);
                        assert(weights@[t] == prior_weights[t]);
                    }
                }
            }
            j = j + 1;
        }
        i = i + 1;
    }
    Ok(QuadratureRule { points, weights })
}

/// Entry t of the 3D grid pairs the 1D coordinates at t / n^2, (t / n) % n
/// and t % n and multiplies their weights, n being the 1D point count.
pub open spec fn grid3_entry_ok(
    points: Seq<Vec<SurdCoordinate>>,
    weights: Seq<RationalWeight>,
    rule_1d: QuadratureRule,
    t: int,
) -> bool {
    let n = rule_1d.points@.len() as int;
    &&& points[t]@ == seq![
        rule_1d.points@[t / (n * n)]@[0],
        rule_1d.points@[(t / n) % n]@[0],
        rule_1d.points@[t % n]@[0],
    ]
    &&& weights[t].num == rule_1d.weights@[t / (n * n)].num * rule_1d.weights@[(t / n) % n].num
        * rule_1d.weights@[t % n].num
    &&& weights[t].den == rule_1d.weights@[t / (n * n)].den * rule_1d.weights@[(t / n) % n].den
        * rule_1d.weights@[t % n].den
}

/// Builds the tensor-product rule on the unit cube from a 1D rule: the point
/// at flat index t = (i*n + j)*n + k combines the i-th, j-th and k-th 1D
/// coordinates, and its weight is the product of their weights. The
/// requested point count must match the cube of the 1D count.
pub fn create_3d_from_1d(rule_1d: &QuadratureRule, out_len: usize) -> (r: Result<
    QuadratureRule,
    QuadratureError,
>)
    requires
        rule_wf(*rule_1d, 1),
        weights_within(*rule_1d, 0x10000),
        rule_1d.points@.len() * rule_1d.points@.len() * rule_1d.points@.len() <= usize::MAX,
    ensures
        ({
            let n = rule_1d.points@.len() as int;
            &&& (r is Ok <==> n * n * n == out_len)
            &&& r matches Err(e) ==> e == (QuadratureError::DimensionMismatch {
                expected: out_len,
                actual: (n * n * n) as usize,
            })
            &&& r matches Ok(rule) ==> {
                &&& rule_wf(rule, 3)
                &&& weights_within(rule, 0x1_0000_0000_0000)
                &&& rule.points@.len() == n * n * n
                &&& forall|t: int|
                    0 <= t < n * n * n ==> #[trigger] grid3_entry_ok(
                        rule.points@,
                        rule.weights@,
                        *rule_1d,
                        t,
                    )
            }
        }),
{
    let n = rule_1d.points.len();
    proof {
        assert((n * n <= n * n * n && n * n * n >= 0) || n * n == 0) by (nonlinear_arith)
            requires
                n >= 0,
        ;
    }
    let actual_dimension: usize = n * n * n;
    if actual_dimension != out_len {
        return Err(
            QuadratureError::DimensionMismatch { expected: out_len, actual: actual_dimension },
        );
    }
    let mut points: Vec<Vec<SurdCoordinate>> = Vec::new();
    let mut weights: Vec<RationalWeight> = Vec::new();
    let mut i: usize = 0;
    while i < n
        invariant
            i <= n,
            n == rule_1d.points@.len(),
            rule_wf(*rule_1d, 1),
            weights_within(*rule_1d, 0x10000),
            n * n * n <= usize::MAX,
            points@.len() == i * (n * n),
            weights@.len() == i * (n * n),
            i * (n * n) <= n * n * n,
            forall|t: int|
                0 <= t < points@.len() ==> #[trigger] grid3_entry_ok(
                    points@,
                    weights@,
                    *rule_1d,
                    t,
                ),
            forall|t: int| 0 <= t < weights@.len() ==> 0 < (#[trigger] weights@[t]).den
                <= 0x1_0000_0000_0000 && -0x1_0000_0000_0000 <= weights@[t].num
                <= 0x1_0000_0000_0000,
            forall|t: int| 0 <= t < points@.len() ==> (#[trigger] points@[t])@.len() == 3,
        decreases n - i,
    {
        proof {
            assert(i * (n * n) + n * n == (i + 1) * (n * n)) by (nonlinear_arith);
            assert((i + 1) * (n * n) <= n * n * n) by (nonlinear_arith)
                requires
                    i + 1 <= n,
                    n >= 0,
            ;
        }
        let mut j: usize = 0;
        while j < n
            invariant
                j <= n,
                i < n,
                n == rule_1d.points@.len(),
                rule_wf(*rule_1d, 1),
                weights_within(*rule_1d, 0x10000),
                n * n * n <= usize::MAX,
                i * (n * n) + n * n <= n * n * n,
                points@.len() == i * (n * n) + j * n,
                weights@.len() == i * (n * n) + j * n,
                j * n <= n * n,
                forall|t: int|
                    0 <= t < points@.len() ==> #[trigger] grid3_entry_ok(
                        points@,
                        weights@,
                        *rule_1d,
                        t,
                    ),
                forall|t: int| 0 <= t < weights@.len() ==> 0 < (#[trigger] weights@[t]).den
                    <= 0x1_0000_0000_0000 && -0x1_0000_0000_0000 <= weights@[t].num
                    <= 0x1_0000_0000_0000,
                forall|t: int| 0 <= t < points@.len() ==> (#[trigger] points@[t])@.len() == 3,
            decreases n - j,
        {
            proof {
                assert(j * n + n == (j + 1) * n) by (nonlinear_arith);
                assert((j + 1) * n <= n * n) by (nonlinear_arith)
                    requires
                        j + 1 <= n,
                        n >= 0,
                ;
            }
            let mut k: usize = 0;
            while k < n
                invariant
                    k <= n,
                    j < n,
                    i < n,
                    n == rule_1d.points@.len(),
                    rule_wf(*rule_1d, 1),
                    weights_within(*rule_1d, 0x10000),
                    n * n * n <= usize::MAX,
                    i * (n * n) + n * n <= n * n * n,
                    j * n + n <= n * n,
                    points@.len() == i * (n * n) + j * n + k,
                    weights@.len() == i * (n * n) + j * n + k,
                    forall|t: int|
                        0 <= t < points@.len() ==> #[trigger] grid3_entry_ok(
                            points@,
                            weights@,
                            *rule_1d,
                            t,
                        ),
                    forall|t: int| 0 <= t < weights@.len() ==> 0 < (#[trigger] weights@[t]).den
                        <= 0x1_0000_0000_0000 && -0x1_0000_0000_0000 <= weights@[t].num
                        <= 0x1_0000_0000_0000,
                    forall|t: int| 0 <= t < points@.len() ==> (#[trigger] points@[t])@.len() == 3,
                decreases n - k,
            {
                let mut point: Vec<SurdCoordinate> = Vec::new();
                point.push(rule_1d.points[i][0]);
                point.push(rule_1d.points[j][0]);
                point.push(rule_1d.points[k][0]);
                let wi = rule_1d.weights[i];
                let wj = rule_1d.weights[j];
                let wk = rule_1d.weights[k];
                proof {
                    assert(-0x1_0000_0000_0000 <= wi.num as int * wj.num as int * wk.num as int
                        <= 0x1_0000_0000_0000 && 0 < wi.den as int * wj.den as int * wk.den as int
                        <= 0x1_0000_0000_0000 && -0x1_0000_0000 <= wi.num as int * wj.num as int
                        <= 0x1_0000_0000 && 0 < wi.den as int * wj.den as int <= 0x1_0000_0000)
                        by (nonlinear_arith)
                        requires
                            -0x10000 <= wi.num as int <= 0x10000,
                            -0x10000 <= wj.num as int <= 0x10000,
                            -0x10000 <= wk.num as int <= 0x10000,
                            0 < wi.den as int <= 0x10000,
                            0 < wj.den as int <= 0x10000,
                            0 < wk.den as int <= 0x10000,
                    ;
                }
                let w = RationalWeight {
                    num: wi.num * wj.num * wk.num,
                    den: wi.den * wj.den * wk.den,
                };
                let ghost prior_points = points@;
                let ghost prior_weights = weights@;
                points.push(point);
                weights.push(w);
                proof {
                    let ghost new_index = i * (n * n) + j * n + k as int;
                    assert((i as int) * ((n as int) * (n as int)) + (j as int) * (n as int) + (
                    k as int) == ((i as int) * (n as int) + (j as int)) * (n as int) + (k as int))
                        by (nonlinear_arith);
                    assert(new_index == (i * n + j as int) * n + k);
                    vstd::arithmetic::div_mod::lemma_fundamental_div_mod_converse(
                        new_index,
                        n as int,
                        i * n + j as int,
                        k as int,
                    );
                    assert(j * n + k < n * n) by (nonlinear_arith)
                        requires
                            (j as int) < n,
                            0 <= k as int,
                            (k as int) < n,
                            0 <= j as int,
                    ;
                    vstd::arithmetic::div_mod::lemma_fundamental_div_mod_converse(
                        new_index,
                        (n * n) as int,
                        i as int,
                        j * n + k as int,
                    );
                    vstd::arithmetic::div_mod::lemma_fundamental_div_mod_converse(
                        i * n + j as int,
                        n as int,
                        i as int,
                        j as int,
                    );
                    assert(points@[new_index]@ =~= seq![
                        rule_1d.points@[i as int]@[0],
                        rule_1d.points@[j as int]@[0],
                        rule_1d.points@[k as int]@[0],
                    ]);
                    assert(grid3_entry_ok(points@, weights@, *rule_1d, new_index));
                    assert forall|t: int|
                        0 <= t < points@.len() implies #[trigger] grid3_entry_ok(
                        points@,
                        weights@,
                        *rule_1d,
                        t,
                    ) by {
                        if t < new_index {
                            assert(grid3_entry_ok(prior_points, prior_weights, *rule_1d, t));
                            assert(points@[t] == prior_points[t]);
                            assert(weights@[t] == prior_weights[t]);
                        }
                    }
                }
                k = k + 1;
            }
            j = j + 1;
        }
        i = i + 1;
    }
    proof {
        assert((n as int) * ((n as int) * (n as int)) == (n as int) * (n as int) * (n as int))
            by (nonlinear_arith);
    }
    Ok(QuadratureRule { points, weights })
}

/// The product of (a.0 + a.1 sqrt(r)) and (b.0 + b.1 sqrt(r)) in the field
/// extension by sqrt(r): rational and surd component of the result.
pub open spec fn surd_product(a: (int, int), b: (int, int), r: int) -> (int, int) {
    (a.0 * b.0 + r * (a.1 * b.1), a.0 * b.1 + a.1 * b.0)
}

/// The value of c0 + c1 x at the coordinate, as the numerator pair
/// (rational part, surd part) over the coordinate's denominator.
pub open spec fn affine_value_parts(c: SurdCoordinate, c0: int, c1: int) -> (int, int) {
    (c0 * c.den + c1 * c.num, c1 * c.surd_num)
}

/// The value of c0 + c1 x + c2 x^2 + c3 x^3 at the coordinate, as the
/// numerator pair over the cube of the coordinate's denominator; the powers
/// of x are formed in the field extension by sqrt(radicand).
pub open spec fn cubic_value_parts(
    c: SurdCoordinate,
    c0: int,
    c1: int,
    c2: int,
    c3: int,
) -> (int, int) {
    let x = (c.num as int, c.surd_num as int);
    let x2 = surd_product(x, x, c.radicand as int);
    let x3 = surd_product(x2, x, c.radicand as int);
    let d = c.den as int;
    (
        c0 * (d * d * d) + c1 * x.0 * (d * d) + c2 * x2.0 * d + c3 * x3.0,
        c1 * x.1 * (d * d) + c2 * x2.1 * d + c3 * x3.1,
    )
}

/// Quadrature exactness of the two-point rule for polynomials of degree at
/// most one, shown in exact arithmetic: the surd parts of the two sample
/// values cancel, and the rational parts sum to 12 c0 + 6 c1 over the common
/// denominator 12 — that is, the weighted sum is exactly c0 + c1/2, the
/// integral of c0 + c1 x over the unit interval.
pub proof fn lemma_linear_rule_degree_one_exact(rule: QuadratureRule, c0: int, c1: int)
    requires
        rule.points@.len() == 2,
        rule.points@[0]@ == seq![
            SurdCoordinate { num: 3, surd_num: -1i64, den: 6, radicand: 3 },
        ],
        rule.points@[1]@ == seq![SurdCoordinate { num: 3, surd_num: 1, den: 6, radicand: 3 }],
        rule.weights@[0] == (RationalWeight { num: 1, den: 2 }),
        rule.weights@[1] == (RationalWeight { num: 1, den: 2 }),
    ensures
        ({
            let lo = affine_value_parts(rule.points@[0]@[0], c0, c1);
            let hi = affine_value_parts(rule.points@[1]@[0], c0, c1);
            &&& lo.0 + hi.0 == 12 * c0 + 6 * c1
            &&& lo.1 + hi.1 == 0
        }),
{
}

/// Quadrature exactness of the three-point rule for polynomials of degree at
/// most three, shown in exact arithmetic: over the common denominator 18000
/// (weights over 18, end points cubed over 1000, midpoint cubed over 8), the
/// surd parts cancel and the weighted numerators sum to 18000 c0 + 9000 c1 +
/// 6000 c2 + 4500 c3 — that is, the weighted sum is exactly c0 + c1/2 + c2/3
/// + c3/4, the integral of the cubic over the unit interval.
pub proof fn lemma_quadratic_rule_degree_three_exact(
    rule: QuadratureRule,
    c0: int,
    c1: int,
    c2: int,
    c3: int,
)
    requires
        rule.points@.len() == 3,
        rule.points@[0]@ == seq![
            SurdCoordinate { num: 5, surd_num: -1i64, den: 10, radicand: 15 },
        ],
        rule.points@[1]@ == seq![SurdCoordinate { num: 1, surd_num: 0, den: 2, radicand: 15 }],
        rule.points@[2]@ == seq![SurdCoordinate { num: 5, surd_num: 1, den: 10, radicand: 15 }],
        rule.weights@[0] == (RationalWeight { num: 5, den: 18 }),
        rule.weights@[1] == (RationalWeight { num: 8, den: 18 }),
        rule.weights@[2] == (RationalWeight { num: 5, den: 18 }),
    ensures
        ({
            let lo = cubic_value_parts(rule.points@[0]@[0], c0, c1, c2, c3);
            let mid = cubic_value_parts(rule.points@[1]@[0], c0, c1, c2, c3);
            let hi = cubic_value_parts(rule.points@[2]@[0], c0, c1, c2, c3);
            &&& 5 * lo.0 + 1000 * mid.0 + 5 * hi.0 == 18000 * c0 + 9000 * c1 + 6000 * c2 + 4500
                * c3
            &&& 5 * lo.1 + 1000 * mid.1 + 5 * hi.1 == 0
        }),
{
    let lo_c = rule.points@[0]@[0];
    let mid_c = rule.points@[1]@[0];
    let hi_c = rule.points@[2]@[0];
    assert(lo_c == SurdCoordinate { num: 5, surd_num: -1i64, den: 10, radicand: 15 });
    assert(mid_c == SurdCoordinate { num: 1, surd_num: 0, den: 2, radicand: 15 });
    assert(hi_c == SurdCoordinate { num: 5, surd_num: 1, den: 10, radicand: 15 });
    // Powers of the end points in the field extension by sqrt(15):
    // ((5 -+ sqrt(15))/10)^2 = (40 -+ 10 sqrt(15))/100 and
    // ((5 -+ sqrt(15))/10)^3 = (350 -+ 90 sqrt(15))/1000.
    assert(surd_product((5int, -1int), (5int, -1int), 15) == (40int, -10int)) by (nonlinear_arith);
    assert(surd_product((40int, -10int), (5int, -1int), 15) == (350int, -90int)) by (nonlinear_arith);
    assert(surd_product((5int, 1int), (5int, 1int), 15) == (40int, 10int)) by (nonlinear_arith);
    assert(surd_product((40int, 10int), (5int, 1int), 15) == (350int, 90int)) by (nonlinear_arith);
    assert(surd_product((1int, 0int), (1int, 0int), 15) == (1int, 0int)) by (nonlinear_arith);
    assert(surd_product((1int, 0int), (1int, 0int), 15) == (1int, 0int)) by (nonlinear_arith);
    assert((lo_c.den as int) * (lo_c.den as int) == 100 && (lo_c.den as int) * (lo_c.den as int)
        * (lo_c.den as int) == 1000) by (nonlinear_arith)
        requires
            lo_c.den as int == 10,
    ;
    assert((hi_c.den as int) * (hi_c.den as int) == 100 && (hi_c.den as int) * (hi_c.den as int)
        * (hi_c.den as int) == 1000) by (nonlinear_arith)
        requires
            hi_c.den as int == 10,
    ;
    assert((mid_c.den as int) * (mid_c.den as int) == 4 && (mid_c.den as int) * (mid_c.den as int)
        * (mid_c.den as int) == 8) by (nonlinear_arith)
        requires
            mid_c.den as int == 2,
    ;
    assert(cubic_value_parts(lo_c, c0, c1, c2, c3) == (1000 * c0 + 500 * c1 + 400 * c2 + 350 * c3,
    -100 * c1 - 100 * c2 - 90 * c3));
    assert(cubic_value_parts(hi_c, c0, c1, c2, c3) == (1000 * c0 + 500 * c1 + 400 * c2 + 350 * c3,
    100 * c1 + 100 * c2 + 90 * c3));
    let md = mid_c.den as int;
    assert(c0 * (md * md * md) == 8 * c0 && c1 * (1int) * (md * md) == 4 * c1 && c2 * (1int) * md
        == 2 * c2 && c1 * (0int) * (md * md) == 0 && c2 * (0int) * md == 0 && c3 * (0int) == 0)
        by (nonlinear_arith)
        requires
            md == 2,
    ;
    assert(cubic_value_parts(mid_c, c0, c1, c2, c3).0 == 8 * c0 + 4 * c1 + 2 * c2 + c3);
    assert(cubic_value_parts(mid_c, c0, c1, c2, c3).1 == 0);
}

} // verus!
