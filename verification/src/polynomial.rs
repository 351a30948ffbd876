//! Fixed-length polynomial coefficients with truncated multiplication
//! (convolution capped at the array length) and integer exponentiation, the
//! utility behind the determinant and inverse-determinant expansions.
//!
//! Coefficients are integers here; the contracts pin every coefficient of the
//! result to the mathematical convolution.

use vstd::prelude::*;

verus! {

/// Bound on the coefficients admitted by the arithmetic: with every
/// coefficient at most this in magnitude and at most `LENGTH_LIMIT` of them,
/// no intermediate sum can leave the `i64` range.
pub const COEFFICIENT_LIMIT: i64 = 0x80_0000;

/// Bound on the number of coefficients; see `COEFFICIENT_LIMIT`.
pub const LENGTH_LIMIT: usize = 0x1_0000;

/// The partial convolution sum of `a` and `b` at output degree `k`, over the
/// first `j` terms: a[0]*b[k] + a[1]*b[k-1] + ... + a[j-1]*b[k-j+1].
pub open spec fn conv_partial(a: Seq<int>, b: Seq<int>, k: int, j: int) -> int
    decreases j,
{
    if j <= 0 {
        0
    } else {
        conv_partial(a, b, k, j - 1) + a[j - 1] * b[k - (j - 1)]
    }
}

/// Coefficient `k` of the product of `a` and `b`: the full convolution sum
/// a[0]*b[k] + ... + a[k]*b[0].
pub open spec fn conv_at(a: Seq<int>, b: Seq<int>, k: int) -> int {
    conv_partial(a, b, k, k + 1)
}

/// The product of `a` and `b`, truncated to the length of `a`: higher-order
/// terms are dropped by design, the representation being inherently truncated.
pub open spec fn spec_convolution(a: Seq<int>, b: Seq<int>) -> Seq<int> {
    Seq::new(a.len(), |k: int| conv_at(a, b, k))
}

/// The constant polynomial 1 on `len` coefficients.
pub open spec fn one_polynomial(len: nat) -> Seq<int> {
    Seq::new(len, |i: int| if i == 0 { 1int } else { 0int })
}

/// The `power`-fold truncated product of `p` with itself; power 0 is the
/// constant polynomial 1.
pub open spec fn spec_pow_trunc(p: Seq<int>, power: nat) -> Seq<int>
    decreases power,
{
    if power == 0 {
        one_polynomial(p.len())
    } else {
        spec_convolution(spec_pow_trunc(p, (power - 1) as nat), p)
    }
}

/// Every coefficient within the magnitude bound that keeps the truncated
/// multiplication free of overflow.
pub open spec fn poly_small(s: Seq<int>) -> bool {
    forall|i: int| 0 <= i < s.len() ==> -COEFFICIENT_LIMIT <= #[trigger] s[i] <= COEFFICIENT_LIMIT
}

/// Every intermediate power up to (but excluding) `power` stays within the
/// coefficient bound, so the whole chain of multiplications fits in `i64`.
pub open spec fn pow_stays_small(p: Seq<int>, power: nat) -> bool {
    forall|j: nat| 1 <= j < power ==> poly_small(#[trigger] spec_pow_trunc(p, j))
}

/// An ordered, fixed-size sequence of polynomial coefficients
/// [c0, c1, ..., c_{L-1}], c_k being the coefficient of the k-th power of the
/// parameter.
#[derive(Debug, Clone, PartialEq)]
pub struct PolynomialCoefficientsFixedLength<T> {
    coefficients: Vec<T>,
}

/// Power-series coefficients with a growable length.
#[derive(Debug, Clone, PartialEq)]
pub struct PowerSeriesCoefficientsVec<T>(pub Vec<T>);

impl View for PolynomialCoefficientsFixedLength<i64> {
    type V = Seq<int>;

    closed spec fn view(&self) -> Seq<int> {
        self.coefficients@.map_values(|c: i64| c as int)
    }
}

impl PolynomialCoefficientsFixedLength<i64> {
    /// Wraps a coefficient vector [c0, c1, ...] as a polynomial.
    pub fn new(coefficients: Vec<i64>) -> (r: Self)
        ensures
            r@ == coefficients@.map_values(|c: i64| c as int),
            r@.len() == coefficients@.len(),
    {
        Self { coefficients }
    }

    /// The coefficients in order, lowest degree first.
    pub fn iter(&self) -> (r: Vec<i64>)
        ensures
            r@.map_values(|c: i64| c as int) == self@,
            r@.len() == self@.len(),
    {
        let mut r: Vec<i64> = Vec::new();
        let mut i: usize = 0;
        while i < self.coefficients.len()
            invariant
                i <= self.coefficients@.len(),
                r@.len() == i,
                forall|j: int| 0 <= j < i ==> r@[j] == self.coefficients@[j],
            decreases self.coefficients@.len() - i,
        {
            r.push(self.coefficients[i]);
            i = i + 1;
        }
        proof {
            assert(r@.map_values(|c: i64| c as int) =~= self@);
        }
        r
    }

    /// The number of coefficients.
    pub fn len(&self) -> (r: usize)
        ensures
            r == self@.len(),
    {
        self.coefficients.len()
    }

    /// Truncated polynomial multiplication: coefficient `k` of the result is
    /// the convolution sum a[0]*b[k] + ... + a[k]*b[0]; terms of degree at or
    /// above the length are dropped by design.
    pub fn mul_polynomial(&self, b: &Self) -> (r: Self)
        requires
            self@.len() == b@.len(),
            self@.len() <= LENGTH_LIMIT,
            poly_small(self@),
            poly_small(b@),
        ensures
            r@ == spec_convolution(self@, b@),
            r@.len() == self@.len(),
    {
        let len = self.coefficients.len();
        let mut result: Vec<i64> = Vec::new();
        let mut k: usize = 0;
        while k < len
            invariant
                k <= len,
                len == self@.len() == b@.len(),
                len <= LENGTH_LIMIT,
                poly_small(self@),
                poly_small(b@),
                result@.len() == k,
                forall|k2: int|
                    0 <= k2 < k ==> result@[k2] as int == conv_at(self@, b@, k2),
            decreases len - k,
        {
            let mut acc: i64 = 0;
            let mut i: usize = 0;
            while i <= k
                invariant
                    i <= k + 1,
                    k < len,
                    len == self@.len() == b@.len(),
                    len <= LENGTH_LIMIT,
                    poly_small(self@),
                    poly_small(b@),
                    acc as int == conv_partial(self@, b@, k as int, i as int),
                    -(i as int) * COEFFICIENT_LIMIT * COEFFICIENT_LIMIT <= acc as int <= (
                    i as int) * COEFFICIENT_LIMIT * COEFFICIENT_LIMIT,
                decreases k + 1 - i,
            {
                let term_a = self.coefficients[i];
                let term_b = b.coefficients[k - i];
                proof {
                    let l = COEFFICIENT_LIMIT as int;
                    assert(self@[i as int] == term_a as int);
                    assert(b@[k - i] == term_b as int);
                    assert(-(l * l) <= term_a as int * term_b as int <= l * l)
                        by (nonlinear_arith)
                        requires
                            -l <= term_a as int <= l,
                            -l <= term_b as int <= l,
                    ;
                    assert((i as int + 1) * l * l == i as int * l * l + l * l)
                        by (nonlinear_arith);
                    assert((i as int) * l * l <= 0x1_0000 * l * l) by (nonlinear_arith)
                        requires
                            0 <= i as int <= 0x1_0000,
                    ;
                }
                acc = acc + term_a * term_b;
                i = i + 1;
            }
            result.push(acc);
            k = k + 1;
        }
        proof {
            assert(result@.map_values(|c: i64| c as int) =~= spec_convolution(self@, b@));
        }
        Self { coefficients: result }
    }

    /// Integer exponentiation built on the truncated multiplication; power 0
    /// is the constant polynomial 1.
    pub fn pow(&self, power: u8) -> (r: Self)
        requires
            1 <= self@.len() <= LENGTH_LIMIT,
            poly_small(self@),
            pow_stays_small(self@, power as nat),
        ensures
            r@ == spec_pow_trunc(self@, power as nat),
            r@.len() == self@.len(),
    {
        let len = self.coefficients.len();
        if power == 0 {
            let mut coefficients: Vec<i64> = Vec::new();
            coefficients.push(1i64);
            let mut i: usize = 1;
            while i < len
                invariant
                    1 <= i <= len,
                    coefficients@.len() == i,
                    coefficients@[0] == 1i64,
                    forall|j: int| 1 <= j < i ==> coefficients@[j] == 0i64,
                decreases len - i,
            {
                coefficients.push(0i64);
                i = i + 1;
            }
            proof {
                assert(coefficients@.map_values(|c: i64| c as int) =~= one_polynomial(
                    self@.len(),
                ));
            }
            return Self { coefficients };
        }
        let mut current = Self::new(self.iter());
        proof {
            assert(current@ =~= self@);
            lemma_pow_one(self@);
        }
        let mut done: u8 = 1;
        while done < power
            invariant
                1 <= done <= power,
                self@.len() == current@.len(),
                1 <= self@.len() <= LENGTH_LIMIT,
                poly_small(self@),
                pow_stays_small(self@, power as nat),
                current@ == spec_pow_trunc(self@, done as nat),
            decreases power - done,
        {
            assert(poly_small(current@));
            current = current.mul_polynomial(self);
            done = done + 1;
        }
        current
    }
}

/// The constant polynomial 1 is a left unit for the truncated multiplication.
pub proof fn lemma_conv_one_left(p: Seq<int>)
    ensures
        spec_convolution(one_polynomial(p.len()), p) == p,
{
    let one = one_polynomial(p.len());
    assert forall|k: int| 0 <= k < p.len() implies conv_at(one, p, k) == p[k] by {
        lemma_conv_partial_one_left(p, k, k + 1);
    }
    assert(spec_convolution(one, p) =~= p);
}

proof fn lemma_conv_partial_one_left(p: Seq<int>, k: int, j: int)
    requires
        0 <= k < p.len(),
        0 <= j <= k + 1,
    ensures
        conv_partial(one_polynomial(p.len()), p, k, j) == if j >= 1 {
            p[k]
        } else {
            0
        },
    decreases j,
{
    let one = one_polynomial(p.len());
    if j > 0 {
        lemma_conv_partial_one_left(p, k, j - 1);
        assert(conv_partial(one, p, k, j) == conv_partial(one, p, k, j - 1) + one[j - 1] * p[k - (j
            - 1)]);
        if j - 1 == 0 {
            assert(one[0] == 1);
        } else {
            assert(one[j - 1] == 0);
            assert(0 * p[k - (j - 1)] == 0);
        }
    }
}

/// Splitting the convolution sum at `j` from the left equals splitting the
/// flipped sum at `k + 1 - j` from the right.
proof fn lemma_conv_partial_flip(a: Seq<int>, b: Seq<int>, k: int, j: int)
    requires
        0 <= j <= k + 1,
    ensures
        conv_partial(a, b, k, j) + conv_partial(b, a, k, k + 1 - j) == conv_at(b, a, k),
    decreases j,
{
    if j == 0 {
    } else {
        lemma_conv_partial_flip(a, b, k, j - 1);
        assert(conv_partial(b, a, k, k + 2 - j) == conv_partial(b, a, k, k + 1 - j) + b[k + 1
            - j] * a[j - 1]);
        assert(a[j - 1] * b[k - (j - 1)] == b[k + 1 - j] * a[j - 1]) by (nonlinear_arith);
    }
}

/// The truncated multiplication is commutative.
pub proof fn lemma_convolution_commutative(a: Seq<int>, b: Seq<int>)
    requires
        a.len() == b.len(),
    ensures
        spec_convolution(a, b) == spec_convolution(b, a),
{
    assert forall|k: int| 0 <= k < a.len() implies conv_at(a, b, k) == conv_at(b, a, k) by {
        lemma_conv_partial_flip(a, b, k, k + 1);
        assert(conv_partial(b, a, k, 0) == 0);
    }
    assert(spec_convolution(a, b) =~= spec_convolution(b, a));
}

/// Raising to the power 1 returns the polynomial itself.
pub proof fn lemma_pow_one(p: Seq<int>)
    ensures
        spec_pow_trunc(p, 1) == p,
{
    assert(spec_pow_trunc(p, 0) == one_polynomial(p.len()));
    lemma_conv_one_left(p);
}

/// Squaring equals one truncated multiplication of the polynomial by itself.
pub proof fn lemma_pow_two(p: Seq<int>)
    ensures
        spec_pow_trunc(p, 2) == spec_convolution(p, p),
{
    lemma_pow_one(p);
}

} // verus!
