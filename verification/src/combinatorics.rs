//! Combinatorial helpers for the inverse-determinant power series: a factorial
//! cache, signed multinomial coefficients, and the enumeration of the exponent
//! triples (a, b, c) with a + 2b + 3c equal to a requested order.

use vstd::prelude::*;
use vstd::arithmetic::div_mod::lemma_div_is_ordered_by_denominator;
use vstd::arithmetic::div_mod::lemma_mul_mod_noop_left;
use vstd::arithmetic::div_mod::lemma_small_mod;
use vstd::arithmetic::mul::lemma_mul_inequality;

verus! {

/// The factorial of `n` as a mathematical value.
pub open spec fn spec_factorial(n: nat) -> nat
    decreases n,
{
    if n == 0 {
        1
    } else {
        n * spec_factorial((n - 1) as nat)
    }
}

/// The multinomial coefficient (a + b + c)! / (a! b! c!), as the integer
/// division of the factorials (the division is exact).
pub open spec fn spec_multinomial(a: nat, b: nat, c: nat) -> int {
    spec_factorial((a + b + c) as nat) as int / (spec_factorial(a) * spec_factorial(b)
        * spec_factorial(c)) as int
}

pub proof fn lemma_factorial_positive(n: nat)
    ensures
        spec_factorial(n) >= 1,
    decreases n,
{
    if n > 0 {
        lemma_factorial_positive((n - 1) as nat);
        assert(n * spec_factorial((n - 1) as nat) >= n * 1) by (nonlinear_arith)
            requires
                spec_factorial((n - 1) as nat) >= 1,
                n >= 1,
        ;
    }
}

/// Factorials are monotone: m <= n implies m! <= n!.
pub proof fn lemma_factorial_monotone(m: nat, n: nat)
    requires
        m <= n,
    ensures
        spec_factorial(m) <= spec_factorial(n),
    decreases n,
{
    if m < n {
        lemma_factorial_monotone(m, (n - 1) as nat);
        lemma_factorial_positive((n - 1) as nat);
        lemma_mul_inequality(1, n as int, spec_factorial((n - 1) as nat) as int);
    }
}

/// a! * b! <= (a + b)!.
pub proof fn lemma_factorial_product_bound(a: nat, b: nat)
    ensures
        spec_factorial(a) * spec_factorial(b) <= spec_factorial((a + b) as nat),
    decreases b,
{
    if b == 0 {
        assert(spec_factorial(0) == 1);
    } else {
        lemma_factorial_product_bound(a, (b - 1) as nat);
        assert(spec_factorial(b) == b * spec_factorial((b - 1) as nat));
        assert(spec_factorial((a + b) as nat) == (a + b) * spec_factorial((a + b - 1) as nat));
        let fa = spec_factorial(a) as int;
        let fb1 = spec_factorial((b - 1) as nat) as int;
        let fab1 = spec_factorial((a + b - 1) as nat) as int;
        assert(fa * (b * fb1) == (fa * fb1) * b) by (nonlinear_arith);
        lemma_mul_inequality(fa * fb1, fab1, b as int);
        lemma_mul_inequality(b as int, (a + b) as int, fab1 as int);
        assert((fa * fb1) * b <= fab1 * b) by {
            assert(fa * fb1 <= fab1);
            lemma_mul_inequality(fa * fb1, fab1, b as int);
        }
        assert(fab1 * b == b * fab1) by (nonlinear_arith);
    }
}

/// 20! is the largest factorial that fits in a `u64`.
pub proof fn lemma_factorial_20()
    ensures
        spec_factorial(20) == 2432902008176640000,
{
    assert(spec_factorial(0) == 1);
    assert(spec_factorial(1) == 1);
    assert(spec_factorial(2) == 2);
    assert(spec_factorial(3) == 6);
    assert(spec_factorial(4) == 24);
    assert(spec_factorial(5) == 120);
    assert(spec_factorial(6) == 720);
    assert(spec_factorial(7) == 5040);
    assert(spec_factorial(8) == 40320);
    assert(spec_factorial(9) == 362880);
    assert(spec_factorial(10) == 3628800);
    assert(spec_factorial(11) == 39916800);
    assert(spec_factorial(12) == 479001600);
    assert(spec_factorial(13) == 6227020800);
    assert(spec_factorial(14) == 87178291200);
    assert(spec_factorial(15) == 1307674368000);
    assert(spec_factorial(16) == 20922789888000);
    assert(spec_factorial(17) == 355687428096000);
    assert(spec_factorial(18) == 6402373705728000);
    assert(spec_factorial(19) == 121645100408832000);
    assert(spec_factorial(20) == 2432902008176640000);
}

/// Precomputed factorials up to a caller-chosen limit. Entries are the
/// factorials reduced modulo 2^64 (the running product wraps), so they are
/// exact wherever the factorial fits in a `u64`, i.e. up to 20!.
#[derive(Debug)]
pub struct FactorialCache {
    values: Vec<u64>,
    max_n: usize,
}

impl FactorialCache {
    /// The largest argument this cache can answer.
    pub closed spec fn limit(&self) -> nat {
        self.max_n as nat
    }

    /// Every stored entry is the factorial of its index, modulo 2^64.
    pub closed spec fn wf(&self) -> bool {
        &&& self.values@.len() == self.max_n + 1
        &&& forall|i: int|
            0 <= i < self.values@.len() ==> self.values@[i] == spec_factorial(i as nat)
                % 0x1_0000_0000_0000_0000
    }

    /// Creates a new cache with factorials up to `max_n`.
    pub fn new(max_n: usize) -> (r: Self)
        requires
            max_n < usize::MAX,
        ensures
            r.wf(),
            r.limit() == max_n,
    {
        let mut values: Vec<u64> = Vec::new();
        values.push(1u64);
        let mut i: usize = 1;
        while i <= max_n
            invariant
                1 <= i <= max_n + 1,
                max_n < usize::MAX,
                values@.len() == i,
                forall|j: int|
                    0 <= j < i ==> values@[j] == spec_factorial(j as nat)
                        % 0x1_0000_0000_0000_0000,
            decreases max_n + 1 - i,
        {
            let prev = values[i - 1];
            let next = prev.wrapping_mul(i as u64);
            proof {
                let m: int = 0x1_0000_0000_0000_0000;
                let f_prev = spec_factorial((i - 1) as nat) as int;
                lemma_mul_mod_noop_left(f_prev, i as int, m);
                assert(spec_factorial(i as nat) == i * spec_factorial((i - 1) as nat));
                assert(f_prev * i == i * f_prev) by (nonlinear_arith);
            }
            values.push(next);
            i = i + 1;
        }
        Self { values, max_n }
    }

    /// Gets factorial(n) from the cache: the exact factorial reduced mod 2^64
    /// for n within the limit, absence beyond it.
    pub fn get(&self, n: usize) -> (r: Option<u64>)
        requires
            self.wf(),
        ensures
            n <= self.limit() ==> r == Some(
                (spec_factorial(n as nat) % 0x1_0000_0000_0000_0000) as u64,
            ),
            n > self.limit() ==> r is None,
    {
        if n <= self.max_n {
            Some(self.values[n])
        } else {
            None
        }
    }
}

/// One term of the inverse-determinant expansion: the exponents (a, b, c) of
/// h1^a h2^b h3^c, contributing to the order a + 2b + 3c.
#[derive(Debug, Copy, Clone, PartialEq, Eq, Structural)]
pub struct ExpansionTerm(pub u8, pub u8, pub u8);

/// Calculates the multinomial coefficient of a term, negated when the total
/// exponent a + b + c is odd. Exact whenever the total is at most 20 and
/// within the cache's limit; absence when the cache is too small.
pub fn signed_multinomial_coefficient(term: ExpansionTerm, factorials: &FactorialCache) -> (r:
    Option<i64>)
    requires
        factorials.wf(),
        term.0 + term.1 + term.2 <= 255,
    ensures
        term.0 + term.1 + term.2 <= factorials.limit() && term.0 + term.1 + term.2 <= 20 ==> r
            == Some(
            (if (term.0 + term.1 + term.2) % 2 == 1 {
                -spec_multinomial(term.0 as nat, term.1 as nat, term.2 as nat)
            } else {
                spec_multinomial(term.0 as nat, term.1 as nat, term.2 as nat)
            }) as i64,
        ),
        term.0 + term.1 + term.2 > factorials.limit() ==> r is None,
{
    let ExpansionTerm(a, b, c) = term;
    let total: u8 = a + b + c;

    let a_fact: u64 = match factorials.get(a as usize) {
        Some(v) => v,
        None => {
            return None;
        },
    };
    let b_fact: u64 = match factorials.get(b as usize) {
        Some(v) => v,
        None => {
            return None;
        },
    };
    let c_fact: u64 = match factorials.get(c as usize) {
        Some(v) => v,
        None => {
            return None;
        },
    };
    let total_fact: u64 = match factorials.get(total as usize) {
        Some(v) => v,
        None => {
            return None;
        },
    };

    proof {
        if total <= 20 && total <= factorials.limit() {
            let m: int = 0x1_0000_0000_0000_0000;
            let fa = spec_factorial(a as nat) as int;
            let fb = spec_factorial(b as nat) as int;
            let fc = spec_factorial(c as nat) as int;
            let ft = spec_factorial(total as nat) as int;
            lemma_factorial_20();
            lemma_factorial_monotone(a as nat, total as nat);
            lemma_factorial_monotone(b as nat, total as nat);
            lemma_factorial_monotone(c as nat, total as nat);
            lemma_factorial_monotone((a + b) as nat, total as nat);
            lemma_factorial_monotone(total as nat, 20);
            lemma_factorial_positive(a as nat);
            lemma_factorial_positive(b as nat);
            lemma_factorial_positive(c as nat);
            lemma_factorial_product_bound(a as nat, b as nat);
            lemma_factorial_product_bound((a + b) as nat, c as nat);
            lemma_mul_inequality(fa * fb, spec_factorial((a + b) as nat) as int, fc);
            // Each factorial fits in a u64, so the cached entries are exact.
            lemma_small_mod(spec_factorial(a as nat), m as nat);
            lemma_small_mod(spec_factorial(b as nat), m as nat);
            lemma_small_mod(spec_factorial(c as nat), m as nat);
            lemma_small_mod(spec_factorial(total as nat), m as nat);
            assert(a_fact == fa && b_fact == fb && c_fact == fc && total_fact == ft);
            // The denominator divides into a quotient no larger than the numerator.
            assert(fa * fb * fc >= 1) by (nonlinear_arith)
                requires
                    fa >= 1,
                    fb >= 1,
                    fc >= 1,
            ;
            lemma_div_is_ordered_by_denominator(ft, 1, fa * fb * fc);
        }
    }

    let ab = a_fact.checked_mul(b_fact)?;
    let denominator = ab.checked_mul(c_fact)?;
    let raw = total_fact.checked_div(denominator)?;
    if raw > i64::MAX as u64 {
        return None;
    }
    let raw_coeff: i64 = raw as i64;

    Some(
        if total & 1 == 1 {
            proof {
                assert((total & 1) == (total % 2)) by (bit_vector);
            }
            -raw_coeff
        } else {
            proof {
                assert((total & 1) == (total % 2)) by (bit_vector);
            }
            raw_coeff
        },
    )
}

/// Whether (a, b, c) contributes to the given order, i.e. a + 2b + 3c == order.
pub open spec fn is_expansion_term(t: ExpansionTerm, order: u8) -> bool {
    t.0 + 2 * t.1 + 3 * t.2 == order
}

/// Finds all triples (a, b, c) with a + 2b + 3c = order: each listed triple
/// satisfies the equation, every satisfying triple is listed, and no triple
/// appears twice.
pub fn expansion_terms(order: u8) -> (r: Vec<ExpansionTerm>)
    ensures
        forall|i: int| 0 <= i < r@.len() ==> is_expansion_term(#[trigger] r@[i], order),
        forall|t: ExpansionTerm| is_expansion_term(t, order) ==> #[trigger] r@.contains(t),
        forall|i: int, j: int| 0 <= i < j < r@.len() ==> r@[i] != r@[j],
{
    let mut r: Vec<ExpansionTerm> = Vec::new();
    let mut c: u8 = 0;
    while c <= order / 3
        invariant
            c <= order / 3 + 1,
            forall|i: int| 0 <= i < r@.len() ==> is_expansion_term(#[trigger] r@[i], order),
            forall|i: int| 0 <= i < r@.len() ==> #[trigger] r@[i].2 < c,
            forall|t: ExpansionTerm|
                is_expansion_term(t, order) && t.2 < c ==> #[trigger] r@.contains(t),
            forall|i: int, j: int|
                0 <= i < j < r@.len() ==> (r@[i].2 < r@[j].2 || (r@[i].2 == r@[j].2 && r@[i].1
                    < r@[j].1)),
        decreases order / 3 + 1 - c,
    {
        let remaining_after_c: u8 = order - 3 * c;
        let mut b: u8 = 0;
        while b <= remaining_after_c / 2
            invariant
                c <= order / 3,
                remaining_after_c == order - 3 * c,
                b <= remaining_after_c / 2 + 1,
                forall|i: int| 0 <= i < r@.len() ==> is_expansion_term(#[trigger] r@[i], order),
                forall|i: int|
                    0 <= i < r@.len() ==> (#[trigger] r@[i].2 < c || (r@[i].2 == c && r@[i].1
                        < b)),
                forall|t: ExpansionTerm|
                    is_expansion_term(t, order) && (t.2 < c || (t.2 == c && t.1 < b))
                        ==> #[trigger] r@.contains(t),
                forall|i: int, j: int|
                    0 <= i < j < r@.len() ==> (r@[i].2 < r@[j].2 || (r@[i].2 == r@[j].2 && r@[i].1
                        < r@[j].1)),
            decreases remaining_after_c / 2 + 1 - b,
        {
            let a: u8 = order - 2 * b - 3 * c;
            let ghost prior = r@;
            r.push(ExpansionTerm(a, b, c));
            proof {
                assert forall|t: ExpansionTerm|
                    is_expansion_term(t, order) && (t.2 < c || (t.2 == c && t.1
                        < b + 1)) implies #[trigger] r@.contains(t) by {
                    if t.2 == c && t.1 == b {
                        assert(t == ExpansionTerm(a, b, c));
                        assert(r@[prior.len() as int] == t);
                    } else {
                        assert(prior.contains(t));
                        let w = choose|w: int| 0 <= w < prior.len() && prior[w] == t;
                        assert(r@[w] == t);
                    }
                }
            }
            b = b + 1;
        }
        c = c + 1;
    }
    proof {
        assert forall|t: ExpansionTerm| is_expansion_term(t, order) implies #[trigger] r@.contains(
            t,
        ) by {
            assert(3 * t.2 <= order);
            assert(t.2 <= order / 3);
            assert(t.2 < c);
        }
        assert forall|i: int, j: int| 0 <= i < j < r@.len() implies r@[i] != r@[j] by {
            assert(r@[i].2 < r@[j].2 || (r@[i].2 == r@[j].2 && r@[i].1 < r@[j].1));
        }
    }
    r
}

} // verus!
