//! Configuration of the recursive force-order construction: the per-order cap
//! on polynomial degree, and the degree range that one truncated convolution
//! step may contribute to. The floating-point recursion itself lives with the
//! caller; the decisions it takes are fixed here.

use vstd::prelude::*;

verus! {

/// The degree cap for force order `n`: min((dimension - 1) * morphing_degree
/// * (n + 1), max_degree).
pub open spec fn spec_max_degree_for_order(
    max_degree: u8,
    dimension: u8,
    morphing_degree: u8,
    n: int,
) -> int {
    let base = (dimension - 1) * morphing_degree;
    if base * (n + 1) <= max_degree {
        base * (n + 1)
    } else {
        max_degree as int
    }
}

/// Calculates the maximum degrees for all force orders 0 ..= max_force_order.
pub fn calculate_max_degrees_for_all_force_orders(
    max_degree: u8,
    max_force_order: u8,
    dimension: u8,
    morphing_degree: u8,
) -> (r: Vec<u8>)
    requires
        dimension >= 1,
        max_force_order < u8::MAX,
        (dimension - 1) * morphing_degree * (max_force_order + 1) <= u8::MAX,
    ensures
        r@.len() == max_force_order + 1,
        forall|n: int|
            0 <= n < r@.len() ==> r@[n] as int == spec_max_degree_for_order(
                max_degree,
                dimension,
                morphing_degree,
                n,
            ),
{
    proof {
        let base = (dimension - 1) as int * morphing_degree as int;
        assert(base <= base * (max_force_order as int + 1)) by (nonlinear_arith)
            requires
                base >= 0,
                max_force_order as int + 1 >= 1,
        ;
    }
    let base_degree: u8 = (dimension - 1) * morphing_degree;
    let mut r: Vec<u8> = Vec::new();
    let mut n: u8 = 0;
    while n <= max_force_order
        invariant
            n <= max_force_order + 1,
            max_force_order < u8::MAX,
            base_degree == (dimension - 1) * morphing_degree,
            base_degree * (max_force_order + 1) <= u8::MAX,
            r@.len() == n,
            forall|j: int|
                0 <= j < n ==> r@[j] as int == spec_max_degree_for_order(
                    max_degree,
                    dimension,
                    morphing_degree,
                    j,
                ),
        decreases max_force_order + 1 - n,
    {
        proof {
            assert(base_degree * (n + 1) <= base_degree * (max_force_order + 1))
                by (nonlinear_arith)
                requires
                    n as int + 1 <= max_force_order as int + 1,
                    base_degree >= 0,
            ;
        }
        let capped: u8 = base_degree * (n + 1);
        let entry: u8 = if capped <= max_degree {
            capped
        } else {
            max_degree
        };
        r.push(entry);
        n = n + 1;
    }
    r
}

/// Immutable recursion configuration, derived once from (max_degree,
/// max_force_order, dimension, morphing_degree).
#[derive(Debug, Clone)]
pub struct RecursionConfig {
    max_force_order: u8,
    max_degree_per_force_order: Vec<u8>,
}

impl RecursionConfig {
    /// The highest force order the recursion will reach.
    pub closed spec fn spec_max_force_order(&self) -> int {
        self.max_force_order as int
    }

    /// The degree caps, one per force order 0 ..= max_force_order.
    pub closed spec fn caps(&self) -> Seq<int> {
        self.max_degree_per_force_order@.map_values(|d: u8| d as int)
    }

    /// One cap per force order.
    pub open spec fn wf(&self) -> bool {
        self.caps().len() == self.spec_max_force_order() + 1
    }

    pub fn new(max_degree: u8, max_force_order: u8, dimension: u8, morphing_degree: u8) -> (r:
        Self)
        requires
            dimension >= 1,
            max_force_order < u8::MAX,
            (dimension - 1) * morphing_degree * (max_force_order + 1) <= u8::MAX,
        ensures
            r.wf(),
            r.spec_max_force_order() == max_force_order,
            forall|n: int|
                0 <= n < r.caps().len() ==> r.caps()[n] == spec_max_degree_for_order(
                    max_degree,
                    dimension,
                    morphing_degree,
                    n,
                ),
    {
        let max_degree_per_force_order = calculate_max_degrees_for_all_force_orders(
            max_degree,
            max_force_order,
            dimension,
            morphing_degree,
        );
        Self { max_force_order, max_degree_per_force_order }
    }

    /// The highest force order, for the caller driving the recursion.
    pub fn max_force_order(&self) -> (r: u8)
        ensures
            r == self.spec_max_force_order(),
    {
        self.max_force_order
    }

    /// The degree cap at one force order.
    pub fn max_degree_at(&self, force_order: u8) -> (r: u8)
        requires
            self.wf(),
            force_order <= self.spec_max_force_order(),
        ensures
            r == self.caps()[force_order as int],
    {
        self.max_degree_per_force_order[force_order as usize]
    }

    /// The degree range that feeds output degree `total_degree` when a parent
    /// series is convolved with one node's own series at `force_order`: each
    /// term respects its own cap and the cumulative budget, so the range is
    /// max(0, total_degree - caps[0]) ..= min(caps[force_order - 1],
    /// total_degree). An empty range (start past end) means no term
    /// contributes.
    pub fn convolution_degree_range(&self, total_degree: u8, force_order: u8) -> (r: (u8, u8))
        requires
            self.wf(),
            1 <= force_order <= self.spec_max_force_order(),
        ensures
            r.0 as int == if total_degree - self.caps()[0] >= 0 {
                total_degree - self.caps()[0]
            } else {
                0
            },
            r.1 as int == if self.caps()[force_order - 1] <= total_degree {
                self.caps()[force_order - 1]
            } else {
                total_degree as int
            },
    {
        let cap0 = self.max_degree_per_force_order[0];
        let start: u8 = if total_degree > cap0 {
            total_degree - cap0
        } else {
            0
        };
        let cap_prev = self.max_degree_per_force_order[(force_order - 1) as usize];
        let end: u8 = if cap_prev <= total_degree {
            cap_prev
        } else {
            total_degree
        };
        (start, end)
    }
}

} // verus!
