//! Symbolic block-sparse assembly: the compressed block-row structure of the
//! global stiffness matrix, built from mesh connectivity for the linear and
//! the nonlinear (higher force-order) operator, and the binary-search lookup
//! from block coordinates to flat data offsets.

use itertools::Itertools;
use vstd::prelude::*;
use crate::ranking::combo_view;
use crate::ranking::lemma_binomial_pos;
use crate::ranking::lemma_rank_in_range;
use crate::ranking::locate_block_column;
use crate::ranking::number_of_columns;
use crate::ranking::rank_fits;
use crate::ranking::spec_binomial;
use crate::ranking::spec_rank;
use crate::ranking::valid_combination;

verus! {

/// The per-element node lists as mathematical sequences.
pub open spec fn element_views(s: Seq<Vec<usize>>) -> Seq<Seq<usize>> {
    s.map_values(|v: Vec<usize>| v@)
}

/// Two nodes co-occur when some element lists them both.
pub open spec fn co_occur(els: Seq<Seq<usize>>, row: usize, col: usize) -> bool {
    exists|e: int|
        0 <= e < els.len() && (#[trigger] els[e]).contains(row) && els[e].contains(col)
}

/// Strictly increasing column indices.
pub open spec fn strictly_sorted(s: Seq<usize>) -> bool {
    forall|i: int, j: int| 0 <= i < j < s.len() ==> s[i] < s[j]
}

/// Node ids drawn without order constraint: every entry at most the next.
pub open spec fn nondecreasing(s: Seq<usize>) -> bool {
    forall|i: int, j: int| 0 <= i <= j < s.len() ==> s[i] <= s[j]
}

/// A selection of entries of `nodes` at non-decreasing positions, the first
/// position at or past `start`.
pub open spec fn is_cwr_from(c: Seq<usize>, nodes: Seq<usize>, start: int) -> bool
    decreases c.len(),
{
    if c.len() == 0 {
        true
    } else {
        exists|p: int|
            start <= p < nodes.len() && nodes[p] == c[0] && is_cwr_from(
                c.drop_first(),
                nodes,
                p,
            )
    }
}

/// A combination-with-replacement of `order` nodes of an element: an
/// order-long selection at non-decreasing positions.
pub open spec fn is_cwr(c: Seq<usize>, nodes: Seq<usize>, order: int) -> bool {
    c.len() == order && is_cwr_from(c, nodes, 0)
}

/// Some order-way combination of the element's nodes ranks to this column.
pub open spec fn cwr_column(nodes: Seq<usize>, num_node: usize, order: int, col: usize) -> bool {
    exists|c: Seq<usize>|
        #[trigger] is_cwr(c, nodes, order) && col as int == spec_rank(
            num_node as int,
            combo_view(c),
        )
}

/// Structural (pattern-only) compressed block-row layout of a block-sparse
/// matrix: row i's block columns sit at positions row_pointer[i] ..
/// row_pointer[i + 1] of block_column_index, each held as a one-entry list.
pub struct BlockSparseStructure {
    pub row_pointer: Vec<usize>,
    pub block_column_index: Vec<Vec<usize>>,
    pub block_size: (usize, usize),
    pub shape: (usize, usize),
}

/// Structural errors of the sparse-structure construction.
#[derive(Debug)]
pub enum StructureError {
    InconsistentBlocks,
}

/// A compressed block-row layout fit for binary search: monotone row
/// pointers into the column list, one column per entry, and strictly
/// increasing columns within each row.
pub open spec fn layout_wf(indptr: Seq<usize>, indices: Seq<Vec<usize>>) -> bool {
    &&& indptr.len() >= 1
    &&& indptr[0] == 0
    &&& forall|i: int| 0 <= i < indptr.len() - 1 ==> #[trigger] indptr[i] <= #[trigger] indptr[i
        + 1]
    &&& indptr[indptr.len() - 1] == indices.len()
    &&& forall|p: int| 0 <= p < indices.len() ==> (#[trigger] indices[p])@.len() == 1
    &&& forall|i: int, p: int, q: int|
        #![trigger indptr[i], indices[p], indices[q]]
        0 <= i < indptr.len() - 1 && indptr[i] <= p < q < indptr[i + 1] ==> indices[p]@[0]
            < indices[q]@[0]
}

/// Row `i` holds block column `j` somewhere in its slice.
pub open spec fn row_holds(indptr: Seq<usize>, indices: Seq<Vec<usize>>, i: usize, j: usize) -> bool {
    &&& (i as int) < indptr.len() - 1
    &&& exists|p: int|
        indptr[i as int] <= p < indptr[i as int + 1] && (#[trigger] indices[p])@[0] == j
}

impl BlockSparseStructure {
    /// The layout invariant, together with consistent block counts.
    pub open spec fn wf(&self) -> bool {
        layout_wf(self.row_pointer@, self.block_column_index@)
    }

    /// The number of block rows.
    pub open spec fn spec_row_count(&self) -> int {
        self.row_pointer@.len() - 1
    }

    /// The structure stores block (row, col).
    pub open spec fn contains_block(&self, row: usize, col: usize) -> bool {
        row_holds(self.row_pointer@, self.block_column_index@, row, col)
    }

    /// The matrix shape in scalar entries.
    pub fn shape(&self) -> (r: (usize, usize))
        ensures
            r == self.shape,
    {
        self.shape
    }

    /// The block shape.
    pub fn block_size(&self) -> (r: (usize, usize))
        ensures
            r == self.block_size,
    {
        self.block_size
    }

    /// The number of stored blocks.
    pub fn total_blocks(&self) -> (r: usize)
        ensures
            r == self.block_column_index@.len(),
    {
        self.block_column_index.len()
    }
}

/// Copies a column list.
fn copy_columns(v: &Vec<usize>) -> (r: Vec<usize>)
    ensures
        r@ == v@,
{
    let mut r: Vec<usize> = Vec::new();
    let mut i: usize = 0;
    while i < v.len()
        invariant
            i <= v@.len(),
            r@.len() == i,
            forall|j: int| 0 <= j < i ==> r@[j] == v@[j],
        decreases v@.len() - i,
    {
        r.push(v[i]);
        i = i + 1;
    }
    proof {
        assert(r@ =~= v@);
    }
    r
}

/// Membership after inserting one value: the old values plus the new one.
proof fn lemma_insert_membership(before: Seq<usize>, after: Seq<usize>, pos: int, col: usize)
    requires
        0 <= pos <= before.len(),
        after == before.insert(pos, col),
    ensures
        forall|x: usize| after.contains(x) <==> before.contains(x) || x == col,
{
    before.insert_ensures(pos, col);
    assert forall|x: usize| after.contains(x) <==> before.contains(x) || x == col by {
        if after.contains(x) {
            let p = choose|p: int| 0 <= p < after.len() && after[p] == x;
            if p < pos {
                assert(before[p] == x);
            } else if p == pos {
            } else {
                assert(before[p - 1] == x);
            }
        }
        if before.contains(x) {
            let p = choose|p: int| 0 <= p < before.len() && before[p] == x;
            if p < pos {
                assert(after[p] == x);
            } else {
                assert(after[p + 1] == x);
            }
        }
        if x == col {
            assert(after[pos] == x);
        }
    }
}

/// Inserts a block column into a sorted row if absent, by binary search and
/// insertion at the partition point.
fn insert_sorted_unique(row: Vec<usize>, col: usize) -> (r: Vec<usize>)
    requires
        strictly_sorted(row@),
    ensures
        strictly_sorted(r@),
        forall|x: usize| r@.contains(x) <==> row@.contains(x) || x == col,
{
    let mut lo: usize = 0;
    let mut hi: usize = row.len();
    while lo < hi
        invariant
            lo <= hi <= row@.len(),
            strictly_sorted(row@),
            forall|p: int| 0 <= p < lo ==> #[trigger] row@[p] < col,
            forall|p: int| hi <= p < row@.len() ==> #[trigger] row@[p] >= col,
        decreases hi - lo,
    {
        let mid = lo + (hi - lo) / 2;
        if row[mid] < col {
            proof {
                assert forall|p: int| 0 <= p < mid + 1 implies #[trigger] row@[p] < col by {
                    if p < mid {
                        assert(row@[p] < row@[mid as int]);
                    }
                }
            }
            lo = mid + 1;
        } else {
            proof {
                assert forall|p: int| mid <= p < row@.len() implies #[trigger] row@[p] >= col by {
                    if p > mid {
                        assert(row@[mid as int] < row@[p]);
                    }
                }
            }
            hi = mid;
        }
    }
    if lo < row.len() && row[lo] == col {
        proof {
            assert(row@.contains(col));
        }
        return row;
    }
    let ghost before = row@;
    let ghost pos = lo as int;
    let mut r = row;
    r.insert(lo, col);
    proof {
        before.insert_ensures(pos, col);
        lemma_insert_membership(before, r@, pos, col);
        assert forall|i: int, j: int| 0 <= i < j < r@.len() implies r@[i] < r@[j] by {
            let a: usize = if i < pos {
                before[i]
            } else if i == pos {
                col
            } else {
                before[i - 1]
            };
            let b: usize = if j < pos {
                before[j]
            } else if j == pos {
                col
            } else {
                before[j - 1]
            };
            assert(r@[i] == a && r@[j] == b);
            if pos < before.len() {
                assert(before[pos] != col);
                assert(before[pos] > col || before[pos] < col);
            }
        }
    }
    r
}

/// The row lists as mathematical sequences.
pub open spec fn row_views(s: Seq<Vec<usize>>) -> Seq<Seq<usize>> {
    s.map_values(|v: Vec<usize>| v@)
}

/// Inserts every listed column into the row, keeping it sorted and
/// duplicate-free.
fn insert_columns(row: &Vec<usize>, cols: &Vec<usize>) -> (r: Vec<usize>)
    requires
        strictly_sorted(row@),
    ensures
        strictly_sorted(r@),
        forall|x: usize| r@.contains(x) <==> row@.contains(x) || cols@.contains(x),
{
    let mut r = copy_columns(row);
    let mut b: usize = 0;
    while b < cols.len()
        invariant
            b <= cols@.len(),
            strictly_sorted(r@),
            forall|x: usize|
                r@.contains(x) <==> row@.contains(x) || exists|t: int|
                    0 <= t < b && #[trigger] cols@[t] == x,
        decreases cols@.len() - b,
    {
        r = insert_sorted_unique(r, cols[b]);
        b = b + 1;
    }
    proof {
        assert forall|x: usize| r@.contains(x) <==> row@.contains(x) || cols@.contains(x) by {
            if cols@.contains(x) {
                let t = choose|t: int| 0 <= t < cols@.len() && cols@[t] == x;
                assert(cols@[t] == x);
            }
        }
    }
    r
}

/// Adds the dense coupling of one element: every (row node, column node)
/// pair of the element's node list is inserted into the block structure.
fn add_dense_couplings(rows: Vec<Vec<usize>>, nodes: &Vec<usize>) -> (r: Vec<Vec<usize>>)
    requires
        forall|k: int| 0 <= k < nodes@.len() ==> (#[trigger] nodes@[k] as int) < rows@.len(),
        forall|i: int| 0 <= i < rows@.len() ==> strictly_sorted((#[trigger] rows@[i])@),
    ensures
        r@.len() == rows@.len(),
        forall|i: int| 0 <= i < r@.len() ==> strictly_sorted((#[trigger] r@[i])@),
        forall|rn: usize, c: usize|
            (rn as int) < r@.len() ==> (#[trigger] r@[rn as int]@.contains(c) <==> rows@[
            rn as int]@.contains(c) || (nodes@.contains(rn) && nodes@.contains(c))),
{
    let mut rows = rows;
    let ghost orig = rows@;
    let mut a: usize = 0;
    while a < nodes.len()
        invariant
            a <= nodes@.len(),
            rows@.len() == orig.len(),
            forall|k: int| 0 <= k < nodes@.len() ==> (#[trigger] nodes@[k] as int) < orig.len(),
            forall|i: int| 0 <= i < orig.len() ==> strictly_sorted((#[trigger] orig[i])@),
            forall|i: int| 0 <= i < rows@.len() ==> strictly_sorted((#[trigger] rows@[i])@),
            forall|rn: usize, c: usize|
                (rn as int) < rows@.len() ==> (#[trigger] rows@[rn as int]@.contains(c) <==> orig[
                rn as int]@.contains(c) || (exists|t: int|
                    0 <= t < a && #[trigger] nodes@[t] == rn && nodes@.contains(c))),
        decreases nodes@.len() - a,
    {
        let row_node = nodes[a];
        let merged = insert_columns(&rows[row_node], nodes);
        let ghost prior = rows@;
        rows.set(row_node, merged);
        proof {
            assert forall|rn: usize, c: usize|
                (rn as int) < rows@.len() implies (#[trigger] rows@[rn as int]@.contains(c) <==> orig[
                rn as int]@.contains(c) || (exists|t: int|
                0 <= t < a + 1 && #[trigger] nodes@[t] == rn && nodes@.contains(
                c,
            ))) by {
                if rn == row_node {
                    assert(rows@[rn as int] == merged);
                    assert(merged@.contains(c) <==> prior[rn as int]@.contains(c)
                        || nodes@.contains(c));
                    assert(prior[rn as int]@.contains(c) <==> orig[rn as int]@.contains(c) || (
                    exists|t: int|
                        0 <= t < a && #[trigger] nodes@[t] == rn && nodes@.contains(c)));
                    assert(nodes@[a as int] == rn);
                } else {
                    assert(rows@[rn as int] == prior[rn as int]);
                    assert(prior[rn as int]@.contains(c) <==> orig[rn as int]@.contains(c) || (
                    exists|t: int|
                        0 <= t < a && #[trigger] nodes@[t] == rn && nodes@.contains(c)));
                    assert(forall|t: int| 0 <= t < a + 1 && #[trigger] nodes@[t] == rn ==> t < a);
                }
            }
        }
        a = a + 1;
    }
    proof {
        assert forall|rn: usize, c: usize|
            (rn as int) < rows@.len() implies (#[trigger] rows@[rn as int]@.contains(c) <==> orig[
            rn as int]@.contains(c) || (nodes@.contains(rn) && nodes@.contains(c))) by {
            if nodes@.contains(rn) {
                let t = choose|t: int| 0 <= t < nodes@.len() && nodes@[t] == rn;
                assert(nodes@[t] == rn);
            }
        }
    }
    rows
}

/// A strictly increasing sequence of values below a bound has no more
/// entries than the bound.
proof fn lemma_sorted_len_bounded(s: Seq<usize>, bound: int)
    requires
        strictly_sorted(s),
        forall|i: int| 0 <= i < s.len() ==> (#[trigger] s[i] as int) < bound,
        0 <= bound,
    ensures
        s.len() <= bound,
{
    if s.len() > 0 {
        lemma_sorted_entry_ge_index(s, s.len() as int - 1);
    }
}

/// In a strictly increasing sequence, the entry at index i is at least i.
proof fn lemma_sorted_entry_ge_index(s: Seq<usize>, i: int)
    requires
        strictly_sorted(s),
        0 <= i < s.len(),
    ensures
        s[i] as int >= i,
    decreases i,
{
    if i > 0 {
        lemma_sorted_entry_ge_index(s, i - 1);
        assert(s[i - 1] < s[i]);
    }
}

/// Packs the per-row sorted column sets into the compressed block-row
/// layout: row pointers, and one single-column list per stored block.
fn pack_rows(rows: &Vec<Vec<usize>>, Ghost(bound): Ghost<int>) -> (r: (Vec<usize>, Vec<
    Vec<usize>,
>))
    requires
        forall|i: int| 0 <= i < rows@.len() ==> (#[trigger] rows@[i])@.len() <= bound,
        forall|i: int| 0 <= i < rows@.len() ==> strictly_sorted((#[trigger] rows@[i])@),
        0 <= bound,
        rows@.len() * bound < usize::MAX,
    ensures
        layout_wf(r.0@, r.1@),
        r.0@.len() == rows@.len() + 1,
        forall|i: int| 0 <= i < rows@.len() ==> #[trigger] r.0@[i + 1] as int == r.0@[i]
            + rows@[i]@.len(),
        forall|rn: usize, c: usize|
            (rn as int) < rows@.len() ==> (#[trigger] row_holds(r.0@, r.1@, rn, c) <==> rows@[
            rn as int]@.contains(c)),
{
    let mut indptr: Vec<usize> = Vec::new();
    let mut indices: Vec<Vec<usize>> = Vec::new();
    indptr.push(0);
    let mut i: usize = 0;
    while i < rows.len()
        invariant
            i <= rows@.len(),
            forall|t: int| 0 <= t < rows@.len() ==> (#[trigger] rows@[t])@.len() <= bound,
            forall|t: int| 0 <= t < rows@.len() ==> strictly_sorted((#[trigger] rows@[t])@),
            0 <= bound,
            rows@.len() * bound < usize::MAX,
            indptr@.len() == i + 1,
            indptr@[0] == 0,
            indptr@[i as int] == indices@.len(),
            indptr@[i as int] as int <= i * bound,
            forall|t: int| 0 <= t < i ==> #[trigger] indptr@[t + 1] as int == indptr@[t]
                + rows@[t]@.len(),
            forall|t: int| 0 <= t < i ==> #[trigger] indptr@[t] <= #[trigger] indptr@[t + 1],
            forall|t: int| 0 <= t < i ==> #[trigger] indptr@[t] + rows@[t]@.len()
                <= indices@.len(),
            forall|t: int, u: int|
                0 <= t < i && 0 <= u < rows@[t]@.len() ==> (#[trigger] indices@[indptr@[t] + u])@
                    =~= seq![rows@[t]@[u]],
            forall|p: int| 0 <= p < indices@.len() ==> (#[trigger] indices@[p])@.len() == 1,
        decreases rows@.len() - i,
    {
        proof {
            assert(i * bound + bound == (i + 1) * bound) by (nonlinear_arith);
            assert((i + 1) * bound <= rows@.len() * bound) by (nonlinear_arith)
                requires
                    i + 1 <= rows@.len(),
                    bound >= 0,
            ;
        }
        let row = &rows[i];
        let base = indptr[i];
        let mut u: usize = 0;
        while u < row.len()
            invariant
                u <= row@.len(),
                row@ == rows@[i as int]@,
                i < rows@.len(),
                base == indptr@[i as int],
                base + row@.len() < usize::MAX,
                indices@.len() == base + u,
                forall|t: int| 0 <= t < i ==> #[trigger] indptr@[t + 1] as int == indptr@[t]
                    + rows@[t]@.len(),
                indptr@.len() == i + 1,
                indptr@[0] == 0,
                forall|t: int| 0 <= t < i ==> #[trigger] indptr@[t] + rows@[t]@.len() <= base,
                forall|t: int, v: int|
                    0 <= t < i && 0 <= v < rows@[t]@.len() ==> (#[trigger] indices@[indptr@[t]
                        + v])@ =~= seq![rows@[t]@[v]],
                forall|v: int| 0 <= v < u ==> (#[trigger] indices@[base + v])@ =~= seq![row@[v]],
                forall|p: int| 0 <= p < indices@.len() ==> (#[trigger] indices@[p])@.len() == 1,
            decreases row@.len() - u,
        {
            let mut cell: Vec<usize> = Vec::new();
            cell.push(row[u]);
            let ghost prior_idx = indices@;
            indices.push(cell);
            proof {
                assert((indices@[base + u as int])@ =~= seq![row@[u as int]]);
                assert forall|t: int, v: int|
                    0 <= t < i && 0 <= v < rows@[t]@.len() implies (#[trigger] indices@[indptr@[t]
                    + v])@ =~= seq![rows@[t]@[v]] by {
                    assert(indptr@[t] + v < base);
                    assert(indices@[indptr@[t] + v] == prior_idx[indptr@[t] + v]);
                    assert((prior_idx[indptr@[t] + v])@ =~= seq![rows@[t]@[v]]);
                }
                assert forall|v: int| 0 <= v < u + 1 implies (#[trigger] indices@[base + v])@
                    =~= seq![row@[v]] by {
                    if v < u {
                        assert(indices@[base + v] == prior_idx[base + v]);
                        assert((prior_idx[base + v])@ =~= seq![row@[v]]);
                    }
                }
            }
            u = u + 1;
        }
        let next = base + row.len();
        let ghost old_indptr = indptr@;
        indptr.push(next);
        proof {
            assert(forall|t: int| 0 <= t <= i ==> #[trigger] indptr@[t] == old_indptr[t]);
            assert forall|t: int|
                0 <= t < i + 1 implies #[trigger] indptr@[t] + rows@[t]@.len()
                <= indices@.len() by {
                if t == i {
                    assert(indptr@[t] == base);
                }
            }
            assert forall|t: int, v: int|
                0 <= t < i + 1 && 0 <= v < rows@[t]@.len() implies (#[trigger] indices@[indptr@[t]
                + v])@ =~= seq![rows@[t]@[v]] by {
                if t < i {
                    assert((indices@[old_indptr[t] + v])@ =~= seq![rows@[t]@[v]]);
                } else {
                    assert(indptr@[t] == base);
                    assert((indices@[base + v])@ =~= seq![rows@[t]@[v]]);
                }
            }
        }
        i = i + 1;
    }
    proof {
        assert forall|t: int, p: int, q: int|
            #![trigger indptr@[t], indices@[p], indices@[q]]
            0 <= t < indptr@.len() - 1 && indptr@[t] <= p < q < indptr@[t + 1] implies indices@[
        p]@[0] < indices@[q]@[0] by {
            let pu = p - indptr@[t];
            let qu = q - indptr@[t];
            assert((indices@[indptr@[t] + pu])@ =~= seq![rows@[t]@[pu]]);
            assert((indices@[indptr@[t] + qu])@ =~= seq![rows@[t]@[qu]]);
            assert(rows@[t]@[pu] < rows@[t]@[qu]);
        }
        assert forall|rn: usize, c: usize|
            (rn as int) < rows@.len() implies (#[trigger] row_holds(indptr@, indices@, rn, c)
            <==> rows@[rn as int]@.contains(c)) by {
            let t = rn as int;
            if row_holds(indptr@, indices@, rn, c) {
                let p = choose|p: int|
                    indptr@[t] <= p < indptr@[t + 1] && (#[trigger] indices@[p])@[0] == c;
                let pu = p - indptr@[t];
                assert((indices@[indptr@[t] + pu])@ =~= seq![rows@[t]@[pu]]);
                assert(rows@[t]@[pu] == c);
            }
            if rows@[t]@.contains(c) {
                let pu = choose|pu: int| 0 <= pu < rows@[t]@.len() && rows@[t]@[pu] == c;
                assert((indices@[indptr@[t] + pu])@ =~= seq![rows@[t]@[pu]]);
                assert((indices@[indptr@[t] + pu])@[0] == c);
            }
        }
    }
    (indptr, indices)
}

/// Initializes the block structure of the linear stiffness matrix: for every
/// element, every (row node, column node) pair of its node list becomes one
/// dimension-square block. The numeric block data (an all-ones placeholder
/// per block) is the value store's part, not the structure's.
pub fn initialize_stiffness_matrix(
    num_node: usize,
    elements: &Vec<Vec<usize>>,
    dimension: usize,
) -> (r: Result<BlockSparseStructure, StructureError>)
    requires
        forall|e: int, k: int|
            0 <= e < elements@.len() && 0 <= k < (#[trigger] elements@[e])@.len() ==> (
            #[trigger] elements@[e]@[k] as int) < num_node,
        num_node * num_node < usize::MAX,
        num_node * dimension <= usize::MAX,
        num_node < usize::MAX,
    ensures
        r is Ok,
        ({
            let s = r->Ok_0;
            &&& s.wf()
            &&& s.spec_row_count() == num_node
            &&& s.block_size == (dimension, dimension)
            &&& s.shape == ((num_node * dimension) as usize, (num_node * dimension) as usize)
            &&& forall|row: usize, col: usize|
                #[trigger] s.contains_block(row, col) <==> co_occur(
                    element_views(elements@),
                    row,
                    col,
                )
        }),
{
    let mut rows: Vec<Vec<usize>> = Vec::new();
    let mut i: usize = 0;
    while i < num_node
        invariant
            i <= num_node,
            rows@.len() == i,
            forall|t: int| 0 <= t < i ==> (#[trigger] rows@[t])@.len() == 0,
        decreases num_node - i,
    {
        rows.push(Vec::new());
        i = i + 1;
    }
    let mut e: usize = 0;
    while e < elements.len()
        invariant
            e <= elements@.len(),
            rows@.len() == num_node,
            forall|ei: int, k: int|
                0 <= ei < elements@.len() && 0 <= k < (#[trigger] elements@[ei])@.len() ==> (
                #[trigger] elements@[ei]@[k] as int) < num_node,
            num_node * num_node < usize::MAX,
            forall|t: int| 0 <= t < rows@.len() ==> strictly_sorted((#[trigger] rows@[t])@),
            forall|rn: usize, c: usize|
                (rn as int) < rows@.len() ==> (#[trigger] rows@[rn as int]@.contains(c)
                    <==> co_occur(
                    element_views(elements@).subrange(0, e as int),
                    rn,
                    c,
                )),
            forall|rn: usize, c: usize|
                (rn as int) < rows@.len() && #[trigger] rows@[rn as int]@.contains(c) ==> (
                c as int) < num_node,
        decreases elements@.len() - e,
    {
        let ghost prior = rows@;
        let ghost prefix = element_views(elements@).subrange(0, e as int);
        rows = add_dense_couplings(rows, &elements[e]);
        proof {
            let now = element_views(elements@).subrange(0, e as int + 1);
            assert(element_views(elements@)[e as int] == elements@[e as int]@);
            assert forall|rn: usize, c: usize|
                (rn as int) < rows@.len() implies (#[trigger] rows@[rn as int]@.contains(c)
                <==> co_occur(now, rn, c)) by {
                assert(now[e as int] == elements@[e as int]@);
                assert(forall|x: int| 0 <= x < e ==> #[trigger] now[x] == prefix[x]);
                if rows@[rn as int]@.contains(c) {
                    if prior[rn as int]@.contains(c) {
                        let w = choose|w: int|
                            0 <= w < prefix.len() && (#[trigger] prefix[w]).contains(rn)
                                && prefix[w].contains(c);
                        assert(now[w].contains(rn) && now[w].contains(c));
                    } else {
                        assert(now[e as int].contains(rn) && now[e as int].contains(c));
                    }
                }
                if co_occur(now, rn, c) {
                    let w = choose|w: int|
                        0 <= w < now.len() && (#[trigger] now[w]).contains(rn) && now[w].contains(
                            c,
                        );
                    if w < e {
                        assert(prefix[w].contains(rn) && prefix[w].contains(c));
                        assert(prior[rn as int]@.contains(c));
                    } else {
                        assert(elements@[e as int]@.contains(rn) && elements@[
                            e as int]@.contains(c));
                    }
                }
            }
            assert forall|rn: usize, c: usize|
                (rn as int) < rows@.len() && #[trigger] rows@[rn as int]@.contains(c) implies (
            c as int) < num_node by {
                if !prior[rn as int]@.contains(c) {
                    let k = choose|k: int|
                        0 <= k < elements@[e as int]@.len() && elements@[e as int]@[k] == c;
                    assert(elements@[e as int]@[k] == c);
                }
            }
        }
        e = e + 1;
    }
    proof {
        assert(element_views(elements@).subrange(0, elements@.len() as int) =~= element_views(
            elements@,
        ));
        assert forall|t: int| 0 <= t < rows@.len() implies (#[trigger] rows@[t])@.len()
            <= num_node by {
            assert forall|ii: int| 0 <= ii < rows@[t]@.len() implies (#[trigger] rows@[t]@[
            ii] as int) < num_node by {
                assert(rows@[t]@.contains(rows@[t]@[ii]));
                assert(rows@[(t as usize) as int]@.contains(rows@[t]@[ii]));
            }
            lemma_sorted_len_bounded(rows@[t]@, num_node as int);
        }
    }
    let (row_pointer, block_column_index) = pack_rows(&rows, Ghost(num_node as int));
    proof {
        let els = element_views(elements@);
        assert forall|row: usize, col: usize| #[trigger] row_holds(
            row_pointer@,
            block_column_index@,
            row,
            col,
        ) <==> co_occur(els, row, col) by {
            if (row as int) < num_node {
                assert(row_holds(row_pointer@, block_column_index@, row, col) <==> rows@[
                row as int]@.contains(col));
            } else {
                assert(!row_holds(row_pointer@, block_column_index@, row, col));
                if co_occur(els, row, col) {
                    let w = choose|w: int|
                        0 <= w < els.len() && (#[trigger] els[w]).contains(row) && els[w].contains(
                            col,
                        );
                    let k = choose|k: int| 0 <= k < els[w].len() && els[w][k] == row;
                    assert(els[w] == elements@[w]@);
                    assert(elements@[w]@[k] == row);
                }
            }
        }
    }
    let block_size = (dimension, dimension);
    let shape = (num_node * dimension, num_node * dimension);
    Ok(BlockSparseStructure { row_pointer, block_column_index, block_size, shape })
}

/// Given the BSR layout of a stiffness matrix and a list of block positions
/// (i, j), returns the corresponding flat data indices: binary search within
/// each row's sorted column slice, absence for rows out of range or columns
/// not stored.
pub fn get_data_indices_from_block_positions_binary_search(
    indptr: &Vec<usize>,
    indices: &Vec<Vec<usize>>,
    list_of_indices: &Vec<(usize, usize)>,
) -> (r: Vec<Option<usize>>)
    requires
        layout_wf(indptr@, indices@),
    ensures
        r@.len() == list_of_indices@.len(),
        forall|q: int|
            0 <= q < r@.len() ==> ((#[trigger] r@[q]) is Some <==> row_holds(
                indptr@,
                indices@,
                list_of_indices@[q].0,
                list_of_indices@[q].1,
            )),
        forall|q: int|
            0 <= q < r@.len() ==> ((#[trigger] r@[q]) matches Some(p) ==> indptr@[list_of_indices@[
                q].0 as int] <= p < indptr@[list_of_indices@[q].0 as int + 1] && indices@[
                p as int]@[0] == list_of_indices@[q].1),
{
    let mut r: Vec<Option<usize>> = Vec::new();
    let mut q: usize = 0;
    while q < list_of_indices.len()
        invariant
            q <= list_of_indices@.len(),
            layout_wf(indptr@, indices@),
            r@.len() == q,
            forall|t: int|
                0 <= t < q ==> ((#[trigger] r@[t]) is Some <==> row_holds(
                    indptr@,
                    indices@,
                    list_of_indices@[t].0,
                    list_of_indices@[t].1,
                )),
            forall|t: int|
                0 <= t < q ==> ((#[trigger] r@[t]) matches Some(p) ==> indptr@[list_of_indices@[
                    t].0 as int] <= p < indptr@[list_of_indices@[t].0 as int + 1] && indices@[
                    p as int]@[0] == list_of_indices@[t].1),
        decreases list_of_indices@.len() - q,
    {
        let (i, j) = list_of_indices[q];
        if i >= indptr.len() - 1 {
            r.push(None);
            q = q + 1;
            continue ;
        }
        let row_start = indptr[i];
        let row_end = indptr[i + 1];
        proof {
            assert(indptr@[i as int] <= indptr@[i as int + 1]);
            lemma_row_end_in_bounds(indptr@, indices@, i as int);
        }
        let mut lo: usize = row_start;
        let mut hi: usize = row_end;
        let mut found: Option<usize> = None;
        while lo < hi && found.is_none()
            invariant
                layout_wf(indptr@, indices@),
                (i as int) < indptr@.len() - 1,
                row_start == indptr@[i as int],
                row_end == indptr@[i as int + 1],
                row_end <= indices@.len(),
                row_start <= lo <= hi <= row_end,
                found matches Some(p) ==> row_start <= p < row_end && indices@[p as int]@[0] == j,
                found is None ==> forall|p: int|
                    row_start <= p < lo ==> (#[trigger] indices@[p])@[0] < j,
                found is None ==> forall|p: int|
                    hi <= p < row_end ==> (#[trigger] indices@[p])@[0] > j,
            decreases hi - lo + (if found is None { 1int } else { 0int }),
        {
            let mid = lo + (hi - lo) / 2;
            let probe = indices[mid][0];
            if probe < j {
                proof {
                    assert forall|p: int| row_start <= p < mid + 1 implies (
                    #[trigger] indices@[p])@[0] < j by {
                        if p < mid {
                            assert(indices@[p]@[0] < indices@[mid as int]@[0]);
                        }
                    }
                }
                lo = mid + 1;
            } else if probe > j {
                proof {
                    assert forall|p: int| mid <= p < row_end implies (#[trigger] indices@[p])@[0]
                        > j by {
                        if p > mid {
                            assert(indices@[mid as int]@[0] < indices@[p]@[0]);
                        }
                    }
                }
                hi = mid;
            } else {
                found = Some(mid);
            }
        }
        proof {
            if found is None {
                assert forall|p: int|
                    row_start <= p < row_end implies (#[trigger] indices@[p])@[0] != j by {
                    if p < lo {
                        assert(indices@[p]@[0] < j);
                    } else {
                        assert(indices@[p]@[0] > j);
                    }
                }
            }
        }
        r.push(found);
        q = q + 1;
    }
    r
}

/// Within a well-formed layout, each row's end pointer stays within the
/// column list.
proof fn lemma_row_end_in_bounds(indptr: Seq<usize>, indices: Seq<Vec<usize>>, i: int)
    requires
        layout_wf(indptr, indices),
        0 <= i < indptr.len() - 1,
    ensures
        indptr[i + 1] <= indices.len(),
        indptr[i] <= indptr[i + 1],
    decreases indptr.len() - i,
{
    if i + 1 == indptr.len() - 1 {
        assert(indptr[i + 1] == indices.len());
    } else {
        lemma_row_end_in_bounds(indptr, indices, i + 1);
    }
}

/// Block-sparse structure round trip: the binary-search lookup on a
/// structure whose pattern is exactly the co-occurrence relation of the mesh
/// hits a block position if and only if its nodes co-occur in some element.
pub proof fn lemma_block_structure_round_trip(
    s: BlockSparseStructure,
    elements: Seq<Vec<usize>>,
    row: usize,
    col: usize,
)
    requires
        s.wf(),
        forall|r2: usize, c2: usize|
            #[trigger] s.contains_block(r2, c2) <==> co_occur(element_views(elements), r2, c2),
    ensures
        row_holds(s.row_pointer@, s.block_column_index@, row, col) <==> co_occur(
            element_views(elements),
            row,
            col,
        ),
{
    assert(s.contains_block(row, col) <==> co_occur(element_views(elements), row, col));
}

/// Relies on itertools' combinations_with_replacement: it yields exactly the
/// selections of `order` entries of the input taken at non-decreasing
/// positions, in lexicographic order of positions.
#[verifier::external_body]
fn combinations_with_replacement(nodes: &Vec<usize>, order: usize) -> (r: Vec<Vec<usize>>)
    ensures
        forall|t: int| 0 <= t < r@.len() ==> is_cwr((#[trigger] r@[t])@, nodes@, order as int),
        forall|c: Seq<usize>|
            is_cwr(c, nodes@, order as int) ==> exists|t: int|
                0 <= t < r@.len() && (#[trigger] r@[t])@ == c,
{
    nodes.iter().combinations_with_replacement(order).map(
        |c| c.into_iter().copied().collect(),
    ).collect()
}

/// A combination drawn from a non-decreasing node list with ids below the
/// bound is itself a valid sorted combination below the bound.
proof fn lemma_cwr_valid(c: Seq<usize>, nodes: Seq<usize>, start: int, bound: int)
    requires
        is_cwr_from(c, nodes, start),
        nondecreasing(nodes),
        forall|k: int| 0 <= k < nodes.len() ==> (#[trigger] nodes[k] as int) < bound,
        0 <= start,
    ensures
        valid_combination(bound, combo_view(c)),
    decreases c.len(),
{
    if c.len() > 0 {
        let p = choose|p: int|
            start <= p < nodes.len() && nodes[p] == c[0] && is_cwr_from(c.drop_first(), nodes, p);
        lemma_cwr_valid(c.drop_first(), nodes, p, bound);
        let cv = combo_view(c);
        let tv = combo_view(c.drop_first());
        assert(tv =~= cv.drop_first());
        assert(cv[0] == c[0]);
        if c.len() >= 2 {
            let p2 = choose|p2: int|
                p <= p2 < nodes.len() && nodes[p2] == c.drop_first()[0] && is_cwr_from(
                    c.drop_first().drop_first(),
                    nodes,
                    p2,
                );
            assert(nodes[p] <= nodes[p2]);
            assert(cv[1] == c.drop_first()[0]);
        }
        assert forall|t: int, u: int| 0 <= t <= u < cv.len() implies #[trigger] cv[t]
            <= #[trigger] cv[u] by {
            if t == 0 {
                if u > 0 {
                    assert(tv[0] <= tv[u - 1]);
                    assert(cv[u] == tv[u - 1]);
                }
            } else {
                assert(tv[t - 1] <= tv[u - 1]);
                assert(cv[t] == tv[t - 1] && cv[u] == tv[u - 1]);
            }
        }
        assert forall|t: int| 0 <= t < cv.len() implies 0 <= #[trigger] cv[t] < bound by {
            if t > 0 {
                assert(0 <= tv[t - 1] < bound);
                assert(cv[t] == tv[t - 1]);
            }
        }
    }
}

/// Adds the nonlinear coupling of one element: every node of the element
/// rows against the rank of every order-way combination-with-replacement of
/// the element's nodes.
fn add_combination_couplings(
    rows: Vec<Vec<usize>>,
    nodes: &Vec<usize>,
    num_node: usize,
    order: usize,
) -> (r: Vec<Vec<usize>>)
    requires
        forall|k: int| 0 <= k < nodes@.len() ==> (#[trigger] nodes@[k] as int) < rows@.len(),
        forall|k: int| 0 <= k < nodes@.len() ==> (#[trigger] nodes@[k] as int) < num_node,
        nondecreasing(nodes@),
        forall|i: int| 0 <= i < rows@.len() ==> strictly_sorted((#[trigger] rows@[i])@),
        order >= 1,
        rank_fits(num_node as int, order as int),
    ensures
        r@.len() == rows@.len(),
        forall|i: int| 0 <= i < r@.len() ==> strictly_sorted((#[trigger] r@[i])@),
        forall|rn: usize, c: usize|
            (rn as int) < r@.len() ==> (#[trigger] r@[rn as int]@.contains(c) <==> rows@[
            rn as int]@.contains(c) || (nodes@.contains(rn) && cwr_column(
                nodes@,
                num_node,
                order as int,
                c,
            ))),
{
    let combos = combinations_with_replacement(nodes, order);
    let mut rows = rows;
    let ghost orig = rows@;
    let mut a: usize = 0;
    while a < nodes.len()
        invariant
            a <= nodes@.len(),
            rows@.len() == orig.len(),
            forall|k: int| 0 <= k < nodes@.len() ==> (#[trigger] nodes@[k] as int) < orig.len(),
            forall|k: int| 0 <= k < nodes@.len() ==> (#[trigger] nodes@[k] as int) < num_node,
            nondecreasing(nodes@),
            order >= 1,
            rank_fits(num_node as int, order as int),
            forall|t: int|
                0 <= t < combos@.len() ==> is_cwr((#[trigger] combos@[t])@, nodes@, order as int),
            forall|c: Seq<usize>|
                is_cwr(c, nodes@, order as int) ==> exists|t: int|
                    0 <= t < combos@.len() && (#[trigger] combos@[t])@ == c,
            forall|i: int| 0 <= i < orig.len() ==> strictly_sorted((#[trigger] orig[i])@),
            forall|i: int| 0 <= i < rows@.len() ==> strictly_sorted((#[trigger] rows@[i])@),
            forall|rn: usize, c: usize|
                (rn as int) < rows@.len() ==> (#[trigger] rows@[rn as int]@.contains(c) <==> orig[
                rn as int]@.contains(c) || (exists|t: int|
                    0 <= t < a && #[trigger] nodes@[t] == rn && cwr_column(
                        nodes@,
                        num_node,
                        order as int,
                        c,
                    ))),
        decreases nodes@.len() - a,
    {
        let row_node = nodes[a];
        let mut row = copy_columns(&rows[row_node]);
        let ghost row_was = row@;
        let mut t: usize = 0;
        while t < combos.len()
            invariant
                t <= combos@.len(),
                num_node >= 1,
                order >= 1,
                rank_fits(num_node as int, order as int),
                nondecreasing(nodes@),
                forall|k: int| 0 <= k < nodes@.len() ==> (#[trigger] nodes@[k] as int) < num_node,
                forall|t2: int|
                    0 <= t2 < combos@.len() ==> is_cwr(
                        (#[trigger] combos@[t2])@,
                        nodes@,
                        order as int,
                    ),
                strictly_sorted(row@),
                forall|c: usize|
                    #[trigger] row@.contains(c) <==> row_was.contains(c) || exists|t2: int|
                        0 <= t2 < t && c as int == spec_rank(
                            num_node as int,
                            combo_view((#[trigger] combos@[t2])@),
                        ),
            decreases combos@.len() - t,
        {
            proof {
                assert(is_cwr(combos@[t as int]@, nodes@, order as int));
                lemma_cwr_valid(combos@[t as int]@, nodes@, 0, num_node as int);
            }
            let col = locate_block_column(num_node, &combos[t]);
            let ghost row_prev = row@;
            row = insert_sorted_unique(row, col);
            proof {
                assert forall|c: usize|
                    #[trigger] row@.contains(c) <==> row_was.contains(c) || exists|t2: int|
                        0 <= t2 < t + 1 && c as int == spec_rank(
                            num_node as int,
                            combo_view((#[trigger] combos@[t2])@),
                        ) by {
                    if row@.contains(c) && !row_prev.contains(c) {
                        assert(c as int == spec_rank(
                            num_node as int,
                            combo_view(combos@[t as int]@),
                        ));
                    }
                    if c == col {
                        assert(c as int == spec_rank(
                            num_node as int,
                            combo_view(combos@[t as int]@),
                        ));
                    }
                }
            }
            t = t + 1;
        }
        let ghost prior = rows@;
        rows.set(row_node, row);
        proof {
            assert forall|rn: usize, c: usize|
                (rn as int) < rows@.len() implies (#[trigger] rows@[rn as int]@.contains(c)
                <==> orig[rn as int]@.contains(c) || (exists|t2: int|
                0 <= t2 < a + 1 && #[trigger] nodes@[t2] == rn && cwr_column(
                    nodes@,
                    num_node,
                    order as int,
                    c,
                ))) by {
                if rn == row_node {
                    assert(rows@[rn as int]@ == row@);
                    assert(row@.contains(c) <==> row_was.contains(c) || exists|t2: int|
                        0 <= t2 < combos@.len() && c as int == spec_rank(
                            num_node as int,
                            combo_view((#[trigger] combos@[t2])@),
                        ));
                    assert(row_was == prior[rn as int]@);
                    assert(prior[rn as int]@.contains(c) <==> orig[rn as int]@.contains(c) || (
                    exists|t2: int|
                        0 <= t2 < a && #[trigger] nodes@[t2] == rn && cwr_column(
                            nodes@,
                            num_node,
                            order as int,
                            c,
                        )));
                    assert(nodes@[a as int] == rn);
                    // The listed combinations are exactly the
                    // combinations-with-replacement, so the two existentials
                    // agree.
                    if exists|t2: int|
                        0 <= t2 < combos@.len() && c as int == spec_rank(
                            num_node as int,
                            combo_view((#[trigger] combos@[t2])@),
                        ) {
                        let t2 = choose|t2: int|
                            0 <= t2 < combos@.len() && c as int == spec_rank(
                                num_node as int,
                                combo_view((#[trigger] combos@[t2])@),
                            );
                        assert(is_cwr(combos@[t2]@, nodes@, order as int));
                        assert(cwr_column(nodes@, num_node, order as int, c));
                    }
                    if cwr_column(nodes@, num_node, order as int, c) {
                        let cc = choose|cc: Seq<usize>|
                            #[trigger] is_cwr(cc, nodes@, order as int) && c as int == spec_rank(
                                num_node as int,
                                combo_view(cc),
                            );
                        let t2 = choose|t2: int|
                            0 <= t2 < combos@.len() && (#[trigger] combos@[t2])@ == cc;
                        assert(c as int == spec_rank(num_node as int, combo_view(combos@[t2]@)));
                    }
                } else {
                    assert(rows@[rn as int] == prior[rn as int]);
                    assert(prior[rn as int]@.contains(c) <==> orig[rn as int]@.contains(c) || (
                    exists|t2: int|
                        0 <= t2 < a && #[trigger] nodes@[t2] == rn && cwr_column(
                            nodes@,
                            num_node,
                            order as int,
                            c,
                        )));
                    assert(forall|t2: int| 0 <= t2 < a + 1 && #[trigger] nodes@[t2] == rn ==> t2
                        < a);
                }
            }
        }
        a = a + 1;
    }
    proof {
        assert forall|rn: usize, c: usize|
            (rn as int) < rows@.len() implies (#[trigger] rows@[rn as int]@.contains(c) <==> orig[
            rn as int]@.contains(c) || (nodes@.contains(rn) && cwr_column(
                nodes@,
                num_node,
                order as int,
                c,
            ))) by {
            if nodes@.contains(rn) {
                let t = choose|t: int| 0 <= t < nodes@.len() && nodes@[t] == rn;
                assert(nodes@[t] == rn);
            }
        }
    }
    rows
}

/// Some element lists the row node, and the column is the rank of one of
/// its order-way node combinations: the nonlinear coupling pattern.
pub open spec fn nonlinear_co_occur(
    els: Seq<Seq<usize>>,
    num_node: usize,
    order: int,
    row: usize,
    col: usize,
) -> bool {
    exists|e: int|
        0 <= e < els.len() && (#[trigger] els[e]).contains(row) && cwr_column(
            els[e],
            num_node,
            order,
            col,
        )
}

/// The exponent-by-repeated-multiplication of the block dimension.
fn dimension_power(base: usize, exp: usize) -> (r: usize)
    requires
        base >= 1,
        vstd::arithmetic::power::pow(base as int, exp as nat) <= usize::MAX,
    ensures
        r as int == vstd::arithmetic::power::pow(base as int, exp as nat),
{
    let mut acc: usize = 1;
    let mut t: usize = 0;
    proof {
        vstd::arithmetic::power::lemma_pow0(base as int);
    }
    while t < exp
        invariant
            t <= exp,
            base >= 1,
            vstd::arithmetic::power::pow(base as int, exp as nat) <= usize::MAX,
            acc as int == vstd::arithmetic::power::pow(base as int, t as nat),
        decreases exp - t,
    {
        proof {
            vstd::arithmetic::power::lemma_pow_increases(base as nat, (t + 1) as nat, exp as nat);
            vstd::arithmetic::power::lemma_pow_adds(base as int, t as nat, 1);
            vstd::arithmetic::power::lemma_pow1(base as int);
            assert(vstd::arithmetic::power::pow(base as int, (t + 1) as nat)
                == vstd::arithmetic::power::pow(base as int, t as nat) * base as int);
        }
        acc = acc * base;
        t = t + 1;
    }
    acc
}

/// Initializes the block structure of the nonlinear stiffness matrix: for
/// every element, every node rows against every order-way
/// combination-with-replacement of the element's nodes, mapped to its column
/// block by the combinatorial ranking. Each element's node list must be
/// non-decreasing, since the ranking addresses sorted combinations. Block
/// shape is (dimension, dimension^order); the all-ones placeholder data is
/// the value store's part.
pub fn initialize_nonlinear_stiffness_matrix(
    num_node: usize,
    elements: &Vec<Vec<usize>>,
    dimension: usize,
    order: usize,
) -> (r: Result<BlockSparseStructure, StructureError>)
    requires
        num_node >= 1,
        order >= 1,
        dimension >= 1,
        forall|e: int, k: int|
            0 <= e < elements@.len() && 0 <= k < (#[trigger] elements@[e])@.len() ==> (
            #[trigger] elements@[e]@[k] as int) < num_node,
        forall|e: int| 0 <= e < elements@.len() ==> nondecreasing((#[trigger] elements@[e])@),
        rank_fits(num_node as int, order as int),
        order == 2 ==> num_node * (num_node + 1) <= usize::MAX,
        num_node * spec_binomial((num_node + order - 1) as nat, order as nat) < usize::MAX,
        vstd::arithmetic::power::pow(dimension as int, order as nat) <= usize::MAX,
        spec_binomial((num_node + order - 1) as nat, order as nat)
            * vstd::arithmetic::power::pow(dimension as int, order as nat) <= usize::MAX,
        num_node * dimension <= usize::MAX,
        num_node < usize::MAX,
    ensures
        r is Ok,
        ({
            let s = r->Ok_0;
            let cols = spec_binomial((num_node + order - 1) as nat, order as nat);
            let bcol = vstd::arithmetic::power::pow(dimension as int, order as nat);
            &&& s.wf()
            &&& s.spec_row_count() == num_node
            &&& s.block_size.0 == dimension && s.block_size.1 as int == bcol
            &&& s.shape.0 as int == num_node * dimension && s.shape.1 as int == cols * bcol
            &&& forall|row: usize, col: usize|
                #[trigger] s.contains_block(row, col) <==> nonlinear_co_occur(
                    element_views(elements@),
                    num_node,
                    order as int,
                    row,
                    col,
                )
        }),
{
    let ghost total_cols = spec_binomial((num_node + order - 1) as nat, order as nat);
    let mut rows: Vec<Vec<usize>> = Vec::new();
    let mut i: usize = 0;
    while i < num_node
        invariant
            i <= num_node,
            rows@.len() == i,
            forall|t: int| 0 <= t < i ==> (#[trigger] rows@[t])@.len() == 0,
        decreases num_node - i,
    {
        rows.push(Vec::new());
        i = i + 1;
    }
    let mut e: usize = 0;
    while e < elements.len()
        invariant
            e <= elements@.len(),
            rows@.len() == num_node,
            num_node >= 1,
            order >= 1,
            rank_fits(num_node as int, order as int),
            total_cols == spec_binomial((num_node + order - 1) as nat, order as nat),
            forall|ei: int, k: int|
                0 <= ei < elements@.len() && 0 <= k < (#[trigger] elements@[ei])@.len() ==> (
                #[trigger] elements@[ei]@[k] as int) < num_node,
            forall|ei: int| 0 <= ei < elements@.len() ==> nondecreasing(
                (#[trigger] elements@[ei])@,
            ),
            forall|t: int| 0 <= t < rows@.len() ==> strictly_sorted((#[trigger] rows@[t])@),
            forall|rn: usize, c: usize|
                (rn as int) < rows@.len() ==> (#[trigger] rows@[rn as int]@.contains(c)
                    <==> nonlinear_co_occur(
                    element_views(elements@).subrange(0, e as int),
                    num_node,
                    order as int,
                    rn,
                    c,
                )),
            forall|rn: usize, c: usize|
                (rn as int) < rows@.len() && #[trigger] rows@[rn as int]@.contains(c) ==> (
                c as int) < total_cols,
        decreases elements@.len() - e,
    {
        let ghost prior = rows@;
        let ghost prefix = element_views(elements@).subrange(0, e as int);
        rows = add_combination_couplings(rows, &elements[e], num_node, order);
        proof {
            let now = element_views(elements@).subrange(0, e as int + 1);
            assert(element_views(elements@)[e as int] == elements@[e as int]@);
            assert forall|rn: usize, c: usize|
                (rn as int) < rows@.len() implies (#[trigger] rows@[rn as int]@.contains(c)
                <==> nonlinear_co_occur(now, num_node, order as int, rn, c)) by {
                assert(now[e as int] == elements@[e as int]@);
                assert(forall|x: int| 0 <= x < e ==> #[trigger] now[x] == prefix[x]);
                if rows@[rn as int]@.contains(c) {
                    if prior[rn as int]@.contains(c) {
                        let w = choose|w: int|
                            0 <= w < prefix.len() && (#[trigger] prefix[w]).contains(rn)
                                && cwr_column(prefix[w], num_node, order as int, c);
                        assert(now[w].contains(rn) && cwr_column(
                            now[w],
                            num_node,
                            order as int,
                            c,
                        ));
                    } else {
                        assert(now[e as int].contains(rn) && cwr_column(
                            now[e as int],
                            num_node,
                            order as int,
                            c,
                        ));
                    }
                }
                if nonlinear_co_occur(now, num_node, order as int, rn, c) {
                    let w = choose|w: int|
                        0 <= w < now.len() && (#[trigger] now[w]).contains(rn) && cwr_column(
                            now[w],
                            num_node,
                            order as int,
                            c,
                        );
                    if w < e {
                        assert(prefix[w].contains(rn) && cwr_column(
                            prefix[w],
                            num_node,
                            order as int,
                            c,
                        ));
                        assert(prior[rn as int]@.contains(c));
                    } else {
                        assert(elements@[e as int]@.contains(rn) && cwr_column(
                            elements@[e as int]@,
                            num_node,
                            order as int,
                            c,
                        ));
                    }
                }
            }
            assert forall|rn: usize, c: usize|
                (rn as int) < rows@.len() && #[trigger] rows@[rn as int]@.contains(c) implies (
            c as int) < total_cols by {
                if !prior[rn as int]@.contains(c) {
                    let cc = choose|cc: Seq<usize>|
                        #[trigger] is_cwr(cc, elements@[e as int]@, order as int) && c as int
                            == spec_rank(num_node as int, combo_view(cc));
                    lemma_cwr_valid(cc, elements@[e as int]@, 0, num_node as int);
                    lemma_rank_in_range(num_node as int, combo_view(cc));
                }
            }
        }
        e = e + 1;
    }
    proof {
        assert(element_views(elements@).subrange(0, elements@.len() as int) =~= element_views(
            elements@,
        ));
        lemma_binomial_pos((num_node + order - 1) as nat, order as nat);
        assert forall|t: int| 0 <= t < rows@.len() implies (#[trigger] rows@[t])@.len()
            <= total_cols by {
            assert forall|ii: int| 0 <= ii < rows@[t]@.len() implies (#[trigger] rows@[t]@[
            ii] as int) < total_cols by {
                assert(rows@[t]@.contains(rows@[t]@[ii]));
                assert(rows@[(t as usize) as int]@.contains(rows@[t]@[ii]));
            }
            lemma_sorted_len_bounded(rows@[t]@, total_cols as int);
        }
    }
    let (row_pointer, block_column_index) = pack_rows(&rows, Ghost(total_cols as int));
    proof {
        let els = element_views(elements@);
        assert forall|row: usize, col: usize| #[trigger] row_holds(
            row_pointer@,
            block_column_index@,
            row,
            col,
        ) <==> nonlinear_co_occur(els, num_node, order as int, row, col) by {
            if (row as int) < num_node {
                assert(row_holds(row_pointer@, block_column_index@, row, col) <==> rows@[
                row as int]@.contains(col));
            } else {
                assert(!row_holds(row_pointer@, block_column_index@, row, col));
                if nonlinear_co_occur(els, num_node, order as int, row, col) {
                    let w = choose|w: int|
                        0 <= w < els.len() && (#[trigger] els[w]).contains(row) && cwr_column(
                            els[w],
                            num_node,
                            order as int,
                            col,
                        );
                    let k = choose|k: int| 0 <= k < els[w].len() && els[w][k] == row;
                    assert(els[w] == elements@[w]@);
                    assert(elements@[w]@[k] == row);
                }
            }
        }
    }
    let block_col_size = dimension_power(dimension, order);
    let total_column_blocks = number_of_columns(num_node, order);
    proof {
        if order == 3 {
            assert(num_node * (num_node + 1) * (num_node + 2) <= usize::MAX);
        }
        assert(total_column_blocks as int * block_col_size as int == total_cols
            * vstd::arithmetic::power::pow(dimension as int, order as nat));
    }
    let block_size = (dimension, block_col_size);
    let shape = (num_node * dimension, total_column_blocks * block_col_size);
    Ok(BlockSparseStructure { row_pointer, block_column_index, block_size, shape })
}

} // verus!
