//! Mesh connectivity lookup with elements kept in file order: the same
//! local-to-global translation and pair enumeration as the sorted variant,
//! answered by a linear scan over the element ids, plus a node-to-elements
//! back reference.

use vstd::prelude::*;
use crate::locate_nodes_o_log_n::all_pairs;
use crate::locate_nodes_o_log_n::entry_views;
use crate::locate_nodes_o_log_n::max_bounds;

verus! {

/// Errors of the mesh connectivity lookup, one variant per boundary so that
/// callers can discriminate the cause.
#[derive(Debug)]
pub enum MeshError {
    IoError(String),
    ParseError(String),
    ElementNotFound(u32),
    InvalidLocalNode(u8),
    NodeOutOfRange(u8),
}

/// Mesh connectivity in input order, with a per-node list of the elements
/// that reference the node.
#[derive(Debug, Clone)]
pub struct MeshNodeConverter {
    elements: Vec<(u32, Vec<u32>)>,
    node_to_elements: Vec<Vec<(u32, u8)>>,
    max_node_id: u32,
    num_elements: usize,
}

impl MeshNodeConverter {
    /// The stored (element id, node list) pairs, in input order.
    pub closed spec fn entries(&self) -> Seq<(u32, Seq<u32>)> {
        entry_views(self.elements@)
    }

    /// The node list of the element stored at position i.
    pub open spec fn nodes_at(&self, i: int) -> Seq<u32> {
        self.entries()[i].1
    }

    /// The largest node id of the mesh, 0 when there are no nodes.
    pub closed spec fn spec_max_node_id(&self) -> u32 {
        self.max_node_id
    }

    pub closed spec fn spec_num_elements(&self) -> int {
        self.num_elements as int
    }

    /// Counts consistent and the maximum attained.
    pub open spec fn wf(&self) -> bool {
        &&& self.spec_num_elements() == self.entries().len()
        &&& max_bounds(self.entries(), self.spec_max_node_id())
    }

    /// Some stored element has this id.
    pub open spec fn has_element(&self, element_id: u32) -> bool {
        exists|i: int|
            0 <= i < self.entries().len() && (#[trigger] self.entries()[i]).0 == element_id
    }

    /// The first `q` answers list, per requested element id, the node list
    /// stored for that id.
    pub open spec fn listed_nodes_ok(
        &self,
        result: Seq<(u32, Vec<u32>)>,
        element_ids: Seq<u32>,
        q: int,
    ) -> bool {
        forall|t: int|
            0 <= t < q ==> (#[trigger] result[t]).0 == element_ids[t] && exists|i: int|
                0 <= i < self.entries().len() && (#[trigger] self.entries()[i]).0 == element_ids[t]
                    && result[t].1@ == self.nodes_at(i)
    }

    /// The first `q` answers list, per requested element id, all ordered
    /// node pairs of the element stored for that id.
    pub open spec fn listed_pairs_ok(
        &self,
        result: Seq<(u32, Vec<(u32, u32)>)>,
        element_ids: Seq<u32>,
        q: int,
    ) -> bool {
        forall|t: int|
            0 <= t < q ==> (#[trigger] result[t]).0 == element_ids[t] && exists|i: int|
                0 <= i < self.entries().len() && (#[trigger] self.entries()[i]).0 == element_ids[t]
                    && result[t].1@ == all_pairs(self.nodes_at(i))
    }

    /// Builds the converter from the parsed connectivity entries, keeping
    /// them in input order and recording, per node, which elements carry it
    /// at which local position. Local positions are numbered in a byte and
    /// the per-node table is indexed by id, so elements are capped at 256
    /// nodes and ids below the largest 32-bit value. Reading and parsing the
    /// connectivity file is the caller's part.
    pub fn new(entries: Vec<(u32, Vec<u32>)>) -> (r: Result<Self, MeshError>)
        requires
            forall|e: int| 0 <= e < entries@.len() ==> (#[trigger] entries@[e]).1@.len() <= 256,
            forall|e: int, k: int|
                0 <= e < entries@.len() && 0 <= k < entries@[e].1@.len()
                    ==> #[trigger] entries@[e].1@[k] < 0xffffffffu32,
        ensures
            r is Ok,
            ({
                let c = r->Ok_0;
                &&& c.wf()
                &&& c.entries() == entry_views(entries@)
            }),
    {
        let mut max_node_id: u32 = 0;
        let mut e: usize = 0;
        while e < entries.len()
            invariant
                e <= entries@.len(),
                forall|t: int, k: int|
                    0 <= t < e && 0 <= k < entries@[t].1@.len() ==> #[trigger] entries@[t].1@[k]
                        <= max_node_id,
                max_node_id == 0 || exists|t: int, k: int|
                    0 <= t < e && 0 <= k < entries@[t].1@.len() && #[trigger] entries@[t].1@[k]
                        == max_node_id,
            decreases entries@.len() - e,
        {
            let node_ids = &entries[e].1;
            let mut k: usize = 0;
            let ghost max_before = max_node_id;
            while k < node_ids.len()
                invariant
                    k <= node_ids@.len(),
                    node_ids@ == entries@[e as int].1@,
                    e < entries@.len(),
                    max_before <= max_node_id,
                    forall|t: int| 0 <= t < k ==> #[trigger] node_ids@[t] <= max_node_id,
                    max_node_id == max_before || exists|t: int|
                        0 <= t < k && #[trigger] node_ids@[t] == max_node_id,
                    forall|t: int, u: int|
                        0 <= t < e && 0 <= u < entries@[t].1@.len() ==> #[trigger] entries@[
                        t].1@[u] <= max_node_id,
                    max_before == 0 || exists|t: int, u: int|
                        0 <= t < e && 0 <= u < entries@[t].1@.len() && #[trigger] entries@[t].1@[u]
                            == max_before,
                decreases node_ids@.len() - k,
            {
                if node_ids[k] > max_node_id {
                    max_node_id = node_ids[k];
                }
                k = k + 1;
            }
            e = e + 1;
        }

        // Per-node back reference: which elements carry the node, and at
        // which local position.
        let mut node_to_elements: Vec<Vec<(u32, u8)>> = Vec::new();
        let mut filled: usize = 0;
        let target: usize = max_node_id as usize + 1;
        while filled < target
            invariant
                filled <= target,
                node_to_elements@.len() == filled,
            decreases target - filled,
        {
            node_to_elements.push(Vec::new());
            filled = filled + 1;
        }
        let mut e2: usize = 0;
        while e2 < entries.len()
            invariant
                e2 <= entries@.len(),
                node_to_elements@.len() == target,
                target == max_node_id as usize + 1,
                forall|t: int, k: int|
                    0 <= t < entries@.len() && 0 <= k < entries@[t].1@.len()
                        ==> #[trigger] entries@[t].1@[k] <= max_node_id,
                forall|t: int| 0 <= t < entries@.len() ==> (#[trigger] entries@[t]).1@.len()
                    <= 256,
            decreases entries@.len() - e2,
        {
            let element_id = entries[e2].0;
            let count = entries[e2].1.len();
            let mut local_idx: usize = 0;
            while local_idx < count
                invariant
                    local_idx <= count,
                    e2 < entries@.len(),
                    count == entries@[e2 as int].1@.len(),
                    count <= 256,
                    node_to_elements@.len() == target,
                    target == max_node_id as usize + 1,
                    element_id == entries@[e2 as int].0,
                    forall|t: int, k: int|
                        0 <= t < entries@.len() && 0 <= k < entries@[t].1@.len()
                            ==> #[trigger] entries@[t].1@[k] <= max_node_id,
                decreases count - local_idx,
            {
                let node_id = entries[e2].1[local_idx];
                let mut bucket = node_to_elements.remove(node_id as usize);
                if local_idx < 255 {
                    bucket.push((element_id, local_idx as u8));
                } else {
                    bucket.push((element_id, 255u8));
                }
                node_to_elements.insert(node_id as usize, bucket);
                proof {
                    assert(node_to_elements@.len() == target);
                }
                local_idx = local_idx + 1;
            }
            e2 = e2 + 1;
        }

        let num_elements = entries.len();
        proof {
            let views = entry_views(entries@);
            assert forall|t: int, k: int|
                0 <= t < views.len() && 0 <= k < views[t].1.len() implies #[trigger] views[t].1[k]
                <= max_node_id by {
                assert(views[t] == (entries@[t].0, entries@[t].1@));
            }
            if max_node_id != 0 {
                let (t, k) = choose|t: int, k: int|
                    0 <= t < entries@.len() && 0 <= k < entries@[t].1@.len()
                        && #[trigger] entries@[t].1@[k] == max_node_id;
                assert(views[t] == (entries@[t].0, entries@[t].1@));
                assert(views[t].1[k] == max_node_id);
            }
        }
        Ok(Self { elements: entries, node_to_elements, max_node_id, num_elements })
    }

    /// Finds the storage index of an element by a linear scan over the ids.
    fn find_element_index(&self, element_id: u32) -> (r: Result<usize, MeshError>)
        ensures
            match r {
                Ok(i) => 0 <= i < self.entries().len() && self.entries()[i as int].0 == element_id,
                Err(e) => e == MeshError::ElementNotFound(element_id) && !self.has_element(
                    element_id,
                ),
            },
    {
        let mut i: usize = 0;
        while i < self.elements.len()
            invariant
                i <= self.entries().len(),
                forall|t: int| 0 <= t < i ==> (#[trigger] self.entries()[t]).0 != element_id,
            decreases self.entries().len() - i,
        {
            if self.elements[i].0 == element_id {
                return Ok(i);
            }
            i = i + 1;
        }
        Err(MeshError::ElementNotFound(element_id))
    }

    /// Converts a local node number within an element to the global node id.
    pub fn local_to_global(&self, element_id: u32, local_node_num: u8) -> (r: Result<
        u32,
        MeshError,
    >)
        ensures
            !self.has_element(element_id) ==> r == Err::<u32, MeshError>(
                MeshError::ElementNotFound(element_id),
            ),
            r matches Ok(v) ==> exists|i: int|
                0 <= i < self.entries().len() && (#[trigger] self.entries()[i]).0 == element_id
                    && local_node_num < self.nodes_at(i).len() && v == self.nodes_at(i)[
                local_node_num as int],
            r matches Err(e) ==> self.has_element(element_id) ==> e
                == MeshError::NodeOutOfRange(local_node_num) && exists|i: int|
                0 <= i < self.entries().len() && (#[trigger] self.entries()[i]).0 == element_id
                    && local_node_num >= self.nodes_at(i).len(),
    {
        let idx = match self.find_element_index(element_id) {
            Ok(i) => i,
            Err(e) => {
                return Err(e);
            },
        };
        let nodes = &self.elements[idx].1;
        if (local_node_num as usize) < nodes.len() {
            Ok(nodes[local_node_num as usize])
        } else {
            Err(MeshError::NodeOutOfRange(local_node_num))
        }
    }

    /// Gets, per requested element id, the element's global node list; the
    /// first unknown id fails the whole request.
    pub fn get_global_nodes_for_elements(&self, element_ids: &Vec<u32>) -> (r: Result<
        Vec<(u32, Vec<u32>)>,
        MeshError,
    >)
        ensures
            r matches Ok(v) ==> v@.len() == element_ids@.len() && self.listed_nodes_ok(
                v@,
                element_ids@,
                element_ids@.len() as int,
            ),
            r matches Err(e) ==> exists|q: int|
                0 <= q < element_ids@.len() && e == MeshError::ElementNotFound(
                    #[trigger] element_ids@[q],
                ) && !self.has_element(element_ids@[q]),
    {
        let mut result: Vec<(u32, Vec<u32>)> = Vec::new();
        let mut q: usize = 0;
        while q < element_ids.len()
            invariant
                q <= element_ids@.len(),
                result@.len() == q,
                self.listed_nodes_ok(result@, element_ids@, q as int),
            decreases element_ids@.len() - q,
        {
            let elem_id = element_ids[q];
            let idx = match self.find_element_index(elem_id) {
                Ok(i) => i,
                Err(e) => {
                    return Err(e);
                },
            };
            let nodes = copy_node_ids(&self.elements[idx].1);
            let ghost prior = result@;
            result.push((elem_id, nodes));
            proof {
                assert(self.entries()[idx as int] == (self.elements@[idx as int].0, self.elements@[
                    idx as int].1@));
                assert forall|t: int|
                    0 <= t < q + 1 implies (#[trigger] result@[t]).0 == element_ids@[t] && exists|
                    i: int,
                |
                    0 <= i < self.entries().len() && (#[trigger] self.entries()[i]).0
                        == element_ids@[t] && result@[t].1@ == self.nodes_at(i) by {
                    if t < q {
                        assert(result@[t] == prior[t]);
                        assert(prior[t].0 == element_ids@[t]);
                        let i0 = choose|i0: int|
                            0 <= i0 < self.entries().len() && (#[trigger] self.entries()[i0]).0
                                == element_ids@[t] && prior[t].1@ == self.nodes_at(i0);
                        assert((self.entries()[i0]).0 == element_ids@[t] && result@[t].1@
                            == self.nodes_at(i0));
                    } else {
                        assert(0 <= idx < self.entries().len() && self.entries()[idx as int].0
                            == element_ids@[t] && result@[t].1@ == self.nodes_at(idx as int));
                    }
                }
                assert(self.listed_nodes_ok(result@, element_ids@, q as int + 1));
            }
            q = q + 1;
        }
        Ok(result)
    }

    /// Converts a pair of local node numbers to global node ids.
    pub fn local_pair_to_global(&self, element_id: u32, local_node1: u8, local_node2: u8) -> (r:
        Result<(u32, u32), MeshError>)
        ensures
            !self.has_element(element_id) ==> r == Err::<(u32, u32), MeshError>(
                MeshError::ElementNotFound(element_id),
            ),
            r matches Ok(v) ==> exists|i: int|
                0 <= i < self.entries().len() && (#[trigger] self.entries()[i]).0 == element_id
                    && local_node1 < self.nodes_at(i).len() && local_node2 < self.nodes_at(i).len()
                    && v == (self.nodes_at(i)[local_node1 as int], self.nodes_at(i)[
                local_node2 as int]),
            r matches Err(e) ==> self.has_element(element_id) ==> e == MeshError::NodeOutOfRange(
                if local_node1 >= local_node2 {
                    local_node1
                } else {
                    local_node2
                },
            ) && exists|i: int|
                0 <= i < self.entries().len() && (#[trigger] self.entries()[i]).0 == element_id
                    && (local_node1 >= self.nodes_at(i).len() || local_node2 >= self.nodes_at(
                    i,
                ).len()),
    {
        let idx = match self.find_element_index(element_id) {
            Ok(i) => i,
            Err(e) => {
                return Err(e);
            },
        };
        let nodes = &self.elements[idx].1;
        if (local_node1 as usize) >= nodes.len() || (local_node2 as usize) >= nodes.len() {
            let worse = if local_node1 >= local_node2 {
                local_node1
            } else {
                local_node2
            };
            return Err(MeshError::NodeOutOfRange(worse));
        }
        Ok((nodes[local_node1 as usize], nodes[local_node2 as usize]))
    }

    /// Gets, per requested element id, all (i <= j)-ordered global node
    /// pairs of the element, self-pairs included.
    pub fn get_global_pairs_for_elements(&self, element_ids: &Vec<u32>) -> (r: Result<
        Vec<(u32, Vec<(u32, u32)>)>,
        MeshError,
    >)
        ensures
            r matches Ok(v) ==> v@.len() == element_ids@.len() && self.listed_pairs_ok(
                v@,
                element_ids@,
                element_ids@.len() as int,
            ),
            r matches Err(e) ==> exists|q: int|
                0 <= q < element_ids@.len() && e == MeshError::ElementNotFound(
                    #[trigger] element_ids@[q],
                ) && !self.has_element(element_ids@[q]),
    {
        let mut result: Vec<(u32, Vec<(u32, u32)>)> = Vec::new();
        let mut q: usize = 0;
        while q < element_ids.len()
            invariant
                q <= element_ids@.len(),
                result@.len() == q,
                self.listed_pairs_ok(result@, element_ids@, q as int),
            decreases element_ids@.len() - q,
        {
            let elem_id = element_ids[q];
            let idx = match self.find_element_index(elem_id) {
                Ok(i) => i,
                Err(e) => {
                    return Err(e);
                },
            };
            let pairs = node_pairs(&self.elements[idx].1);
            let ghost prior = result@;
            result.push((elem_id, pairs));
            proof {
                assert(self.entries()[idx as int] == (self.elements@[idx as int].0, self.elements@[
                    idx as int].1@));
                assert forall|t: int|
                    0 <= t < q + 1 implies (#[trigger] result@[t]).0 == element_ids@[t] && exists|
                    i: int,
                |
                    0 <= i < self.entries().len() && (#[trigger] self.entries()[i]).0
                        == element_ids@[t] && result@[t].1@ == all_pairs(self.nodes_at(i)) by {
                    if t < q {
                        assert(result@[t] == prior[t]);
                        assert(prior[t].0 == element_ids@[t]);
                        let i0 = choose|i0: int|
                            0 <= i0 < self.entries().len() && (#[trigger] self.entries()[i0]).0
                                == element_ids@[t] && prior[t].1@ == all_pairs(self.nodes_at(i0));
                        assert((self.entries()[i0]).0 == element_ids@[t] && result@[t].1@
                            == all_pairs(self.nodes_at(i0)));
                    } else {
                        assert(0 <= idx < self.entries().len() && self.entries()[idx as int].0
                            == element_ids@[t] && result@[t].1@ == all_pairs(
                            self.nodes_at(idx as int),
                        ));
                    }
                }
                assert(self.listed_pairs_ok(result@, element_ids@, q as int + 1));
            }
            q = q + 1;
        }
        Ok(result)
    }

    /// All pairs of local node numbers (i <= j) of an element, self-pairs
    /// included.
    pub fn get_all_local_pairs(&self, element_id: u32) -> (r: Result<Vec<(u8, u8)>, MeshError>)
        requires
            forall|i: int|
                0 <= i < self.entries().len() && (#[trigger] self.entries()[i]).0 == element_id
                    ==> self.nodes_at(i).len() <= 255,
        ensures
            !self.has_element(element_id) ==> r == Err::<Vec<(u8, u8)>, MeshError>(
                MeshError::ElementNotFound(element_id),
            ),
            r matches Ok(v) ==> exists|i: int|
                0 <= i < self.entries().len() && (#[trigger] self.entries()[i]).0 == element_id
                    && v@ == all_pairs(Seq::new(self.nodes_at(i).len(), |t: int| t as u8)),
    {
        let idx = match self.find_element_index(element_id) {
            Ok(i) => i,
            Err(e) => {
                return Err(e);
            },
        };
        let num_nodes: u8 = self.elements[idx].1.len() as u8;
        let mut locals: Vec<u8> = Vec::new();
        let mut t: u8 = 0;
        while t < num_nodes
            invariant
                t <= num_nodes,
                locals@.len() == t,
                forall|s: int| 0 <= s < t ==> #[trigger] locals@[s] == s as u8,
            decreases num_nodes - t,
        {
            locals.push(t);
            t = t + 1;
        }
        proof {
            assert(locals@ =~= Seq::new(self.nodes_at(idx as int).len(), |t: int| t as u8));
        }
        Ok(local_pairs(&locals))
    }

    /// All pairs of global node ids (i <= j in local order) of an element,
    /// self-pairs included.
    pub fn get_all_global_pairs(&self, element_id: u32) -> (r: Result<Vec<(u32, u32)>, MeshError>)
        ensures
            !self.has_element(element_id) ==> r == Err::<Vec<(u32, u32)>, MeshError>(
                MeshError::ElementNotFound(element_id),
            ),
            r matches Ok(v) ==> exists|i: int|
                0 <= i < self.entries().len() && (#[trigger] self.entries()[i]).0 == element_id
                    && v@ == all_pairs(self.nodes_at(i)),
    {
        let idx = match self.find_element_index(element_id) {
            Ok(i) => i,
            Err(e) => {
                return Err(e);
            },
        };
        Ok(node_pairs(&self.elements[idx].1))
    }

    /// The largest node id referenced by any element, 0 for an empty mesh.
    pub fn max_node_id(&self) -> (r: u32)
        ensures
            r == self.spec_max_node_id(),
    {
        self.max_node_id
    }

    /// The number of elements.
    pub fn num_elements(&self) -> (r: usize)
        ensures
            r == self.spec_num_elements(),
    {
        self.num_elements
    }
}

/// Copies a node id list.
fn copy_node_ids(v: &Vec<u32>) -> (r: Vec<u32>)
    ensures
        r@ == v@,
{
    let mut r: Vec<u32> = Vec::new();
    let mut i: usize = 0;
    while i < v.len()
        invariant
            i <= v@.len(),
            r@.len() == i,
            forall|j: int| 0 <= j < i ==> r@[j] == v@[j],
        decreases v@.len() - i,
    {
        r.push(v[i]);
        i = i + 1;
    }
    proof {
        assert(r@ =~= v@);
    }
    r
}

/// Lists all (v[i], v[j]) pairs with i <= j, the first index outermost.
fn node_pairs(v: &Vec<u32>) -> (r: Vec<(u32, u32)>)
    ensures
        r@ == all_pairs(v@),
{
    pair_table(v)
}

/// Lists all (v[i], v[j]) pairs of local numbers with i <= j.
fn local_pairs(v: &Vec<u8>) -> (r: Vec<(u8, u8)>)
    ensures
        r@ == all_pairs(v@),
{
    pair_table(v)
}

/// Lists all (items[i], items[j]) pairs with i <= j, the first index
/// outermost, self-pairs included.
fn pair_table<T: Copy>(items: &Vec<T>) -> (r: Vec<(T, T)>)
    ensures
        r@ == all_pairs(items@),
{
    let mut r: Vec<(T, T)> = Vec::new();
    let n = items.len();
    let mut i: usize = 0;
    while i < n
        invariant
            i <= n,
            n == items@.len(),
            r@ + crate::locate_nodes_o_log_n::pairs_from(items@, i as int) =~= all_pairs(items@),
        decreases n - i,
    {
        let ghost row_start = r@;
        let mut j: usize = i;
        while j < n
            invariant
                i <= j <= n,
                i < n,
                n == items@.len(),
                r@ =~= row_start + Seq::new((j - i) as nat, |t: int| (items@[i as int], items@[
                    i + t])),
            decreases n - j,
        {
            r.push((items[i], items[j]));
            proof {
                assert(r@ =~= row_start + Seq::new((j + 1 - i) as nat, |t: int| (items@[
                    i as int], items@[i + t])));
            }
            j = j + 1;
        }
        proof {
            assert(r@ =~= row_start + crate::locate_nodes_o_log_n::pair_row(items@, i as int));
            assert(crate::locate_nodes_o_log_n::pairs_from(items@, i as int)
                == crate::locate_nodes_o_log_n::pair_row(items@, i as int)
                + crate::locate_nodes_o_log_n::pairs_from(items@, i as int + 1));
            assert(r@ + crate::locate_nodes_o_log_n::pairs_from(items@, i as int + 1) =~= (
            row_start + crate::locate_nodes_o_log_n::pair_row(items@, i as int))
                + crate::locate_nodes_o_log_n::pairs_from(items@, i as int + 1));
            assert((row_start + crate::locate_nodes_o_log_n::pair_row(items@, i as int))
                + crate::locate_nodes_o_log_n::pairs_from(items@, i as int + 1) =~= row_start + (
            crate::locate_nodes_o_log_n::pair_row(items@, i as int)
                + crate::locate_nodes_o_log_n::pairs_from(items@, i as int + 1)));
            assert(row_start + crate::locate_nodes_o_log_n::pairs_from(items@, i as int)
                =~= all_pairs(items@));
        }
        i = i + 1;
    }
    proof {
        assert(crate::locate_nodes_o_log_n::pairs_from(items@, n as int) =~= Seq::<(
            T,
            T,
        )>::empty());
        assert(r@ + Seq::<(T, T)>::empty() =~= r@);
    }
    r
}

} // verus!
