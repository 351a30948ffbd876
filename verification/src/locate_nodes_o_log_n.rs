//! Mesh connectivity lookup with elements kept sorted by id: local-to-global
//! node translation, per-element node pair enumeration, and the largest node
//! id, answered by binary search over the element ids.

use vstd::prelude::*;

verus! {

/// Errors of the mesh connectivity lookup, one variant per boundary so that
/// callers can discriminate the cause.
#[derive(Debug)]
pub enum MeshError {
    IoError(String),
    ParseError(String),
    ElementNotFound(u32),
    InvalidLocalNode(u8),
    NodeOutOfRange(u8),
}

/// One row of all (s[i], s[j]) pairs with a fixed first index i and j >= i.
pub open spec fn pair_row<T>(s: Seq<T>, i: int) -> Seq<(T, T)> {
    Seq::new((s.len() - i) as nat, |t: int| (s[i], s[i + t]))
}

/// All pairs (s[i], s[j]) with start <= i <= j < s.len(), ordered with the
/// first index outermost.
pub open spec fn pairs_from<T>(s: Seq<T>, start: int) -> Seq<(T, T)>
    decreases s.len() - start,
{
    if start < 0 || start >= s.len() {
        Seq::empty()
    } else {
        pair_row(s, start) + pairs_from(s, start + 1)
    }
}

/// All pairs (s[i], s[j]) with i <= j, including the self-pairs.
pub open spec fn all_pairs<T>(s: Seq<T>) -> Seq<(T, T)> {
    pairs_from(s, 0)
}

/// Every entry of `v` occurs somewhere in `src`.
pub open spec fn entries_from(v: Seq<(u32, Seq<u32>)>, src: Seq<(u32, Seq<u32>)>) -> bool {
    forall|i: int| 0 <= i < v.len() ==> src.contains(#[trigger] v[i])
}

/// Every entry of `src` occurs somewhere in `v`.
pub open spec fn entries_cover(v: Seq<(u32, Seq<u32>)>, src: Seq<(u32, Seq<u32>)>) -> bool {
    forall|j: int| 0 <= j < src.len() ==> v.contains(#[trigger] src[j])
}

/// The (element id, node list) pairs of a stored vector, as mathematical
/// values.
pub open spec fn entry_views(s: Seq<(u32, Vec<u32>)>) -> Seq<(u32, Seq<u32>)> {
    s.map_values(|e: (u32, Vec<u32>)| (e.0, e.1@))
}

/// Mesh connectivity: per element, its ordered list of global node ids,
/// with the elements held sorted by element id for binary search.
#[derive(Debug, Clone)]
pub struct MeshNodeConverter {
    elements: Vec<(u32, Vec<u32>)>,
    max_node_id: u32,
    num_elements: usize,
}

impl MeshNodeConverter {
    /// The stored (element id, node list) pairs, in storage order.
    pub closed spec fn entries(&self) -> Seq<(u32, Seq<u32>)> {
        entry_views(self.elements@)
    }

    /// The node list of the element stored at position i.
    pub open spec fn nodes_at(&self, i: int) -> Seq<u32> {
        self.entries()[i].1
    }

    /// The largest node id of the mesh, 0 when there are no nodes.
    pub closed spec fn spec_max_node_id(&self) -> u32 {
        self.max_node_id
    }

    pub closed spec fn spec_num_elements(&self) -> int {
        self.num_elements as int
    }

    /// Elements sorted by id, counts consistent, and the maximum attained.
    pub open spec fn wf(&self) -> bool {
        &&& self.spec_num_elements() == self.entries().len()
        &&& sorted_by_id(self.entries())
        &&& max_bounds(self.entries(), self.spec_max_node_id())
    }

    /// Some stored element has this id.
    pub open spec fn has_element(&self, element_id: u32) -> bool {
        exists|i: int| 0 <= i < self.entries().len() && (#[trigger] self.entries()[i]).0 == element_id
    }

    /// The first `q` answers list, per requested element id, the node list
    /// stored for that id.
    pub open spec fn listed_nodes_ok(
        &self,
        result: Seq<(u32, Vec<u32>)>,
        element_ids: Seq<u32>,
        q: int,
    ) -> bool {
        forall|t: int|
            0 <= t < q ==> (#[trigger] result[t]).0 == element_ids[t] && exists|i: int|
                0 <= i < self.entries().len() && (#[trigger] self.entries()[i]).0 == element_ids[t]
                    && result[t].1@ == self.nodes_at(i)
    }

    /// The first `q` answers list, per requested element id, all ordered node
    /// pairs of the element stored for that id.
    pub open spec fn listed_pairs_ok(
        &self,
        result: Seq<(u32, Vec<(u32, u32)>)>,
        element_ids: Seq<u32>,
        q: int,
    ) -> bool {
        forall|t: int|
            0 <= t < q ==> (#[trigger] result[t]).0 == element_ids[t] && exists|i: int|
                0 <= i < self.entries().len() && (#[trigger] self.entries()[i]).0 == element_ids[t]
                    && result[t].1@ == all_pairs(self.nodes_at(i))
    }

    /// Builds the converter from the parsed connectivity entries, one
    /// (element id, node ids) pair per element: the entries are stored sorted
    /// by element id, and the largest node id is recorded. Reading and
    /// parsing the connectivity file is the caller's part.
    #[verifier::rlimit(100)]
    #[verifier::spinoff_prover]
    pub fn new(entries: Vec<(u32, Vec<u32>)>) -> (r: Result<Self, MeshError>)
        ensures
            r is Ok,
            ({
                let c = r->Ok_0;
                &&& c.wf()
                &&& c.entries().len() == entries@.len()
                &&& entries_from(c.entries(), entry_views(entries@))
                &&& entries_cover(c.entries(), entry_views(entries@))
            }),
    {
        let ghost source_views = entry_views(entries@);
        let ghost n = source_views.len();
        let mut elements: Vec<(u32, Vec<u32>)> = Vec::new();
        let mut max_node_id: u32 = 0;
        let mut q: usize = 0;

        while q < entries.len()
            invariant
                q <= n,
                n == source_views.len() == entries@.len(),
                source_views == entry_views(entries@),
                elements@.len() == q,
                sorted_by_id(entry_views(elements@)),
                entries_from(entry_views(elements@), source_views.subrange(0, q as int)),
                entries_cover(entry_views(elements@), source_views.subrange(0, q as int)),
                max_bounds(entry_views(elements@), max_node_id),
            decreases n - q,
        {
            let ghost before = entry_views(elements@);
            let id = entries[q].0;
            let node_ids = copy_nodes(&entries[q].1);
            proof {
                assert(entry_views(entries@)[q as int] == (entries@[q as int].0, entries@[
                    q as int].1@));
                assert((id, node_ids@) == source_views[q as int]);
            }

            // Track the largest node id seen anywhere.
            let mut k: usize = 0;
            let ghost max_before = max_node_id;
            while k < node_ids.len()
                invariant
                    k <= node_ids@.len(),
                    max_before <= max_node_id,
                    forall|t: int| 0 <= t < k ==> #[trigger] node_ids@[t] <= max_node_id,
                    max_node_id == max_before || exists|t: int|
                        0 <= t < k && #[trigger] node_ids@[t] == max_node_id,
                decreases node_ids@.len() - k,
            {
                if node_ids[k] > max_node_id {
                    max_node_id = node_ids[k];
                }
                k = k + 1;
            }

            // Sorted insertion by element id.
            let mut pos: usize = 0;
            while pos < elements.len() && elements[pos].0 <= id
                invariant
                    pos <= elements@.len(),
                    forall|t: int| 0 <= t < pos ==> #[trigger] elements@[t].0 <= id,
                decreases elements@.len() - pos,
            {
                pos = pos + 1;
            }
            let ghost pos_snap = pos as int;
            proof {
                if pos_snap < before.len() {
                    assert(before[pos_snap].0 == elements@[pos_snap].0);
                }
            }
            let ghost elems_seq = elements@;
            let ghost entry_pair = (id, node_ids);
            let ghost entry_view = (id, node_ids@);
            proof {
                if max_node_id != max_before {
                    let t0 = choose|t0: int|
                        0 <= t0 < node_ids@.len() && #[trigger] node_ids@[t0] == max_node_id;
                    assert(entry_view.1[t0] == max_node_id);
                }
            }
            elements.insert(pos, (id, node_ids));
            proof {
                lemma_entry_views_insert(elems_seq, pos_snap, entry_pair);
                let after = entry_views(elements@);
                assert(after == before.insert(pos_snap, entry_view));
                lemma_insert_sorted(before, after, pos_snap, entry_view);
                lemma_insert_correspondence(
                    before,
                    after,
                    source_views,
                    pos_snap,
                    entry_view,
                    q as int,
                );
                lemma_insert_max(before, after, pos_snap, entry_view, max_before, max_node_id);
            }
            q = q + 1;
        }
        proof {
            assert(source_views.subrange(0, n as int) =~= source_views);
        }
        let num_elements = elements.len();
        Ok(Self { elements, max_node_id, num_elements })
    }

    /// Finds the storage index of an element by binary search over the
    /// sorted ids; absence means no stored element has the id.
    fn find_element_index(&self, element_id: u32) -> (r: Result<usize, MeshError>)
        requires
            self.wf(),
        ensures
            match r {
                Ok(i) => 0 <= i < self.entries().len() && self.entries()[i as int].0 == element_id,
                Err(e) => e == MeshError::ElementNotFound(element_id) && !self.has_element(
                    element_id,
                ),
            },
    {
        let mut lo: usize = 0;
        let mut hi: usize = self.elements.len();
        while lo < hi
            invariant
                self.wf(),
                lo <= hi <= self.entries().len(),
                forall|i: int| 0 <= i < lo ==> (#[trigger] self.entries()[i]).0 < element_id,
                forall|i: int|
                    hi <= i < self.entries().len() ==> (#[trigger] self.entries()[i]).0
                        > element_id,
            decreases hi - lo,
        {
            let mid = lo + (hi - lo) / 2;
            let probe = self.elements[mid].0;
            assert(probe == self.entries()[mid as int].0);
            if probe < element_id {
                proof {
                    assert forall|i: int| 0 <= i < mid + 1 implies (#[trigger] self.entries()[i]).0
                        < element_id by {
                        assert(self.entries()[i].0 <= self.entries()[mid as int].0);
                    }
                }
                lo = mid + 1;
            } else if probe > element_id {
                proof {
                    assert forall|i: int|
                        mid <= i < self.entries().len() implies (#[trigger] self.entries()[i]).0
                        > element_id by {
                        assert(self.entries()[mid as int].0 <= self.entries()[i].0);
                    }
                }
                hi = mid;
            } else {
                return Ok(mid);
            }
        }
        Err(MeshError::ElementNotFound(element_id))
    }

    /// Converts a local node number within an element to the global node id.
    pub fn local_to_global(&self, element_id: u32, local_node_num: u8) -> (r: Result<
        u32,
        MeshError,
    >)
        requires
            self.wf(),
        ensures
            !self.has_element(element_id) ==> r == Err::<u32, MeshError>(
                MeshError::ElementNotFound(element_id),
            ),
            r matches Ok(v) ==> exists|i: int|
                0 <= i < self.entries().len() && (#[trigger] self.entries()[i]).0 == element_id
                    && local_node_num < self.nodes_at(i).len() && v == self.nodes_at(i)[
                local_node_num as int],
            r matches Err(e) ==> self.has_element(element_id) ==> e
                == MeshError::NodeOutOfRange(local_node_num) && exists|i: int|
                0 <= i < self.entries().len() && (#[trigger] self.entries()[i]).0 == element_id
                    && local_node_num >= self.nodes_at(i).len(),
    {
        let idx = match self.find_element_index(element_id) {
            Ok(i) => i,
            Err(e) => {
                return Err(e);
            },
        };
        let nodes = &self.elements[idx].1;
        if (local_node_num as usize) < nodes.len() {
            Ok(nodes[local_node_num as usize])
        } else {
            Err(MeshError::NodeOutOfRange(local_node_num))
        }
    }

    /// Gets, per requested element id, the element's global node list;
    /// the first unknown id fails the whole request.
    pub fn get_global_nodes_for_elements(&self, element_ids: &Vec<u32>) -> (r: Result<
        Vec<(u32, Vec<u32>)>,
        MeshError,
    >)
        requires
            self.wf(),
        ensures
            r matches Ok(v) ==> v@.len() == element_ids@.len() && self.listed_nodes_ok(
                v@,
                element_ids@,
                element_ids@.len() as int,
            ),
            r matches Ok(v) ==> forall|q: int|
                0 <= q < element_ids@.len() ==> self.has_element(#[trigger] element_ids@[q]),
            r matches Err(e) ==> exists|q: int|
                0 <= q < element_ids@.len() && e == MeshError::ElementNotFound(
                    #[trigger] element_ids@[q],
                ) && !self.has_element(element_ids@[q]),
    {
        let mut result: Vec<(u32, Vec<u32>)> = Vec::new();
        let mut q: usize = 0;
        while q < element_ids.len()
            invariant
                self.wf(),
                q <= element_ids@.len(),
                result@.len() == q,
                self.listed_nodes_ok(result@, element_ids@, q as int),
                forall|t: int| 0 <= t < q ==> self.has_element(#[trigger] element_ids@[t]),
            decreases element_ids@.len() - q,
        {
            let elem_id = element_ids[q];
            let idx = match self.find_element_index(elem_id) {
                Ok(i) => i,
                Err(e) => {
                    return Err(e);
                },
            };
            let nodes = copy_nodes(&self.elements[idx].1);
            let ghost prior = result@;
            result.push((elem_id, nodes));
            proof {
                assert(self.entries()[idx as int] == (self.elements@[idx as int].0, self.elements@[
                    idx as int].1@));
                assert(result@[q as int].0 == elem_id && result@[q as int].1@ == self.nodes_at(
                    idx as int,
                ));
                assert forall|t: int|
                    0 <= t < q + 1 implies (#[trigger] result@[t]).0 == element_ids@[t] && exists|
                    i: int,
                |
                    0 <= i < self.entries().len() && (#[trigger] self.entries()[i]).0
                        == element_ids@[t] && result@[t].1@ == self.nodes_at(i) by {
                    if t < q {
                        assert(result@[t] == prior[t]);
                        assert(prior[t].0 == element_ids@[t]);
                        let i0 = choose|i0: int|
                            0 <= i0 < self.entries().len() && (#[trigger] self.entries()[i0]).0
                                == element_ids@[t] && prior[t].1@ == self.nodes_at(i0);
                        assert((self.entries()[i0]).0 == element_ids@[t] && result@[t].1@
                            == self.nodes_at(i0));
                    } else {
                        assert(0 <= idx < self.entries().len() && self.entries()[idx as int].0
                            == element_ids@[t] && result@[t].1@ == self.nodes_at(idx as int));
                    }
                }
                assert(self.listed_nodes_ok(result@, element_ids@, q as int + 1));
            }
            q = q + 1;
        }
        Ok(result)
    }

    /// Converts a pair of local node numbers to global node ids.
    pub fn local_pair_to_global(&self, element_id: u32, local_node1: u8, local_node2: u8) -> (r:
        Result<(u32, u32), MeshError>)
        requires
            self.wf(),
        ensures
            !self.has_element(element_id) ==> r == Err::<(u32, u32), MeshError>(
                MeshError::ElementNotFound(element_id),
            ),
            r matches Ok(v) ==> exists|i: int|
                0 <= i < self.entries().len() && (#[trigger] self.entries()[i]).0 == element_id
                    && local_node1 < self.nodes_at(i).len() && local_node2 < self.nodes_at(i).len()
                    && v == (self.nodes_at(i)[local_node1 as int], self.nodes_at(i)[
                local_node2 as int]),
            r matches Err(e) ==> self.has_element(element_id) ==> e == MeshError::NodeOutOfRange(
                if local_node1 >= local_node2 {
                    local_node1
                } else {
                    local_node2
                },
            ) && exists|i: int|
                0 <= i < self.entries().len() && (#[trigger] self.entries()[i]).0 == element_id && (
                local_node1 >= self.nodes_at(i).len() || local_node2 >= self.nodes_at(i).len()),
    {
        let idx = match self.find_element_index(element_id) {
            Ok(i) => i,
            Err(e) => {
                return Err(e);
            },
        };
        let nodes = &self.elements[idx].1;
        if (local_node1 as usize) >= nodes.len() || (local_node2 as usize) >= nodes.len() {
            let worse = if local_node1 >= local_node2 {
                local_node1
            } else {
                local_node2
            };
            return Err(MeshError::NodeOutOfRange(worse));
        }
        Ok((nodes[local_node1 as usize], nodes[local_node2 as usize]))
    }

    /// Gets, per requested element id, all (i <= j)-ordered global node
    /// pairs of the element, self-pairs included.
    pub fn get_global_pairs_for_elements(&self, element_ids: &Vec<u32>) -> (r: Result<
        Vec<(u32, Vec<(u32, u32)>)>,
        MeshError,
    >)
        requires
            self.wf(),
        ensures
            r matches Ok(v) ==> v@.len() == element_ids@.len() && self.listed_pairs_ok(
                v@,
                element_ids@,
                element_ids@.len() as int,
            ),
            r matches Err(e) ==> exists|q: int|
                0 <= q < element_ids@.len() && e == MeshError::ElementNotFound(
                    #[trigger] element_ids@[q],
                ) && !self.has_element(element_ids@[q]),
    {
        let mut result: Vec<(u32, Vec<(u32, u32)>)> = Vec::new();
        let mut q: usize = 0;
        while q < element_ids.len()
            invariant
                self.wf(),
                q <= element_ids@.len(),
                result@.len() == q,
                self.listed_pairs_ok(result@, element_ids@, q as int),
            decreases element_ids@.len() - q,
        {
            let elem_id = element_ids[q];
            let idx = match self.find_element_index(elem_id) {
                Ok(i) => i,
                Err(e) => {
                    return Err(e);
                },
            };
            let pairs = generate_all_pairs(&self.elements[idx].1);
            let ghost prior = result@;
            result.push((elem_id, pairs));
            proof {
                assert(self.entries()[idx as int] == (self.elements@[idx as int].0, self.elements@[
                    idx as int].1@));
                assert(result@[q as int].0 == elem_id && result@[q as int].1@ == all_pairs(
                    self.nodes_at(idx as int),
                ));
                assert forall|t: int|
                    0 <= t < q + 1 implies (#[trigger] result@[t]).0 == element_ids@[t] && exists|
                    i: int,
                |
                    0 <= i < self.entries().len() && (#[trigger] self.entries()[i]).0
                        == element_ids@[t] && result@[t].1@ == all_pairs(self.nodes_at(i)) by {
                    if t < q {
                        assert(result@[t] == prior[t]);
                        assert(prior[t].0 == element_ids@[t]);
                        let i0 = choose|i0: int|
                            0 <= i0 < self.entries().len() && (#[trigger] self.entries()[i0]).0
                                == element_ids@[t] && prior[t].1@ == all_pairs(self.nodes_at(i0));
                        assert((self.entries()[i0]).0 == element_ids@[t] && result@[t].1@
                            == all_pairs(self.nodes_at(i0)));
                    } else {
                        assert(0 <= idx < self.entries().len() && self.entries()[idx as int].0
                            == element_ids@[t] && result@[t].1@ == all_pairs(
                            self.nodes_at(idx as int),
                        ));
                    }
                }
                assert(self.listed_pairs_ok(result@, element_ids@, q as int + 1));
            }
            q = q + 1;
        }
        Ok(result)
    }

    /// All pairs of local node numbers (i <= j) of an element, self-pairs
    /// included.
    pub fn get_all_local_pairs(&self, element_id: u32) -> (r: Result<Vec<(u8, u8)>, MeshError>)
        requires
            self.wf(),
            forall|i: int|
                0 <= i < self.entries().len() && (#[trigger] self.entries()[i]).0 == element_id
                    ==> self.nodes_at(i).len() <= 255,
        ensures
            !self.has_element(element_id) ==> r == Err::<Vec<(u8, u8)>, MeshError>(
                MeshError::ElementNotFound(element_id),
            ),
            r matches Ok(v) ==> exists|i: int|
                0 <= i < self.entries().len() && (#[trigger] self.entries()[i]).0 == element_id && v@
                    == all_pairs(Seq::new(self.nodes_at(i).len(), |t: int| t as u8)),
    {
        let idx = match self.find_element_index(element_id) {
            Ok(i) => i,
            Err(e) => {
                return Err(e);
            },
        };
        let num_nodes: u8 = self.elements[idx].1.len() as u8;
        let mut locals: Vec<u8> = Vec::new();
        let mut t: u8 = 0;
        while t < num_nodes
            invariant
                t <= num_nodes,
                locals@.len() == t,
                forall|s: int| 0 <= s < t ==> #[trigger] locals@[s] == s as u8,
            decreases num_nodes - t,
        {
            locals.push(t);
            t = t + 1;
        }
        proof {
            assert(locals@ =~= Seq::new(self.nodes_at(idx as int).len(), |t: int| t as u8));
        }
        Ok(generate_all_pairs(&locals))
    }

    /// All pairs of global node ids (i <= j in local order) of an element,
    /// self-pairs included.
    pub fn get_all_global_pairs(&self, element_id: u32) -> (r: Result<Vec<(u32, u32)>, MeshError>)
        requires
            self.wf(),
        ensures
            !self.has_element(element_id) ==> r == Err::<Vec<(u32, u32)>, MeshError>(
                MeshError::ElementNotFound(element_id),
            ),
            r matches Ok(v) ==> exists|i: int|
                0 <= i < self.entries().len() && (#[trigger] self.entries()[i]).0 == element_id && v@
                    == all_pairs(self.nodes_at(i)),
    {
        let idx = match self.find_element_index(element_id) {
            Ok(i) => i,
            Err(e) => {
                return Err(e);
            },
        };
        Ok(generate_all_pairs(&self.elements[idx].1))
    }

    /// The largest node id referenced by any element, 0 for an empty mesh.
    pub fn max_node_id(&self) -> (r: u32)
        ensures
            r == self.spec_max_node_id(),
    {
        self.max_node_id
    }

    /// The number of elements.
    pub fn num_elements(&self) -> (r: usize)
        ensures
            r == self.spec_num_elements(),
    {
        self.num_elements
    }
}

/// Non-decreasing element ids.
pub open spec fn sorted_by_id(v: Seq<(u32, Seq<u32>)>) -> bool {
    forall|i: int, j: int| 0 <= i <= j < v.len() ==> #[trigger] v[i].0 <= #[trigger] v[j].0
}

/// Every node id stored in `v` is at most `bound`, and `bound` is attained
/// unless it is 0.
pub open spec fn max_bounds(v: Seq<(u32, Seq<u32>)>, bound: u32) -> bool {
    &&& forall|e: int, k: int|
        0 <= e < v.len() && 0 <= k < v[e].1.len() ==> #[trigger] v[e].1[k] <= bound
    &&& (bound == 0 || exists|e: int, k: int|
        0 <= e < v.len() && 0 <= k < v[e].1.len() && #[trigger] v[e].1[k] == bound)
}

/// Inserting an entry at its partition point keeps the ids sorted.
proof fn lemma_insert_sorted(
    before: Seq<(u32, Seq<u32>)>,
    after: Seq<(u32, Seq<u32>)>,
    pos: int,
    entry: (u32, Seq<u32>),
)
    requires
        0 <= pos <= before.len(),
        after == before.insert(pos, entry),
        sorted_by_id(before),
        forall|t: int| 0 <= t < pos ==> #[trigger] before[t].0 <= entry.0,
        pos == before.len() || before[pos].0 > entry.0,
    ensures
        sorted_by_id(after),
{
    assert forall|t: int| pos <= t < before.len() implies #[trigger] before[t].0 > entry.0 by {
        assert(before[pos].0 <= before[t].0);
    }
    before.insert_ensures(pos, entry);
    assert forall|i: int, j: int| 0 <= i <= j < after.len() implies #[trigger] after[i].0
        <= #[trigger] after[j].0 by {
        if i < pos {
            assert(after[i] == before[i]);
        } else if i == pos {
            assert(after[i] == entry);
        } else {
            assert(after[i] == before[i - 1]);
        }
        if j < pos {
            assert(after[j] == before[j]);
        } else if j == pos {
            assert(after[j] == entry);
        } else {
            assert(after[j] == before[j - 1]);
        }
    }
}

/// Inserting the next processed entry keeps the two-way correspondence with
/// the processed prefix of the input.
#[verifier::rlimit(20)]
proof fn lemma_insert_correspondence(
    before: Seq<(u32, Seq<u32>)>,
    after: Seq<(u32, Seq<u32>)>,
    source_views: Seq<(u32, Seq<u32>)>,
    pos: int,
    entry: (u32, Seq<u32>),
    processed: int,
)
    requires
        0 <= pos <= before.len(),
        after == before.insert(pos, entry),
        0 <= processed < source_views.len(),
        before.len() == processed,
        entry == source_views[processed],
        entries_from(before, source_views.subrange(0, processed)),
        entries_cover(before, source_views.subrange(0, processed)),
    ensures
        entries_from(after, source_views.subrange(0, processed + 1)),
        entries_cover(after, source_views.subrange(0, processed + 1)),
{
    before.insert_ensures(pos, entry);
    let old_src = source_views.subrange(0, processed);
    let new_src = source_views.subrange(0, processed + 1);
    assert(new_src[processed] == entry);
    assert(forall|j: int| 0 <= j < processed ==> #[trigger] new_src[j] == old_src[j]);

    assert forall|i: int| 0 <= i < after.len() implies new_src.contains(#[trigger] after[i]) by {
        if i == pos {
            assert(new_src[processed] == after[i]);
        } else {
            let i0 = if i < pos {
                i
            } else {
                i - 1
            };
            assert(after[i] == before[i0]);
            assert(old_src.contains(before[i0]));
            let j0 = choose|j0: int| 0 <= j0 < old_src.len() && old_src[j0] == before[i0];
            assert(new_src[j0] == after[i]);
        }
    }

    assert forall|j: int| 0 <= j < new_src.len() implies after.contains(#[trigger] new_src[j]) by {
        if j == processed {
            assert(after[pos] == new_src[j]);
        } else {
            assert(before.contains(old_src[j]));
            let i0 = choose|i0: int| 0 <= i0 < before.len() && before[i0] == old_src[j];
            if i0 < pos {
                assert(after[i0] == new_src[j]);
            } else {
                assert(after[i0 + 1] == new_src[j]);
            }
        }
    }
}

/// Inserting an entry whose node ids are within the new maximum keeps the
/// maximum bound, and the maximum stays attained.
proof fn lemma_insert_max(
    before: Seq<(u32, Seq<u32>)>,
    after: Seq<(u32, Seq<u32>)>,
    pos: int,
    entry: (u32, Seq<u32>),
    max_before: u32,
    max_now: u32,
)
    requires
        0 <= pos <= before.len(),
        after == before.insert(pos, entry),
        max_bounds(before, max_before),
        max_before <= max_now,
        forall|t: int| 0 <= t < entry.1.len() ==> #[trigger] entry.1[t] <= max_now,
        max_now == max_before || exists|t: int|
            0 <= t < entry.1.len() && #[trigger] entry.1[t] == max_now,
    ensures
        max_bounds(after, max_now),
{
    before.insert_ensures(pos, entry);
    assert forall|e: int, k: int|
        0 <= e < after.len() && 0 <= k < after[e].1.len() implies #[trigger] after[e].1[k]
        <= max_now by {
        if e < pos {
            assert(after[e] == before[e]);
        } else if e == pos {
            assert(after[e] == entry);
        } else {
            assert(after[e] == before[e - 1]);
        }
    }

    if max_now != 0 {
        if max_now == max_before {
            let (e0, k0) = choose|e0: int, k0: int|
                0 <= e0 < before.len() && 0 <= k0 < before[e0].1.len() && before[e0].1[k0]
                    == max_before;
            if e0 < pos {
                assert(after[e0].1[k0] == max_now);
            } else {
                assert(after[e0 + 1].1[k0] == max_now);
            }
        } else {
            let t0 = choose|t0: int| 0 <= t0 < entry.1.len() && entry.1[t0] == max_now;
            assert(after[pos].1[t0] == max_now);
        }
    }
}

/// Taking the mathematical views commutes with taking a subrange.
proof fn lemma_entry_views_subrange(s: Seq<(u32, Vec<u32>)>, a: int, b: int)
    requires
        0 <= a <= b <= s.len(),
    ensures
        entry_views(s.subrange(a, b)) == entry_views(s).subrange(a, b),
{
    assert forall|i: int| 0 <= i < b - a implies entry_views(s.subrange(a, b))[i] == entry_views(
        s,
    ).subrange(a, b)[i] by {
        assert(s.subrange(a, b)[i] == s[a + i]);
    }
    assert(entry_views(s.subrange(a, b)) =~= entry_views(s).subrange(a, b));
}

/// Taking the mathematical views commutes with inserting an entry.
proof fn lemma_entry_views_insert(s: Seq<(u32, Vec<u32>)>, p: int, x: (u32, Vec<u32>))
    requires
        0 <= p <= s.len(),
    ensures
        entry_views(s.insert(p, x)) == entry_views(s).insert(p, (x.0, x.1@)),
{
    s.insert_ensures(p, x);
    entry_views(s).insert_ensures(p, (x.0, x.1@));
    assert forall|i: int| 0 <= i < s.len() + 1 implies entry_views(s.insert(p, x))[i]
        == entry_views(s).insert(p, (x.0, x.1@))[i] by {
        if i < p {
            assert(s.insert(p, x)[i] == s[i]);
        } else if i == p {
            assert(s.insert(p, x)[i] == x);
        } else {
            assert(s.insert(p, x)[i] == s[i - 1]);
        }
    }
    assert(entry_views(s.insert(p, x)) =~= entry_views(s).insert(p, (x.0, x.1@)));
}

/// Copies a node id list.
fn copy_nodes(v: &Vec<u32>) -> (r: Vec<u32>)
    ensures
        r@ == v@,
{
    let mut r: Vec<u32> = Vec::new();
    let mut i: usize = 0;
    while i < v.len()
        invariant
            i <= v@.len(),
            r@.len() == i,
            forall|j: int| 0 <= j < i ==> r@[j] == v@[j],
        decreases v@.len() - i,
    {
        r.push(v[i]);
        i = i + 1;
    }
    proof {
        assert(r@ =~= v@);
    }
    r
}

/// Lists all (items[i], items[j]) pairs with i <= j, the first index
/// outermost, self-pairs included.
fn generate_all_pairs<T: Copy>(items: &Vec<T>) -> (r: Vec<(T, T)>)
    ensures
        r@ == all_pairs(items@),
{
    let mut r: Vec<(T, T)> = Vec::new();
    let n = items.len();
    let mut i: usize = 0;
    while i < n
        invariant
            i <= n,
            n == items@.len(),
            r@ + pairs_from(items@, i as int) =~= all_pairs(items@),
        decreases n - i,
    {
        let ghost row_start = r@;
        let mut j: usize = i;
        while j < n
            invariant
                i <= j <= n,
                i < n,
                n == items@.len(),
                r@ =~= row_start + Seq::new((j - i) as nat, |t: int| (items@[i as int], items@[
                    i + t])),
            decreases n - j,
        {
            r.push((items[i], items[j]));
            proof {
                assert(r@ =~= row_start + Seq::new((j + 1 - i) as nat, |t: int| (items@[
                    i as int], items@[i + t])));
            }
            j = j + 1;
        }
        proof {
            assert(r@ =~= row_start + pair_row(items@, i as int));
            assert(pairs_from(items@, i as int) == pair_row(items@, i as int) + pairs_from(
                items@,
                i as int + 1,
            ));
            assert(r@ + pairs_from(items@, i as int + 1) =~= (row_start + pair_row(
                items@,
                i as int,
            )) + pairs_from(items@, i as int + 1));
            assert((row_start + pair_row(items@, i as int)) + pairs_from(items@, i as int + 1)
                =~= row_start + (pair_row(items@, i as int) + pairs_from(items@, i as int + 1)));
            assert(row_start + pairs_from(items@, i as int) =~= all_pairs(items@));
        }
        i = i + 1;
    }
    proof {
        assert(pairs_from(items@, n as int) =~= Seq::<(T, T)>::empty());
        assert(r@ + Seq::<(T, T)>::empty() =~= r@);
    }
    r
}

} // verus!
