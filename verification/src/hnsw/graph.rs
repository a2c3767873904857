use std::collections::HashMap;

use vstd::prelude::*;

use crate::vector::VectorId;

use super::node::{Node, NodeView, with_edge, with_list};

verus! {

/// Every out-edge of every node points at a node of the graph.
pub(crate) open spec fn edges_valid<T>(nodes: Seq<NodeView<T>>) -> bool {
    forall|i: int, l: int, j: int|
        0 <= i < nodes.len() && 0 <= l < nodes[i].neighbors.len() && 0 <= j
            < nodes[i].neighbors[l].len() ==> #[trigger] nodes[i].neighbors[l][j] < nodes.len()
}

/// No node has an edge to itself or the same edge twice on one level.
pub(crate) open spec fn edges_simple<T>(nodes: Seq<NodeView<T>>) -> bool {
    forall|i: int, l: int|
        0 <= i < nodes.len() && 0 <= l < nodes[i].neighbors.len() ==> {
            &&& (#[trigger] nodes[i].neighbors[l]).no_duplicates()
            &&& !nodes[i].neighbors[l].contains(i as usize)
        }
}

/// `ids` maps the id of each live node to that node's position, and holds
/// nothing else.
pub(crate) open spec fn ids_consistent<T>(nodes: Seq<NodeView<T>>, ids: Map<VectorId, usize>) -> bool {
    &&& forall|id: VectorId| #[trigger]
        ids.contains_key(id) ==> ids[id] < nodes.len() && nodes[ids[id] as int].id == id
            && !nodes[ids[id] as int].deleted
    &&& forall|i: int|
        0 <= i < nodes.len() && !(#[trigger] nodes[i]).deleted ==> ids.contains_key(nodes[i].id)
            && ids[nodes[i].id] == i
}

/// The live vectors, by id.
pub(crate) open spec fn live_vectors<T>(nodes: Seq<NodeView<T>>, ids: Map<VectorId, usize>) -> Map<
    VectorId,
    Seq<T>,
> {
    Map::new(|id: VectorId| ids.contains_key(id), |id: VectorId| nodes[ids[id] as int].vector)
}

/// `after` differs from `before` in adjacency lists at most.
pub(crate) open spec fn same_payload<T>(before: Seq<NodeView<T>>, after: Seq<NodeView<T>>) -> bool {
    &&& after.len() == before.len()
    &&& forall|i: int|
        0 <= i < before.len() ==> (#[trigger] after[i]).id == before[i].id && after[i].vector
            == before[i].vector && after[i].deleted == before[i].deleted
}

/// A change of adjacency lists alone keeps the id index consistent and the
/// live vectors as they were.
pub(crate) proof fn lemma_same_payload<T>(
    before: Seq<NodeView<T>>,
    after: Seq<NodeView<T>>,
    ids: Map<VectorId, usize>,
)
    requires
        same_payload(before, after),
        ids_consistent(before, ids),
    ensures
        ids_consistent(after, ids),
        live_vectors(after, ids) == live_vectors(before, ids),
{
    assert forall|i: int|
        0 <= i < after.len() && !(#[trigger] after[i]).deleted implies ids.contains_key(after[i].id)
        && ids[after[i].id] == i by {
        assert(!before[i].deleted);
    }
    assert(live_vectors(after, ids) =~= live_vectors(before, ids));
}

/// The nodes of an index, their adjacency lists, and the position of each
/// live id.
pub(crate) struct HnswGraph<T> {
    nodes: Vec<Node<T>>,
    id_to_index: HashMap<VectorId, usize>,
    active_len: usize,
}

impl<T> HnswGraph<T> {
    /// The nodes, live and deleted, in the order of their insertion.
    pub(crate) closed spec fn nodes(&self) -> Seq<NodeView<T>> {
        self.nodes@.map_values(|node: Node<T>| node@)
    }

    /// The position of each live id.
    pub(crate) closed spec fn ids(&self) -> Map<VectorId, usize> {
        self.id_to_index@
    }

    pub(crate) closed spec fn counts_wf(&self) -> bool {
        &&& self.active_len == self.id_to_index@.len()
        &&& self.active_len <= self.nodes@.len()
    }

    pub(crate) open spec fn wf(&self) -> bool {
        &&& self.counts_wf()
        &&& ids_consistent(self.nodes(), self.ids())
        &&& edges_valid(self.nodes())
        &&& edges_simple(self.nodes())
    }

    /// Finitely many ids are live.
    pub(crate) proof fn lemma_ids_finite(&self)
        ensures
            self.ids().dom().finite(),
    {
        vstd::std_specs::hash::axiom_hashmap_view_finite_dom(self.id_to_index);
    }

    pub(crate) fn new() -> (graph: Self)
        ensures
            graph.wf(),
            graph.nodes() == Seq::<NodeView<T>>::empty(),
            graph.ids() == Map::<VectorId, usize>::empty(),
    {
        let graph = Self { nodes: Vec::new(), id_to_index: HashMap::new(), active_len: 0 };
        assert(graph.nodes() =~= Seq::<NodeView<T>>::empty());
        graph
    }

    /// The number of live nodes.
    pub(crate) fn len(&self) -> (len: usize)
        requires
            self.wf(),
        ensures
            len == self.ids().len(),
    {
        self.active_len
    }

    pub(crate) fn is_empty(&self) -> (empty: bool)
        requires
            self.wf(),
        ensures
            empty == (self.ids().len() == 0),
    {
        self.active_len == 0
    }

    pub(crate) fn contains_id(&self, id: VectorId) -> (found: bool)
        ensures
            found == self.ids().contains_key(id),
    {
        self.id_to_index.contains_key(&id)
    }

    /// Appends a live node without edges and indexes its id; returns its
    /// position.
    pub(crate) fn add_node(&mut self, node: Node<T>) -> (index: usize)
        requires
            old(self).wf(),
            !old(self).ids().contains_key(node@.id),
            !node@.deleted,
            forall|l: int| 0 <= l < node@.neighbors.len() ==> (#[trigger] node@.neighbors[l]).len() == 0,
        ensures
            final(self).wf(),
            index == old(self).nodes().len(),
            final(self).nodes() == old(self).nodes().push(node@),
            final(self).ids() == old(self).ids().insert(node@.id, index),
    {
        let index = self.nodes.len();
        let ghost view = node@;
        self.id_to_index.insert(node.id(), index);
        self.nodes.push(node);
        assert(self.nodes@.len() == self.nodes.len());
        self.active_len = self.active_len + 1;
        assert(self.nodes() =~= old(self).nodes().push(view));
        let ghost nodes = self.nodes();
        let ghost ids = self.ids();
        assert forall|id: VectorId| #[trigger]
            ids.contains_key(id) implies ids[id] < nodes.len() && nodes[ids[id] as int].id == id
            && !nodes[ids[id] as int].deleted by {
            if id != view.id {
                assert(old(self).ids().contains_key(id));
            }
        }
        assert forall|i: int|
            0 <= i < nodes.len() && !(#[trigger] nodes[i]).deleted implies ids.contains_key(
            nodes[i].id)
            && ids[nodes[i].id] == i by {
            if i < index {
                assert(old(self).nodes()[i] == nodes[i]);
            }
        }
        assert forall|i: int, l: int, j: int|
            0 <= i < nodes.len() && 0 <= l < nodes[i].neighbors.len() && 0 <= j
                < nodes[i].neighbors[l].len() implies #[trigger] nodes[i].neighbors[l][j]
            < nodes.len() by {
            if i < index {
                assert(old(self).nodes()[i] == nodes[i]);
            }
        }
        assert forall|i: int, l: int| 0 <= i < nodes.len() && 0 <= l < nodes[i].neighbors.len() implies {
            &&& (#[trigger] nodes[i].neighbors[l]).no_duplicates()
            &&& !nodes[i].neighbors[l].contains(i as usize)
        } by {
            if i < index {
                assert(old(self).nodes()[i] == nodes[i]);
            }
        }
        index
    }

    /// The number of nodes, live and deleted.
    pub(crate) fn node_count(&self) -> (count: usize)
        ensures
            count == self.nodes().len(),
    {
        self.nodes.len()
    }

    pub(crate) fn node(&self, index: usize) -> (node: &Node<T>)
        requires
            index < self.nodes().len(),
        ensures
            node@ == self.nodes()[index as int],
    {
        &self.nodes[index]
    }

    /// Marks the live node of `id` deleted and drops `id` from the index;
    /// returns the node's position, or `None` when no live node has `id`.
    pub(crate) fn mark_deleted(&mut self, id: VectorId) -> (index: Option<usize>)
        requires
            old(self).wf(),
        ensures
            final(self).wf(),
            old(self).ids().contains_key(id) ==> {
                let i = old(self).ids()[id];
                &&& index == Some(i)
                &&& final(self).nodes() == old(self).nodes().update(
                    i as int,
                    NodeView { deleted: true, ..old(self).nodes()[i as int] },
                )
                &&& final(self).ids() == old(self).ids().remove(id)
            },
            !old(self).ids().contains_key(id) ==> {
                &&& index is None
                &&& final(self).nodes() == old(self).nodes()
                &&& final(self).ids() == old(self).ids()
            },
    {
        let index = match self.id_to_index.remove(&id) {
            Some(index) => index,
            None => {
                return None;
            },
        };
        if !self.nodes[index].is_deleted() {
            self.nodes[index].mark_deleted();
            self.active_len = self.active_len - 1;
        }
        let ghost nodes = self.nodes();
        let ghost ids = self.ids();
        assert(nodes =~= old(self).nodes().update(
            index as int,
            NodeView { deleted: true, ..old(self).nodes()[index as int] },
        ));
        assert forall|k: VectorId| #[trigger]
            ids.contains_key(k) implies ids[k] < nodes.len() && nodes[ids[k] as int].id == k
            && !nodes[ids[k] as int].deleted by {
            assert(old(self).ids().contains_key(k));
        }
        assert forall|i: int|
            0 <= i < nodes.len() && !(#[trigger] nodes[i]).deleted implies ids.contains_key(
            nodes[i].id)
            && ids[nodes[i].id] == i by {
            assert(old(self).nodes()[i] == nodes[i]);
        }
        assert forall|i: int, l: int, j: int|
            0 <= i < nodes.len() && 0 <= l < nodes[i].neighbors.len() && 0 <= j
                < nodes[i].neighbors[l].len() implies #[trigger] nodes[i].neighbors[l][j]
            < nodes.len() by {
            assert(old(self).nodes()[i].neighbors == nodes[i].neighbors);
        }
        assert forall|i: int, l: int| 0 <= i < nodes.len() && 0 <= l < nodes[i].neighbors.len() implies {
            &&& (#[trigger] nodes[i].neighbors[l]).no_duplicates()
            &&& !nodes[i].neighbors[l].contains(i as usize)
        } by {
            assert(old(self).nodes()[i].neighbors == nodes[i].neighbors);
        }
        Some(index)
    }

    /// Adds the edge `from -> to` on `level`; a loop is never added.
    pub(crate) fn add_directed_edge(&mut self, from: usize, to: usize, level: usize)
        requires
            old(self).wf(),
            from < old(self).nodes().len(),
            to < old(self).nodes().len(),
        ensures
            final(self).wf(),
            final(self).ids() == old(self).ids(),
            final(self).nodes() == (if from == to {
                old(self).nodes()
            } else {
                old(self).nodes().update(
                    from as int,
                    with_edge(old(self).nodes()[from as int], level as int, to),
                )
            }),
    {
        if from == to {
            return;
        }
        self.nodes[from].add_neighbor(level, to);
        let ghost nodes = self.nodes();
        assert(nodes =~= old(self).nodes().update(
            from as int,
            with_edge(old(self).nodes()[from as int], level as int, to),
        ));
        assert(same_payload(old(self).nodes(), nodes));
        proof {
            lemma_same_payload(old(self).nodes(), nodes, self.ids());
        }
        assert forall|i: int, l: int, j: int|
            0 <= i < nodes.len() && 0 <= l < nodes[i].neighbors.len() && 0 <= j
                < nodes[i].neighbors[l].len() implies #[trigger] nodes[i].neighbors[l][j]
            < nodes.len() by {
            if i == from && l == level && j == old(self).nodes()[i].neighbors[l].len() {
            } else {
                assert(nodes[i].neighbors[l][j] == old(self).nodes()[i].neighbors[l][j]);
            }
        }
        assert forall|i: int, l: int| 0 <= i < nodes.len() && 0 <= l < nodes[i].neighbors.len() implies {
            &&& (#[trigger] nodes[i].neighbors[l]).no_duplicates()
            &&& !nodes[i].neighbors[l].contains(i as usize)
        } by {
            let before = old(self).nodes()[i].neighbors[l];
            assert(before.no_duplicates() && !before.contains(i as usize));
            if i == from && l == level && !before.contains(to) {
                assert(nodes[i].neighbors[l] == before.push(to));
                assert forall|a: int, b: int|
                    0 <= a < before.len() + 1 && 0 <= b < before.len() + 1 && a != b implies
                    #[trigger] before.push(to)[a] != #[trigger] before.push(to)[b] by {
                    if a == before.len() {
                        assert(!before.contains(to));
                        assert(before[b] != to);
                    } else if b == before.len() {
                        assert(before[a] != to);
                    }
                }
                if before.push(to).contains(i as usize) {
                    let w = choose|w: int| 0 <= w < before.len() + 1 && before.push(to)[w] == i as usize;
                    if w < before.len() {
                        assert(before.contains(i as usize));
                    }
                }
            } else {
                assert(nodes[i].neighbors[l] == before);
            }
        }
    }

    /// Adds the edges `left -> right` and `right -> left` on `level`.
    pub(crate) fn add_bidirectional_edge(&mut self, left: usize, right: usize, level: usize)
        requires
            old(self).wf(),
            left < old(self).nodes().len(),
            right < old(self).nodes().len(),
        ensures
            final(self).wf(),
            final(self).ids() == old(self).ids(),
            same_payload(old(self).nodes(), final(self).nodes()),
            forall|i: int|
                0 <= i < old(self).nodes().len() && i != left && i != right ==> final(self).nodes()[i]
                    == old(self).nodes()[i],
            left == right ==> final(self).nodes() == old(self).nodes(),
            left != right ==> final(self).nodes()[left as int] == with_edge(
                old(self).nodes()[left as int],
                level as int,
                right,
            ),
            left != right ==> final(self).nodes()[right as int] == with_edge(
                old(self).nodes()[right as int],
                level as int,
                left,
            ),
    {
        self.add_directed_edge(left, right, level);
        self.add_directed_edge(right, left, level);
    }

    /// Replaces the out-edges of `index` on `level` by `list`.
    pub(crate) fn set_neighbors(&mut self, index: usize, level: usize, list: Vec<usize>)
        requires
            old(self).wf(),
            index < old(self).nodes().len(),
            forall|j: int| 0 <= j < list@.len() ==> #[trigger] list@[j] < old(self).nodes().len(),
            list@.no_duplicates(),
            !list@.contains(index),
        ensures
            final(self).wf(),
            final(self).ids() == old(self).ids(),
            final(self).nodes() == old(self).nodes().update(
                index as int,
                with_list(old(self).nodes()[index as int], level as int, list@),
            ),
    {
        let ghost new_list = list@;
        self.nodes[index].set_neighbors(level, list);
        let ghost nodes = self.nodes();
        assert(nodes =~= old(self).nodes().update(
            index as int,
            with_list(old(self).nodes()[index as int], level as int, new_list),
        ));
        assert(same_payload(old(self).nodes(), nodes));
        proof {
            lemma_same_payload(old(self).nodes(), nodes, self.ids());
        }
        assert forall|i: int, l: int, j: int|
            0 <= i < nodes.len() && 0 <= l < nodes[i].neighbors.len() && 0 <= j
                < nodes[i].neighbors[l].len() implies #[trigger] nodes[i].neighbors[l][j]
            < nodes.len() by {
            if i == index && l == level {
            } else {
                assert(nodes[i].neighbors[l][j] == old(self).nodes()[i].neighbors[l][j]);
            }
        }
        assert forall|i: int, l: int| 0 <= i < nodes.len() && 0 <= l < nodes[i].neighbors.len() implies {
            &&& (#[trigger] nodes[i].neighbors[l]).no_duplicates()
            &&& !nodes[i].neighbors[l].contains(i as usize)
        } by {
            if i == index && l == level {
            } else {
                assert(nodes[i].neighbors[l] == old(self).nodes()[i].neighbors[l]);
            }
        }
    }
}

} // verus!
