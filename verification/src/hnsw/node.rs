use vstd::prelude::*;

use crate::vector::{Vector, VectorId};

verus! {

/// The plain values that a node holds.
pub(crate) struct NodeView<T> {
    pub(crate) id: VectorId,
    pub(crate) vector: Seq<T>,
    /// `neighbors[level]` lists the node's out-edges on that level.
    pub(crate) neighbors: Seq<Seq<usize>>,
    pub(crate) deleted: bool,
}

/// The empty neighbor list of each of the levels `0..=level`.
pub(crate) open spec fn empty_levels(level: usize) -> Seq<Seq<usize>> {
    Seq::new((level + 1) as nat, |l: int| Seq::<usize>::empty())
}

/// The list of `node` on `level`, or the empty list above the node's top level.
pub(crate) open spec fn level_list<T>(node: NodeView<T>, level: int) -> Seq<usize> {
    if 0 <= level < node.neighbors.len() {
        node.neighbors[level]
    } else {
        Seq::empty()
    }
}

/// `node` with the list of `level` replaced by `list`.
pub(crate) open spec fn with_level_list<T>(node: NodeView<T>, level: int, list: Seq<usize>) -> NodeView<T> {
    NodeView {
        id: node.id,
        vector: node.vector,
        neighbors: node.neighbors.update(level, list),
        deleted: node.deleted,
    }
}

/// `node` with an out-edge to `to` added on `level`, unless the node has no
/// such level or already has that edge.
pub(crate) open spec fn with_edge<T>(node: NodeView<T>, level: int, to: usize) -> NodeView<T> {
    if 0 <= level < node.neighbors.len() && !node.neighbors[level].contains(to) {
        with_level_list(node, level, node.neighbors[level].push(to))
    } else {
        node
    }
}

/// `node` with its list on `level` replaced by `list`, if it has that level.
pub(crate) open spec fn with_list<T>(node: NodeView<T>, level: int, list: Seq<usize>) -> NodeView<T> {
    if 0 <= level < node.neighbors.len() {
        with_level_list(node, level, list)
    } else {
        node
    }
}

/// One stored vector with its adjacency lists, one list per level.
pub(crate) struct Node<T> {
    id: VectorId,
    vector: Vector<T>,
    neighbors: Vec<Vec<usize>>,
    deleted: bool,
}

impl<T> View for Node<T> {
    type V = NodeView<T>;

    closed spec fn view(&self) -> NodeView<T> {
        NodeView {
            id: self.id,
            vector: self.vector@,
            neighbors: self.neighbors@.map_values(|list: Vec<usize>| list@),
            deleted: self.deleted,
        }
    }
}

impl<T> Node<T> {
    /// A live node on the levels `0..=level`, without edges.
    pub(crate) fn new(id: VectorId, vector: Vector<T>, level: usize) -> (node: Self)
        ensures
            node@ == (NodeView { id, vector: vector@, neighbors: empty_levels(level), deleted: false }),
    {
        let mut neighbors: Vec<Vec<usize>> = Vec::new();
        let mut l: usize = 0;
        loop
            invariant_except_break
                l <= level,
                neighbors@.len() == l,
            invariant
                forall|i: int| 0 <= i < neighbors@.len() ==> (#[trigger] neighbors@[i])@ == Seq::<usize>::empty(),
            ensures
                neighbors@.len() == level + 1,
            decreases level - l,
        {
            neighbors.push(Vec::new());
            if l == level {
                break;
            }
            l = l + 1;
        }
        let node = Self { id, vector, neighbors, deleted: false };
        assert(node@.neighbors =~= empty_levels(level));
        node
    }

    pub(crate) fn id(&self) -> (id: VectorId)
        ensures
            id == self@.id,
    {
        self.id
    }

    pub(crate) fn vector(&self) -> (vector: &[T])
        ensures
            vector@ == self@.vector,
    {
        self.vector.as_slice()
    }

    /// The out-edges on `level`; none above the node's top level.
    pub(crate) fn neighbors(&self, level: usize) -> (list: &[usize])
        ensures
            list@ == level_list(self@, level as int),
    {
        if level < self.neighbors.len() {
            self.neighbors[level].as_slice()
        } else {
            &[]
        }
    }

    /// Adds an out-edge to `to` on `level`, unless the node has no such level
    /// or the edge is there already.
    pub(crate) fn add_neighbor(&mut self, level: usize, to: usize)
        ensures
            final(self)@ == with_edge(old(self)@, level as int, to),
    {
        if level < self.neighbors.len() {
            if !contains_index(self.neighbors[level].as_slice(), to) {
                self.neighbors[level].push(to);
                assert(self@.neighbors =~= old(self)@.neighbors.update(level as int, old(self)@.neighbors[level as int].push(to)));
            }
        }
    }

    /// Replaces the out-edges on `level`, if the node has that level.
    pub(crate) fn set_neighbors(&mut self, level: usize, list: Vec<usize>)
        ensures
            final(self)@ == with_list(old(self)@, level as int, list@),
    {
        if level < self.neighbors.len() {
            self.neighbors.set(level, list);
            assert(self@.neighbors =~= old(self)@.neighbors.update(level as int, list@));
        }
    }

    pub(crate) fn is_deleted(&self) -> (deleted: bool)
        ensures
            deleted == self@.deleted,
    {
        self.deleted
    }

    pub(crate) fn mark_deleted(&mut self)
        ensures
            final(self)@ == (NodeView { deleted: true, ..old(self)@ }),
    {
        self.deleted = true;
    }
}

/// Whether `list` holds `value`.
pub(crate) fn contains_index(list: &[usize], value: usize) -> (found: bool)
    ensures
        found == list@.contains(value),
{
    let mut i: usize = 0;
    while i < list.len()
        invariant
            i <= list@.len(),
            forall|j: int| 0 <= j < i ==> list@[j] != value,
        decreases list@.len() - i,
    {
        if list[i] == value {
            return true;
        }
        i = i + 1;
    }
    false
}

} // verus!
