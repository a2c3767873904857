use vstd::prelude::*;

use crate::metric::DistanceMetric;

use super::graph::{HnswGraph, edges_valid};
use super::node::{NodeView, level_list};

verus! {

broadcast use vstd::seq_lib::group_to_multiset_ensures;

/// A node met during a search, with its distance key to the query.
#[derive(Debug, Clone, Copy)]
pub(crate) struct Candidate {
    pub(crate) index: usize,
    pub(crate) distance: u64,
}

/// Candidates are ordered by distance, then by position in the graph.
pub(crate) open spec fn cand_lt(a: Candidate, b: Candidate) -> bool {
    a.distance < b.distance || (a.distance == b.distance && a.index < b.index)
}

pub(crate) open spec fn cand_le(a: Candidate, b: Candidate) -> bool {
    a.distance < b.distance || (a.distance == b.distance && a.index <= b.index)
}

pub(crate) open spec fn sorted(s: Seq<Candidate>) -> bool {
    forall|i: int, j: int| 0 <= i < j < s.len() ==> cand_le(#[trigger] s[i], #[trigger] s[j])
}

pub(crate) open spec fn strictly_sorted(s: Seq<Candidate>) -> bool {
    forall|i: int, j: int| 0 <= i < j < s.len() ==> cand_lt(#[trigger] s[i], #[trigger] s[j])
}

/// No node occurs twice.
pub(crate) open spec fn distinct_indices(s: Seq<Candidate>) -> bool {
    forall|i: int, j: int| 0 <= i < j < s.len() ==> (#[trigger] s[i]).index != (#[trigger] s[j]).index
}

/// The metric's key from `query` to the vector of node `i`.
pub(crate) open spec fn distance_to<T, M: DistanceMetric<T>>(
    metric: M,
    query: Seq<T>,
    nodes: Seq<NodeView<T>>,
    i: int,
) -> u64 {
    metric.spec_distance(query, nodes[i].vector)
}

/// `c` names a node and carries that node's distance key to `query`.
pub(crate) open spec fn measured<T, M: DistanceMetric<T>>(
    metric: M,
    query: Seq<T>,
    nodes: Seq<NodeView<T>>,
    c: Candidate,
) -> bool {
    &&& c.index < nodes.len()
    &&& c.distance == distance_to(metric, query, nodes, c.index as int)
}

/// `c` names one of the `count` nodes of the graph.
pub(crate) open spec fn in_graph(count: nat, c: Candidate) -> bool {
    c.index < count
}

/// `path` follows out-edges on `level`, from its first node to its last.
pub(crate) open spec fn is_path<T>(nodes: Seq<NodeView<T>>, level: int, path: Seq<usize>) -> bool {
    &&& path.len() >= 1
    &&& forall|k: int|
        0 <= k < path.len() - 1 ==> level_list(nodes[#[trigger] path[k] as int], level).contains(
            path[k + 1],
        )
}

/// Node `to` can be reached from node `from` along out-edges on `level`.
pub(crate) open spec fn reachable<T>(nodes: Seq<NodeView<T>>, level: int, from: usize, to: usize) -> bool {
    exists|path: Seq<usize>| #[trigger]
        is_path(nodes, level, path) && path[0] == from && path.last() == to
}

/// A path to `from` extends along the edge `from -> to`.
proof fn lemma_extend_path<T>(nodes: Seq<NodeView<T>>, level: int, entry: usize, from: usize, to: usize)
    requires
        reachable(nodes, level, entry, from),
        level_list(nodes[from as int], level).contains(to),
    ensures
        reachable(nodes, level, entry, to),
{
    let path = choose|path: Seq<usize>|
        #[trigger] is_path(nodes, level, path) && path[0] == entry && path.last() == from;
    let longer = path.push(to);
    assert forall|k: int| 0 <= k < longer.len() - 1 implies level_list(
        nodes[#[trigger] longer[k] as int],
        level,
    ).contains(longer[k + 1]) by {
        if k < path.len() - 1 {
            assert(longer[k] == path[k] && longer[k + 1] == path[k + 1]);
        } else {
            assert(longer[k] == from && longer[k + 1] == to);
        }
    }
    assert(is_path(nodes, level, longer) && longer[0] == entry && longer.last() == to);
}

/// A path that starts at a node of the graph stays in the graph.
proof fn lemma_path_in_graph<T>(nodes: Seq<NodeView<T>>, level: int, path: Seq<usize>)
    requires
        is_path(nodes, level, path),
        path[0] < nodes.len(),
        edges_valid(nodes),
    ensures
        forall|k: int| 0 <= k < path.len() ==> #[trigger] path[k] < nodes.len(),
    decreases path.len(),
{
    if path.len() > 1 {
        let shorter = path.drop_last();
        assert forall|k: int| 0 <= k < shorter.len() - 1 implies level_list(
            nodes[#[trigger] shorter[k] as int],
            level,
        ).contains(shorter[k + 1]) by {
            assert(shorter[k] == path[k] && shorter[k + 1] == path[k + 1]);
        }
        lemma_path_in_graph(nodes, level, shorter);
        let v = path[path.len() - 2] as int;
        assert(shorter[path.len() - 2] == v);
        assert(level_list(nodes[v], level).contains(path.last()));
        let j = choose|j: int|
            0 <= j < level_list(nodes[v], level).len() && level_list(nodes[v], level)[j] == path.last();
        assert(nodes[v].neighbors[level][j] < nodes.len());
        assert forall|k: int| 0 <= k < path.len() implies #[trigger] path[k] < nodes.len() by {
            if k < path.len() - 1 {
                assert(shorter[k] == path[k]);
            }
        }
    }
}

/// A node that no edge on `level` points at is reached from no other node.
pub(crate) proof fn lemma_unreached<T>(nodes: Seq<NodeView<T>>, level: int, from: usize, to: usize)
    requires
        reachable(nodes, level, from, to),
        from < nodes.len(),
        edges_valid(nodes),
        forall|i: int| 0 <= i < nodes.len() ==> !(#[trigger] level_list(nodes[i], level)).contains(to),
    ensures
        from == to,
{
    let path = choose|path: Seq<usize>|
        #[trigger] is_path(nodes, level, path) && path[0] == from && path.last() == to;
    lemma_path_in_graph(nodes, level, path);
    if path.len() > 1 {
        let v = path[path.len() - 2] as int;
        assert(level_list(nodes[v], level).contains(path[path.len() - 1]));
    }
}

/// Every edge on a level points at a node that has that level.
pub(crate) open spec fn edges_climb<T>(nodes: Seq<NodeView<T>>) -> bool {
    forall|i: int, l: int, k: int|
        0 <= i < nodes.len() && 0 <= k < level_list(nodes[i], l).len() ==> nodes[#[trigger] level_list(
            nodes[i],
            l,
        )[k] as int].neighbors.len() > l
}

/// What a node reaches on a level from a node that has the level has the
/// level too, when every edge points at a node that has its level.
pub(crate) proof fn lemma_reach_keeps_level<T>(nodes: Seq<NodeView<T>>, level: int, from: usize, to: usize)
    requires
        reachable(nodes, level, from, to),
        from < nodes.len(),
        edges_valid(nodes),
        edges_climb(nodes),
        nodes[from as int].neighbors.len() > level,
    ensures
        nodes[to as int].neighbors.len() > level,
{
    let path = choose|path: Seq<usize>|
        #[trigger] is_path(nodes, level, path) && path[0] == from && path.last() == to;
    lemma_path_in_graph(nodes, level, path);
    if path.len() > 1 {
        let v = path[path.len() - 2] as int;
        assert(path[path.len() - 2] < nodes.len());
        assert(level_list(nodes[v], level).contains(path[path.len() - 1]));
        let j = choose|j: int|
            0 <= j < level_list(nodes[v], level).len() && level_list(nodes[v], level)[j] == path.last();
        assert(nodes[level_list(nodes[v], level)[j] as int].neighbors.len() > level);
    }
}

/// Every node reaches itself.
proof fn lemma_reach_self<T>(nodes: Seq<NodeView<T>>, level: int, node: usize)
    ensures
        reachable(nodes, level, node, node),
{
    let path = seq![node];
    assert(is_path(nodes, level, path) && path[0] == node && path.last() == node);
}

/// `list` holds a candidate for node `index`.
pub(crate) open spec fn holds(list: Seq<Candidate>, index: usize) -> bool {
    exists|k: int| 0 <= k < list.len() && (#[trigger] list[k]).index == index
}

/// Every out-neighbor of node `v` on `level` is marked visited.
pub(crate) open spec fn neighbors_visited<T>(
    nodes: Seq<NodeView<T>>,
    level: int,
    visited: Seq<bool>,
    v: int,
) -> bool {
    forall|j: int|
        0 <= j < level_list(nodes[v], level).len() ==> visited[#[trigger] level_list(
            nodes[v],
            level,
        )[j] as int]
}

/// No candidate of `list` is farther than the key `d`.
pub(crate) open spec fn within(list: Seq<Candidate>, d: u64) -> bool {
    forall|i: int| 0 <= i < list.len() ==> (#[trigger] list[i]).distance <= d
}

/// `nearest` keeps the `ef` nearest of the `visited` nodes: as many as were
/// visited, up to `ef`; all of them while fewer than `ef` are kept; and no
/// visited node left out is nearer to `query` than a kept one.
pub(crate) open spec fn keeps_nearest<T, M: DistanceMetric<T>>(
    metric: M,
    query: Seq<T>,
    nodes: Seq<NodeView<T>>,
    visited: Seq<bool>,
    nearest: Seq<Candidate>,
    ef: int,
) -> bool {
    &&& nearest.len() == if ef < count_true(visited) {
        ef
    } else {
        count_true(visited) as int
    }
    &&& nearest.len() < ef ==> forall|v: int|
        0 <= v < visited.len() && #[trigger] visited[v] ==> holds(nearest, v as usize)
    &&& forall|v: int|
        0 <= v < visited.len() && #[trigger] visited[v] && !holds(nearest, v as usize) ==> within(
            nearest,
            distance_to(metric, query, nodes, v),
        )
}

/// Every kept node other than `except` is pending or has all its
/// out-neighbors on `level` visited.
pub(crate) open spec fn kept_expanded<T>(
    nodes: Seq<NodeView<T>>,
    level: int,
    visited: Seq<bool>,
    nearest: Seq<Candidate>,
    pending: Seq<Candidate>,
    except: int,
) -> bool {
    forall|i: int|
        0 <= i < nearest.len() ==> holds(pending, (#[trigger] nearest[i]).index) || neighbors_visited(
            nodes,
            level,
            visited,
            nearest[i].index as int,
        ) || nearest[i].index == except
}

/// Visiting one more node keeps the `ef` nearest: the node is kept while
/// fewer than `ef` are kept, it replaces the farthest kept one when nearer,
/// and is left out otherwise.
proof fn lemma_keeps_visit<T, M: DistanceMetric<T>>(
    metric: M,
    query: Seq<T>,
    nodes: Seq<NodeView<T>>,
    v0: Seq<bool>,
    n0: Seq<Candidate>,
    ef: int,
    f: Candidate,
    far: int,
    n1: Seq<Candidate>,
)
    requires
        keeps_nearest(metric, query, nodes, v0, n0, ef),
        ef >= 1,
        v0.len() <= usize::MAX,
        f.index < v0.len(),
        !v0[f.index as int],
        count_true(v0.update(f.index as int, true)) == count_true(v0) + 1,
        f.distance == distance_to(metric, query, nodes, f.index as int),
        distinct_indices(n0),
        forall|i: int| 0 <= i < n0.len() ==> #[trigger] n0[i].index < v0.len() && v0[n0[i].index as int]
            && n0[i].distance == distance_to(metric, query, nodes, n0[i].index as int),
        0 <= far < n0.len(),
        forall|i: int| 0 <= i < n0.len() ==> cand_le(#[trigger] n0[i], n0[far]),
        n0.len() < ef ==> n1 == n0.push(f),
        n0.len() >= ef && f.distance < n0[far].distance ==> exists|top: int|
            0 <= top <= n0.len() && n1 == n0.push(f).remove(top) && forall|i: int|
                0 <= i <= n0.len() ==> cand_le(#[trigger] n0.push(f)[i], n0.push(f)[top]),
        n0.len() >= ef && f.distance >= n0[far].distance ==> n1 == n0,
    ensures
        keeps_nearest(metric, query, nodes, v0.update(f.index as int, true), n1, ef),
{
    let v1 = v0.update(f.index as int, true);
    let x = f.index as int;
    if n0.len() < ef {
        assert(n0.len() == count_true(v0));
        assert(n1[n0.len() as int] == f);
        assert forall|v: int| 0 <= v < v1.len() && #[trigger] v1[v] implies holds(n1, v as usize) by {
            if v != x {
                assert(v0[v]);
                assert(holds(n0, v as usize));
                let k = choose|k: int| 0 <= k < n0.len() && n0[k].index == v as usize;
                assert(n1[k] == n0[k]);
            }
        }
    } else if f.distance < n0[far].distance {
        let full = n0.push(f);
        let top = choose|top: int|
            0 <= top <= n0.len() && n1 == n0.push(f).remove(top) && forall|i: int|
                0 <= i <= n0.len() ==> cand_le(#[trigger] n0.push(f)[i], n0.push(f)[top]);
        assert(full[n0.len() as int] == f);
        assert forall|i: int| 0 <= i < n1.len() implies (#[trigger] n1[i]) == full[if i < top { i } else { i + 1 }] by {}
        assert forall|v: int| 0 <= v < v1.len() && #[trigger] v1[v] && !holds(n1, v as usize) implies within(
            n1,
            distance_to(metric, query, nodes, v),
        ) by {
            if holds(full, v as usize) {
                let k = choose|k: int| 0 <= k < full.len() && full[k].index == v as usize;
                if k != top {
                    let w = if k < top { k } else { k - 1 };
                    assert(n1[w] == full[k]);
                    assert(holds(n1, v as usize));
                }
                assert(k == top);
                if top < n0.len() {
                    assert(full[top] == n0[top]);
                    assert(n0[top].index < v0.len());
                    assert(n0[top].distance == distance_to(metric, query, nodes, n0[top].index as int));
                    assert(n0[top].index as int == v);
                } else {
                    assert(full[top] == f);
                }
                assert(full[top].distance == distance_to(metric, query, nodes, v));
                assert forall|i: int| 0 <= i < n1.len() implies (#[trigger] n1[i]).distance <= distance_to(
                    metric,
                    query,
                    nodes,
                    v,
                ) by {
                    let j = if i < top { i } else { i + 1 };
                    assert(cand_le(full[j], full[top]));
                }
            } else {
                assert(v != x);
                assert(v0[v]);
                assert(!holds(n0, v as usize)) by {
                    if holds(n0, v as usize) {
                        let k = choose|k: int| 0 <= k < n0.len() && n0[k].index == v as usize;
                        assert(full[k] == n0[k]);
                    }
                }
                assert(within(n0, distance_to(metric, query, nodes, v)));
                assert forall|i: int| 0 <= i < n1.len() implies (#[trigger] n1[i]).distance <= distance_to(
                    metric,
                    query,
                    nodes,
                    v,
                ) by {
                    let j = if i < top { i } else { i + 1 };
                    if j < n0.len() {
                        assert(full[j] == n0[j]);
                    }
                }
            }
        }
    } else {
        assert forall|v: int| 0 <= v < v1.len() && #[trigger] v1[v] && !holds(n1, v as usize) implies within(
            n1,
            distance_to(metric, query, nodes, v),
        ) by {
            if v == x {
                assert forall|i: int| 0 <= i < n1.len() implies (#[trigger] n1[i]).distance <= distance_to(
                    metric,
                    query,
                    nodes,
                    v,
                ) by {
                    assert(cand_le(n0[i], n0[far]));
                }
            } else {
                assert(v0[v]);
            }
        }
    }
}

/// Visiting one more node keeps every kept node pending or expanded, when
/// no pending node is dropped and every newly kept node is pending.
proof fn lemma_expanded_visit<T>(
    nodes: Seq<NodeView<T>>,
    level: int,
    v0: Seq<bool>,
    x: int,
    n0: Seq<Candidate>,
    c0: Seq<Candidate>,
    n1: Seq<Candidate>,
    c1: Seq<Candidate>,
    except: int,
)
    requires
        kept_expanded(nodes, level, v0, n0, c0, except),
        0 <= x < v0.len(),
        v0.len() == nodes.len(),
        edges_valid(nodes),
        forall|i: int| 0 <= i < n0.len() ==> (#[trigger] n0[i]).index < nodes.len(),
        forall|k: int| 0 <= k < c0.len() ==> c1.contains(#[trigger] c0[k]),
        forall|i: int| 0 <= i < n1.len() ==> n0.contains(#[trigger] n1[i]) || holds(c1, n1[i].index),
    ensures
        kept_expanded(nodes, level, v0.update(x, true), n1, c1, except),
{
    let v1 = v0.update(x, true);
    assert forall|i: int| 0 <= i < n1.len() implies holds(c1, (#[trigger] n1[i]).index) || neighbors_visited(
        nodes,
        level,
        v1,
        n1[i].index as int,
    ) || n1[i].index == except by {
        if n0.contains(n1[i]) && !holds(c1, n1[i].index) {
            let k = choose|k: int| 0 <= k < n0.len() && n0[k] == n1[i];
            if holds(c0, n0[k].index) {
                let j = choose|j: int| 0 <= j < c0.len() && c0[j].index == n0[k].index;
                assert(c1.contains(c0[j]));
                let w = choose|w: int| 0 <= w < c1.len() && c1[w] == c0[j];
                assert(c1[w].index == n1[i].index);
            } else if n0[k].index != except {
                let v = n0[k].index as int;
                assert(neighbors_visited(nodes, level, v0, v));
                assert forall|j: int| 0 <= j < level_list(nodes[v], level).len() implies v1[#[trigger] level_list(
                    nodes[v],
                    level,
                )[j] as int] by {
                    assert(v0[level_list(nodes[v], level)[j] as int]);
                    assert(nodes[v].neighbors[level][j] < nodes.len());
                }
            }
        }
    }
}

/// What a layer search answers of the nodes it `visited` on `level`: the
/// `ef` nearest of them, each with all its out-neighbors on `level`
/// visited.
pub(crate) open spec fn layer_kept<T, M: DistanceMetric<T>>(
    metric: M,
    query: Seq<T>,
    nodes: Seq<NodeView<T>>,
    level: int,
    visited: Seq<bool>,
    found: Seq<Candidate>,
    ef: int,
) -> bool {
    &&& visited.len() == nodes.len()
    &&& forall|i: int|
        0 <= i < found.len() ==> (#[trigger] found[i]).index < nodes.len() && visited[found[i].index as int]
    &&& keeps_nearest(metric, query, nodes, visited, found, ef)
    &&& kept_expanded(nodes, level, visited, found, Seq::empty(), -1)
}

/// A layer search's answer reads the graph only through the nodes' vectors
/// and their lists on the level searched.
pub(crate) proof fn lemma_layer_kept_congruent<T, M: DistanceMetric<T>>(
    metric: M,
    query: Seq<T>,
    a: Seq<NodeView<T>>,
    b: Seq<NodeView<T>>,
    level: int,
    visited: Seq<bool>,
    found: Seq<Candidate>,
    ef: int,
)
    requires
        a.len() == b.len(),
        forall|i: int| 0 <= i < a.len() ==> (#[trigger] a[i]).vector == b[i].vector,
        forall|i: int| 0 <= i < a.len() ==> #[trigger] level_list(a[i], level) == level_list(b[i], level),
        layer_kept(metric, query, a, level, visited, found, ef),
    ensures
        layer_kept(metric, query, b, level, visited, found, ef),
{
    assert forall|v: int| 0 <= v < a.len() implies #[trigger] distance_to(metric, query, b, v) == distance_to(
        metric,
        query,
        a,
        v,
    ) by {
        assert(a[v].vector == b[v].vector);
    }
    assert forall|v: int| 0 <= v < visited.len() && #[trigger] visited[v] && !holds(found, v as usize) implies within(
        found,
        distance_to(metric, query, b, v),
    ) by {
        assert(distance_to(metric, query, b, v) == distance_to(metric, query, a, v));
    }
    assert forall|i: int| 0 <= i < found.len() implies holds(Seq::<Candidate>::empty(), (#[trigger] found[i]).index)
        || neighbors_visited(b, level, visited, found[i].index as int) || found[i].index == -1 by {
        let v = found[i].index as int;
        assert(neighbors_visited(a, level, visited, v));
        assert(level_list(a[v], level) == level_list(b[v], level));
    }
}

/// Every visited node other than `except` that is not pending has all its
/// out-neighbors on `level` visited.
pub(crate) open spec fn closed<T>(
    nodes: Seq<NodeView<T>>,
    level: int,
    visited: Seq<bool>,
    pending: Seq<Candidate>,
    except: int,
) -> bool {
    forall|v: int|
        0 <= v < visited.len() && visited[v] && v != except && !holds(pending, v as usize)
            ==> #[trigger] neighbors_visited(nodes, level, visited, v)
}

/// Marking one more node visited keeps a visited set closed, when the node
/// becomes pending and no pending node is dropped.
proof fn lemma_closed_grows<T>(
    nodes: Seq<NodeView<T>>,
    level: int,
    visited: Seq<bool>,
    pending: Seq<Candidate>,
    pending2: Seq<Candidate>,
    except: int,
    w: int,
)
    requires
        closed(nodes, level, visited, pending, except),
        edges_valid(nodes),
        visited.len() == nodes.len(),
        0 <= w < visited.len(),
        forall|v: usize| holds(pending, v) ==> holds(pending2, v),
        holds(pending2, w as usize) || visited[w],
    ensures
        closed(nodes, level, visited.update(w, true), pending2, except),
{
    let after = visited.update(w, true);
    assert forall|v: int|
        0 <= v < after.len() && after[v] && v != except && !holds(pending2, v as usize) implies
        #[trigger] neighbors_visited(nodes, level, after, v) by {
        assert(visited[v]);
        assert(!holds(pending, v as usize));
        assert(neighbors_visited(nodes, level, visited, v));
        assert forall|j: int| 0 <= j < level_list(nodes[v], level).len() implies after[
            #[trigger] level_list(nodes[v], level)[j] as int] by {
            assert(nodes[v].neighbors[level][j] < nodes.len());
            assert(visited[level_list(nodes[v], level)[j] as int]);
        }
    }
}

/// Along a path that starts at a visited node, a closed visited set holds
/// every node.
proof fn lemma_closed_reach<T>(
    nodes: Seq<NodeView<T>>,
    level: int,
    visited: Seq<bool>,
    path: Seq<usize>,
)
    requires
        visited.len() == nodes.len(),
        closed(nodes, level, visited, Seq::empty(), -1),
        is_path(nodes, level, path),
        0 <= path[0] < nodes.len(),
        visited[path[0] as int],
        edges_valid(nodes),
    ensures
        path.last() < nodes.len(),
        visited[path.last() as int],
    decreases path.len(),
{
    if path.len() > 1 {
        let shorter = path.drop_last();
        assert forall|k: int| 0 <= k < shorter.len() - 1 implies level_list(
            nodes[#[trigger] shorter[k] as int],
            level,
        ).contains(shorter[k + 1]) by {
            assert(shorter[k] == path[k] && shorter[k + 1] == path[k + 1]);
        }
        lemma_closed_reach(nodes, level, visited, shorter);
        let v = shorter.last() as int;
        assert(shorter.last() == path[path.len() - 2]);
        assert(level_list(nodes[v], level).contains(path.last()));
        let j = choose|j: int|
            0 <= j < level_list(nodes[v], level).len() && level_list(nodes[v], level)[j] == path.last();
        assert(!holds(Seq::<Candidate>::empty(), v as usize));
        assert(neighbors_visited(nodes, level, visited, v));
        assert(nodes[v].neighbors[level][j] < nodes.len());
    }
}

/// The number of `true` entries.
pub(crate) open spec fn count_true(s: Seq<bool>) -> nat
    decreases s.len(),
{
    if s.len() == 0 {
        0
    } else {
        count_true(s.drop_last()) + if s.last() {
            1nat
        } else {
            0nat
        }
    }
}

/// Node `v` can be reached from `entry` on `level`.
pub(crate) open spec fn reach_of<T>(nodes: Seq<NodeView<T>>, level: int, entry: usize, v: int) -> bool {
    reachable(nodes, level, entry, v as usize)
}

/// The positions of the nodes that `entry` reaches on `level`.
pub(crate) open spec fn reached<T>(nodes: Seq<NodeView<T>>, level: int, entry: usize) -> Set<int> {
    Set::new(|v: int| 0 <= v < nodes.len() && reachable(nodes, level, entry, v as usize))
}

/// Finitely many nodes are reached.
proof fn lemma_reached_finite<T>(nodes: Seq<NodeView<T>>, level: int, entry: usize)
    ensures
        reached(nodes, level, entry).finite(),
{
    vstd::set_lib::lemma_int_range(0, nodes.len() as int);
    vstd::set_lib::lemma_len_subset(reached(nodes, level, entry), vstd::set_lib::set_int_range(0, nodes.len() as int));
}

/// When every node below `bound` has an edge to every other one on `level`,
/// `entry`, itself below `bound`, reaches each of them there.
pub(crate) proof fn lemma_reach_below<T>(nodes: Seq<NodeView<T>>, level: int, entry: usize, bound: int)
    requires
        entry < bound <= nodes.len(),
        forall|i: int, j: int|
            0 <= i < bound && 0 <= j < bound && i != j ==> #[trigger] level_list(nodes[i], level).contains(
                j as usize,
            ),
    ensures
        forall|j: usize| j < bound ==> #[trigger] reachable(nodes, level, entry, j),
{
    assert forall|j: usize| j < bound implies #[trigger] reachable(nodes, level, entry, j) by {
        lemma_reach_self(nodes, level, entry);
        if j != entry {
            assert(level_list(nodes[entry as int], level).contains(j as usize));
            lemma_extend_path(nodes, level, entry, entry, j);
        }
    }
}

/// When every node has an edge to every other on `level`, `entry` reaches
/// every node there, and no more nodes than the graph holds.
pub(crate) proof fn lemma_reach_all<T>(nodes: Seq<NodeView<T>>, level: int, entry: usize)
    requires
        entry < nodes.len(),
        forall|i: int, j: int|
            0 <= i < nodes.len() && 0 <= j < nodes.len() && i != j ==> #[trigger] level_list(nodes[i], level).contains(
                j as usize,
            ),
    ensures
        forall|j: usize| j < nodes.len() ==> #[trigger] reachable(nodes, level, entry, j),
        reached(nodes, level, entry).len() <= nodes.len(),
{
    lemma_reach_below(nodes, level, entry, nodes.len() as int);
    vstd::set_lib::lemma_int_range(0, nodes.len() as int);
    vstd::set_lib::lemma_len_subset(reached(nodes, level, entry), vstd::set_lib::set_int_range(0, nodes.len() as int));
}

/// Marks only at positions of a finite set number at most its size.
proof fn lemma_count_true_within(s: Seq<bool>, p: Set<int>)
    requires
        p.finite(),
        forall|v: int| 0 <= v < s.len() && #[trigger] s[v] ==> p.contains(v),
    ensures
        count_true(s) <= p.len(),
    decreases s.len(),
{
    if s.len() > 0 {
        let last = s.len() - 1;
        let rest = s.drop_last();
        if s[last] {
            assert forall|v: int| 0 <= v < rest.len() && #[trigger] rest[v] implies p.remove(last).contains(v) by {
                assert(s[v]);
            }
            lemma_count_true_within(rest, p.remove(last));
        } else {
            assert forall|v: int| 0 <= v < rest.len() && #[trigger] rest[v] implies p.contains(v) by {
                assert(s[v]);
            }
            lemma_count_true_within(rest, p);
        }
    }
}

proof fn lemma_count_true_bound(s: Seq<bool>)
    ensures
        count_true(s) <= s.len(),
    decreases s.len(),
{
    if s.len() > 0 {
        lemma_count_true_bound(s.drop_last());
    }
}

proof fn lemma_count_true_none(s: Seq<bool>)
    requires
        forall|i: int| 0 <= i < s.len() ==> !s[i],
    ensures
        count_true(s) == 0,
    decreases s.len(),
{
    if s.len() > 0 {
        lemma_count_true_none(s.drop_last());
    }
}

proof fn lemma_count_true_set(s: Seq<bool>, i: int)
    requires
        0 <= i < s.len(),
        !s[i],
    ensures
        count_true(s.update(i, true)) == count_true(s) + 1,
    decreases s.len(),
{
    let t = s.update(i, true);
    if i == s.len() - 1 {
        assert(t.drop_last() =~= s.drop_last());
    } else {
        assert(t.drop_last() =~= s.drop_last().update(i, true));
        lemma_count_true_set(s.drop_last(), i);
    }
}

/// Whether `a` comes before `b` in the candidate order.
pub(crate) fn precedes(a: &Candidate, b: &Candidate) -> (r: bool)
    ensures
        r == cand_lt(*a, *b),
{
    a.distance < b.distance || (a.distance == b.distance && a.index < b.index)
}

/// The position of the least candidate of a non-empty list.
fn least_position(list: &Vec<Candidate>) -> (pos: usize)
    requires
        list@.len() > 0,
    ensures
        pos < list@.len(),
        forall|j: int| 0 <= j < list@.len() ==> cand_le(list@[pos as int], #[trigger] list@[j]),
{
    let mut pos: usize = 0;
    let mut i: usize = 1;
    while i < list.len()
        invariant
            pos < i <= list@.len(),
            forall|j: int| 0 <= j < i ==> cand_le(list@[pos as int], #[trigger] list@[j]),
        decreases list@.len() - i,
    {
        if precedes(&list[i], &list[pos]) {
            pos = i;
        }
        i = i + 1;
    }
    pos
}

/// The position of the greatest candidate of a non-empty list.
fn greatest_position(list: &Vec<Candidate>) -> (pos: usize)
    requires
        list@.len() > 0,
    ensures
        pos < list@.len(),
        forall|j: int| 0 <= j < list@.len() ==> cand_le(#[trigger] list@[j], list@[pos as int]),
{
    let mut pos: usize = 0;
    let mut i: usize = 1;
    while i < list.len()
        invariant
            pos < i <= list@.len(),
            forall|j: int| 0 <= j < i ==> cand_le(#[trigger] list@[j], list@[pos as int]),
        decreases list@.len() - i,
    {
        if precedes(&list[pos], &list[i]) {
            pos = i;
        }
        i = i + 1;
    }
    pos
}

/// The candidates in ascending order.
pub(crate) fn sort_candidates(list: Vec<Candidate>) -> (out: Vec<Candidate>)
    ensures
        out@.to_multiset() == list@.to_multiset(),
        out@.len() == list@.len(),
        sorted(out@),
        distinct_indices(list@) ==> strictly_sorted(out@) && distinct_indices(out@),
        forall|i: int| 0 <= i < out@.len() ==> list@.contains(#[trigger] out@[i]),
{
    let ghost input = list@;
    let mut pool = list;
    let mut out: Vec<Candidate> = Vec::new();
    while pool.len() > 0
        invariant
            out@.to_multiset().add(pool@.to_multiset()) == input.to_multiset(),
            out@.len() + pool@.len() == input.len(),
            sorted(out@),
            forall|a: int, b: int|
                0 <= a < out@.len() && 0 <= b < pool@.len() ==> cand_le(
                    #[trigger] out@[a],
                    #[trigger] pool@[b],
                ),
            distinct_indices(input) ==> {
                &&& strictly_sorted(out@)
                &&& distinct_indices(out@)
                &&& distinct_indices(pool@)
                &&& forall|a: int, b: int|
                    0 <= a < out@.len() && 0 <= b < pool@.len() ==> (#[trigger] out@[a]).index
                        != (#[trigger] pool@[b]).index
                &&& forall|a: int, b: int|
                    0 <= a < out@.len() && 0 <= b < pool@.len() ==> cand_lt(
                        #[trigger] out@[a],
                        #[trigger] pool@[b],
                    )
            },
            forall|i: int| 0 <= i < out@.len() ==> input.contains(#[trigger] out@[i]),
            forall|i: int| 0 <= i < pool@.len() ==> input.contains(#[trigger] pool@[i]),
        decreases pool@.len(),
    {
        let pos = least_position(&pool);
        let ghost old_pool = pool@;
        let ghost old_out = out@;
        let least = pool.remove(pos);
        out.push(least);
        assert(out@.to_multiset().add(pool@.to_multiset()) =~= old_out.to_multiset().add(
            old_pool.to_multiset(),
        ));
        proof {
            lemma_removed_candidate(old_pool, pos as int);
        }
        assert forall|a: int, b: int|
            0 <= a < out@.len() && 0 <= b < pool@.len() implies cand_le(
            #[trigger] out@[a],
            #[trigger] pool@[b],
        ) by {
            assert(old_pool.contains(pool@[b]));
        }
        proof {
        if distinct_indices(input) {
            assert forall|a: int, b: int|
                0 <= a < out@.len() && 0 <= b < pool@.len() implies cand_lt(
                #[trigger] out@[a],
                #[trigger] pool@[b],
            ) by {
                let ob = if b < pos {
                    b
                } else {
                    b + 1
                };
                assert(pool@[b] == old_pool[ob]);
                if a == old_out.len() {
                    assert(old_pool[pos as int].index != old_pool[ob].index);
                }
            }
            assert forall|a: int, b: int|
                0 <= a < out@.len() && 0 <= b < pool@.len() implies (#[trigger] out@[a]).index
                != (#[trigger] pool@[b]).index by {
                let ob = if b < pos {
                    b
                } else {
                    b + 1
                };
                assert(pool@[b] == old_pool[ob]);
                if a == old_out.len() {
                    assert(old_pool[pos as int].index != old_pool[ob].index);
                }
            }
            assert forall|a: int, b: int|
                0 <= a < b < out@.len() implies (#[trigger] out@[a]).index
                != (#[trigger] out@[b]).index by {
                if b == old_out.len() {
                    assert(old_out[a].index != old_pool[pos as int].index);
                }
            }
            }
        }
    }
    assert(pool@ =~= Seq::<Candidate>::empty());
    assert(out@.to_multiset() =~= out@.to_multiset().add(pool@.to_multiset()));
    out
}

/// Removing the candidate at `pos` shifts the later ones down by one, and
/// leaves no node twice where there was none.
proof fn lemma_removed_candidate(list: Seq<Candidate>, pos: int)
    requires
        0 <= pos < list.len(),
    ensures
        forall|i: int|
            0 <= i < list.len() - 1 ==> #[trigger] list.remove(pos)[i] == list[if i < pos {
                i
            } else {
                i + 1
            }],
        forall|i: int| 0 <= i < list.len() - 1 ==> list.contains(#[trigger] list.remove(pos)[i]),
        distinct_indices(list) ==> distinct_indices(list.remove(pos)),
{
    let rest = list.remove(pos);
    assert forall|i: int| 0 <= i < list.len() - 1 implies list.contains(#[trigger] rest[i]) by {
        let j = if i < pos { i } else { i + 1 };
        assert(rest[i] == list[j]);
    }
    if distinct_indices(list) {
        assert forall|a: int, b: int| 0 <= a < b < rest.len() implies (#[trigger] rest[a]).index
            != (#[trigger] rest[b]).index by {
            let fa = if a < pos { a } else { a + 1 };
            let fb = if b < pos { b } else { b + 1 };
            assert(rest[a] == list[fa]);
            assert(rest[b] == list[fb]);
        }
    }
}

/// Two sorted sequences of the same candidates are equal: the order of
/// candidates is total, so sorting leaves no choice.
pub(crate) proof fn lemma_sorted_unique(a: Seq<Candidate>, b: Seq<Candidate>)
    requires
        sorted(a),
        sorted(b),
        a.to_multiset() == b.to_multiset(),
    ensures
        a == b,
    decreases a.len(),
{
    assert(a.len() == a.to_multiset().len());
    assert(b.len() == b.to_multiset().len());
    if a.len() > 0 {
        let last = a.len() - 1;
        let x = a[last];
        let y = b[last];
        assert(a.to_multiset().count(x) > 0);
        assert(b.contains(x));
        let j = choose|j: int| 0 <= j < b.len() && b[j] == x;
        assert(cand_le(x, y)) by {
            if j < last {
                assert(cand_le(b[j], b[last]));
            }
        }
        assert(b.to_multiset().count(y) > 0);
        assert(a.contains(y));
        let i = choose|i: int| 0 <= i < a.len() && a[i] == y;
        assert(cand_le(y, x)) by {
            if i < last {
                assert(cand_le(a[i], a[last]));
            }
        }
        assert(x == y);
        let a2 = a.remove(last);
        let b2 = b.remove(last);
        assert(a2.to_multiset() == a.to_multiset().remove(x));
        assert(b2.to_multiset() == b.to_multiset().remove(y));
        assert(sorted(a2)) by {
            assert forall|p: int, q: int| 0 <= p < q < a2.len() implies cand_le(#[trigger] a2[p], #[trigger] a2[q]) by {
                assert(a2[p] == a[p] && a2[q] == a[q]);
            }
        }
        assert(sorted(b2)) by {
            assert forall|p: int, q: int| 0 <= p < q < b2.len() implies cand_le(#[trigger] b2[p], #[trigger] b2[q]) by {
                assert(b2[p] == b[p] && b2[q] == b[q]);
            }
        }
        lemma_sorted_unique(a2, b2);
        assert(a =~= a2.push(x));
        assert(b =~= b2.push(y));
    }
}

/// Scanning `list` from `best`: each node in turn becomes the best when it
/// is strictly nearer to `query` than the best so far.
pub(crate) open spec fn scan_best<T, M: DistanceMetric<T>>(
    metric: M,
    query: Seq<T>,
    nodes: Seq<NodeView<T>>,
    best: usize,
    list: Seq<usize>,
) -> usize
    decreases list.len(),
{
    if list.len() == 0 {
        best
    } else {
        let b = scan_best(metric, query, nodes, best, list.drop_last());
        if distance_to(metric, query, nodes, list.last() as int) < distance_to(metric, query, nodes, b as int) {
            list.last()
        } else {
            b
        }
    }
}

/// The greedy walk on `level` from `current`: it moves to the nearest of
/// the neighbors, the first one among equals, while that one is strictly
/// nearer to `query`, and ends where none is.
pub(crate) open spec fn greedy_walk<T, M: DistanceMetric<T>>(
    metric: M,
    query: Seq<T>,
    nodes: Seq<NodeView<T>>,
    level: int,
    current: usize,
) -> usize
    decreases distance_to(metric, query, nodes, current as int),
{
    let next = scan_best(metric, query, nodes, current, level_list(nodes[current as int], level));
    if distance_to(metric, query, nodes, next as int) < distance_to(metric, query, nodes, current as int) {
        greedy_walk(metric, query, nodes, level, next)
    } else {
        current
    }
}

/// The descent from `entry` through the levels from `level` down to 1, one
/// greedy walk per level.
pub(crate) open spec fn descend<T, M: DistanceMetric<T>>(
    metric: M,
    query: Seq<T>,
    nodes: Seq<NodeView<T>>,
    entry: usize,
    level: nat,
) -> usize
    decreases level,
{
    if level == 0 {
        entry
    } else {
        descend(metric, query, nodes, greedy_walk(metric, query, nodes, level as int, entry), (level - 1) as nat)
    }
}

/// Walks from `entry_point` on `level` to a neighbor strictly closer to
/// `query`, as long as the current node has one; returns the node where no
/// neighbor on `level` is closer.
pub(crate) fn greedy_search<T, M: DistanceMetric<T>>(
    graph: &HnswGraph<T>,
    metric: &M,
    query: &[T],
    entry_point: usize,
    level: usize,
) -> (found: usize)
    requires
        graph.wf(),
        entry_point < graph.nodes().len(),
    ensures
        found < graph.nodes().len(),
        found == greedy_walk(*metric, query@, graph.nodes(), level as int, entry_point),
        reachable(graph.nodes(), level as int, entry_point, found),
        distance_to(*metric, query@, graph.nodes(), found as int) <= distance_to(
            *metric,
            query@,
            graph.nodes(),
            entry_point as int,
        ),
        forall|j: int|
            0 <= j < level_list(graph.nodes()[found as int], level as int).len() ==> distance_to(
                *metric,
                query@,
                graph.nodes(),
                found as int,
            ) <= distance_to(
                *metric,
                query@,
                graph.nodes(),
                #[trigger] level_list(graph.nodes()[found as int], level as int)[j] as int,
            ),
{
    let ghost nodes = graph.nodes();
    let mut current = entry_point;
    let mut current_distance = metric.distance(query, graph.node(current).vector());
    proof {
        lemma_reach_self(nodes, level as int, entry_point);
    }
    loop
        invariant
            graph.wf(),
            nodes == graph.nodes(),
            current < nodes.len(),
            reachable(nodes, level as int, entry_point, current),
            current_distance == distance_to(*metric, query@, nodes, current as int),
            current_distance <= distance_to(*metric, query@, nodes, entry_point as int),
            greedy_walk(*metric, query@, nodes, level as int, entry_point) == greedy_walk(
                *metric,
                query@,
                nodes,
                level as int,
                current,
            ),
        decreases current_distance,
    {
        let ghost start = current;
        let ghost start_distance = current_distance;
        let mut improved = false;
        let neighbors = graph.node(current).neighbors(level);
        let mut i: usize = 0;
        while i < neighbors.len()
            invariant
                graph.wf(),
                nodes == graph.nodes(),
                start < nodes.len(),
                neighbors@ == level_list(nodes[start as int], level as int),
                i <= neighbors@.len(),
                current < nodes.len(),
                current_distance <= start_distance,
                improved ==> current_distance < start_distance,
                reachable(nodes, level as int, entry_point, start),
                reachable(nodes, level as int, entry_point, current),
                current_distance == distance_to(*metric, query@, nodes, current as int),
                start_distance <= distance_to(*metric, query@, nodes, entry_point as int),
                !improved ==> current == start,
                current == scan_best(*metric, query@, nodes, start, neighbors@.take(i as int)),
                !improved ==> forall|j: int|
                    0 <= j < i ==> current_distance <= distance_to(
                        *metric,
                        query@,
                        nodes,
                        #[trigger] neighbors@[j] as int,
                    ),
            decreases neighbors@.len() - i,
        {
            let neighbor = neighbors[i];
            assert(neighbor < nodes.len()) by {
                assert(edges_valid(nodes));
                assert(nodes[start as int].neighbors[level as int][i as int] == neighbor);
            }
            proof {
                assert(neighbors@.contains(neighbor));
                lemma_extend_path(nodes, level as int, entry_point, start, neighbor);
            }
            let distance = metric.distance(query, graph.node(neighbor).vector());
            assert(neighbors@.take(i + 1).drop_last() =~= neighbors@.take(i as int));
            assert(neighbors@.take(i + 1).last() == neighbor);
            if distance < current_distance {
                current = neighbor;
                current_distance = distance;
                improved = true;
            }
            i = i + 1;
        }
        assert(neighbors@.take(neighbors@.len() as int) =~= neighbors@);
        if !improved {
            return current;
        }
    }
}

/// `list` has one entry per node, all of them `false`.
fn unvisited(count: usize) -> (list: Vec<bool>)
    ensures
        list@.len() == count,
        forall|i: int| 0 <= i < count ==> !list@[i],
{
    let mut list: Vec<bool> = Vec::new();
    let mut i: usize = 0;
    while i < count
        invariant
            i <= count,
            list@.len() == i,
            forall|j: int| 0 <= j < i ==> !list@[j],
        decreases count - i,
    {
        list.push(false);
        i = i + 1;
    }
    list
}

/// The candidate at `p` is the least of `list`.
pub(crate) open spec fn is_least(list: Seq<Candidate>, p: int) -> bool {
    0 <= p < list.len() && forall|j: int| 0 <= j < list.len() ==> cand_le(list[p], #[trigger] list[j])
}

/// The candidate at `p` is the greatest of `list`.
pub(crate) open spec fn is_greatest(list: Seq<Candidate>, p: int) -> bool {
    0 <= p < list.len() && forall|j: int| 0 <= j < list.len() ==> cand_le(#[trigger] list[j], list[p])
}

/// The position of the least candidate of `list`.
pub(crate) open spec fn least_at(list: Seq<Candidate>) -> int {
    choose|p: int| #[trigger] is_least(list, p)
}

/// The position of the greatest candidate of `list`.
pub(crate) open spec fn greatest_at(list: Seq<Candidate>) -> int {
    choose|p: int| #[trigger] is_greatest(list, p)
}

/// In a list without a node twice, the least candidate has one position.
proof fn lemma_least_at(list: Seq<Candidate>, p: int)
    requires
        distinct_indices(list),
        0 <= p < list.len(),
        forall|j: int| 0 <= j < list.len() ==> cand_le(list[p], #[trigger] list[j]),
    ensures
        least_at(list) == p,
{
    assert(is_least(list, p));
    let q = least_at(list);
    assert(cand_le(list[q], list[p]) && cand_le(list[p], list[q]));
    if q != p {
        if q < p {
            assert(list[q].index != list[p].index);
        } else {
            assert(list[p].index != list[q].index);
        }
    }
}

/// In a list without a node twice, the greatest candidate has one position.
proof fn lemma_greatest_at(list: Seq<Candidate>, p: int)
    requires
        distinct_indices(list),
        0 <= p < list.len(),
        forall|j: int| 0 <= j < list.len() ==> cand_le(#[trigger] list[j], list[p]),
    ensures
        greatest_at(list) == p,
{
    assert(is_greatest(list, p));
    let q = greatest_at(list);
    assert(cand_le(list[q], list[p]) && cand_le(list[p], list[q]));
    if q != p {
        if q < p {
            assert(list[q].index != list[p].index);
        } else {
            assert(list[p].index != list[q].index);
        }
    }
}

/// One visit of node `x` by a layer search in state `(visited, pending,
/// kept)`: a node not visited yet is marked, and becomes pending and kept
/// while fewer than `ef` are kept or when it is nearer than the farthest
/// kept one, which then leaves once more than `ef` are kept.
pub(crate) open spec fn visit<T, M: DistanceMetric<T>>(
    metric: M,
    query: Seq<T>,
    nodes: Seq<NodeView<T>>,
    ef: int,
    state: (Seq<bool>, Seq<Candidate>, Seq<Candidate>),
    x: usize,
) -> (Seq<bool>, Seq<Candidate>, Seq<Candidate>) {
    let (visited, pending, kept) = state;
    if visited[x as int] {
        state
    } else {
        let f = Candidate { index: x, distance: distance_to(metric, query, nodes, x as int) };
        let marked = visited.update(x as int, true);
        if kept.len() < ef || f.distance < kept[greatest_at(kept)].distance {
            let grown = kept.push(f);
            if grown.len() > ef {
                (marked, pending.push(f), grown.remove(greatest_at(grown)))
            } else {
                (marked, pending.push(f), grown)
            }
        } else {
            (marked, pending, kept)
        }
    }
}

/// The visits of the nodes of `list`, in order.
pub(crate) open spec fn expand<T, M: DistanceMetric<T>>(
    metric: M,
    query: Seq<T>,
    nodes: Seq<NodeView<T>>,
    ef: int,
    state: (Seq<bool>, Seq<Candidate>, Seq<Candidate>),
    list: Seq<usize>,
) -> (Seq<bool>, Seq<Candidate>, Seq<Candidate>)
    decreases list.len(),
{
    if list.len() == 0 {
        state
    } else {
        visit(metric, query, nodes, ef, expand(metric, query, nodes, ef, state, list.drop_last()), list.last())
    }
}

/// One step of a layer search: the least pending candidate leaves the
/// pending ones; the search stops when it is farther than every kept one,
/// and otherwise visits its out-neighbors on `level`.
pub(crate) open spec fn layer_step<T, M: DistanceMetric<T>>(
    metric: M,
    query: Seq<T>,
    nodes: Seq<NodeView<T>>,
    level: int,
    ef: int,
    state: (Seq<bool>, Seq<Candidate>, Seq<Candidate>),
) -> (bool, (Seq<bool>, Seq<Candidate>, Seq<Candidate>)) {
    let (visited, pending, kept) = state;
    let c = pending[least_at(pending)];
    let rest = (visited, pending.remove(least_at(pending)), kept);
    if c.distance > kept[greatest_at(kept)].distance {
        (true, rest)
    } else {
        (false, expand(metric, query, nodes, ef, rest, level_list(nodes[c.index as int], level)))
    }
}

/// Layer search steps from `state`, at most `fuel` of them, until nothing
/// is pending or a step stops.
pub(crate) open spec fn layer_run<T, M: DistanceMetric<T>>(
    metric: M,
    query: Seq<T>,
    nodes: Seq<NodeView<T>>,
    level: int,
    ef: int,
    state: (Seq<bool>, Seq<Candidate>, Seq<Candidate>),
    fuel: nat,
) -> (Seq<bool>, Seq<Candidate>, Seq<Candidate>)
    decreases fuel,
{
    if fuel == 0 || state.1.len() == 0 {
        state
    } else {
        let (stop, next) = layer_step(metric, query, nodes, level, ef, state);
        if stop {
            next
        } else {
            layer_run(metric, query, nodes, level, ef, next, (fuel - 1) as nat)
        }
    }
}

/// The state a layer search from `entry` starts in: `entry` visited,
/// pending and kept.
pub(crate) open spec fn layer_start<T, M: DistanceMetric<T>>(
    metric: M,
    query: Seq<T>,
    nodes: Seq<NodeView<T>>,
    entry: usize,
) -> (Seq<bool>, Seq<Candidate>, Seq<Candidate>) {
    let e = Candidate { index: entry, distance: distance_to(metric, query, nodes, entry as int) };
    (Seq::new(nodes.len(), |i: int| i == entry as int), seq![e], seq![e])
}

/// The candidates a layer search on `level` from `entry` keeps, when it
/// runs to the end.
pub(crate) open spec fn layer_result<T, M: DistanceMetric<T>>(
    metric: M,
    query: Seq<T>,
    nodes: Seq<NodeView<T>>,
    level: int,
    ef: int,
    entry: usize,
) -> Seq<Candidate> {
    layer_run(metric, query, nodes, level, ef, layer_start(metric, query, nodes, entry), nodes.len()).2
}

/// The sorted sequence of the candidates of `list`.
pub(crate) open spec fn sorted_of(list: Seq<Candidate>) -> Seq<Candidate> {
    choose|s: Seq<Candidate>| sorted(s) && s.to_multiset() == list.to_multiset()
}

/// Best-first search on `level` from `entry_point`: keeps the `ef` nearest
/// nodes met so far and expands the nearest unexpanded node until that node
/// is farther than every kept one. Returns the kept nodes, nearest first;
/// every node is met at most once. With `ef` at least the number of nodes
/// that `entry_point` reaches on `level`, nothing is dropped and every one
/// of them is returned.
#[verifier::rlimit(60)]
#[verifier::spinoff_prover]
pub(crate) fn search_layer<T, M: DistanceMetric<T>>(
    graph: &HnswGraph<T>,
    metric: &M,
    query: &[T],
    entry_point: usize,
    ef: usize,
    level: usize,
) -> (found: Vec<Candidate>)
    requires
        graph.wf(),
        entry_point < graph.nodes().len(),
        ef >= 1,
    ensures
        1 <= found@.len() <= ef,
        forall|i: int| 0 <= i < found@.len() ==> in_graph(graph.nodes().len(), #[trigger] found@[i]),
        strictly_sorted(found@),
        distinct_indices(found@),
        forall|i: int| 0 <= i < found@.len() ==> measured(*metric, query@, graph.nodes(), #[trigger] found@[i]),
        forall|i: int|
            0 <= i < found@.len() ==> reachable(
                graph.nodes(),
                level as int,
                entry_point,
                #[trigger] found@[i].index,
            ),
        ef >= reached(graph.nodes(), level as int, entry_point).len() ==> forall|j: usize|
            reachable(graph.nodes(), level as int, entry_point, j) ==> #[trigger] holds(found@, j),
        found@ == sorted_of(layer_result(*metric, query@, graph.nodes(), level as int, ef as int, entry_point)),
        exists|visited: Seq<bool>|
            #[trigger] layer_kept(*metric, query@, graph.nodes(), level as int, visited, found@, ef as int)
                && visited[entry_point as int] && forall|v: int|
                0 <= v < visited.len() && visited[v] ==> reach_of(graph.nodes(), level as int, entry_point, v),
{
    let ghost nodes = graph.nodes();
    let ghost lv = level as int;
    let count = graph.node_count();
    let ghost reach = reached(nodes, lv, entry_point);
    let ghost big = ef >= reach.len();
    proof {
        lemma_reached_finite(nodes, lv, entry_point);
    }
    let entry_distance = metric.distance(query, graph.node(entry_point).vector());
    let entry = Candidate { index: entry_point, distance: entry_distance };
    let mut visited = unvisited(count);
    proof {
        lemma_count_true_none(visited@);
        lemma_count_true_set(visited@, entry_point as int);
    }
    visited.set(entry_point, true);
    let mut candidates: Vec<Candidate> = Vec::new();
    candidates.push(entry);
    let mut nearest: Vec<Candidate> = Vec::new();
    nearest.push(entry);
    proof {
        lemma_reach_self(nodes, lv, entry_point);
        assert(nearest@[0].index == entry_point);
        assert(holds(nearest@, entry_point));
        assert(candidates@[0].index == entry_point);
        assert(holds(candidates@, entry_point));
        assert forall|v: int|
            0 <= v < visited@.len() && visited@[v] && v != -1 && !holds(candidates@, v as usize) implies
            #[trigger] neighbors_visited(nodes, lv, visited@, v) by {
            assert(v == entry_point);
            assert(candidates@[0].index == entry_point);
        }
    }
    let ghost start = layer_start(*metric, query@, nodes, entry_point);
    let ghost mut fuel: nat = count as nat;
    proof {
        assert(visited@ =~= start.0);
        assert(candidates@ =~= start.1);
        assert(nearest@ =~= start.2);
        lemma_count_true_bound(visited@);
    }
    while candidates.len() > 0
        invariant_except_break
            fuel >= candidates@.len() + (count - count_true(visited@)),
            layer_run(*metric, query@, nodes, lv, ef as int, (visited@, candidates@, nearest@), fuel) == layer_run(
                *metric,
                query@,
                nodes,
                lv,
                ef as int,
                start,
                count as nat,
            ),
        invariant
            graph.wf(),
            nodes == graph.nodes(),
            lv == level as int,
            count == nodes.len(),
            big == (ef >= reach.len()),
            reach == reached(nodes, lv, entry_point),
            reach.finite(),
            forall|v: int| 0 <= v < count && #[trigger] visited@[v] ==> reach.contains(v),
            ef >= 1,
            visited@.len() == count,
            visited@[entry_point as int],
            entry_point < count,
            1 <= nearest@.len() <= ef,
            nearest@.len() <= count_true(visited@),
            distinct_indices(nearest@),
            distinct_indices(candidates@),
            forall|i: int|
                0 <= i < nearest@.len() ==> reachable(nodes, lv, entry_point, #[trigger] nearest@[i].index),
            forall|i: int|
                0 <= i < candidates@.len() ==> reachable(
                    nodes,
                    lv,
                    entry_point,
                    #[trigger] candidates@[i].index,
                ),
            forall|i: int|
                0 <= i < nearest@.len() ==> in_graph(count as nat, #[trigger] nearest@[i])
                    && visited@[nearest@[i].index as int] && measured(*metric, query@, nodes, nearest@[i]),
            forall|i: int|
                0 <= i < candidates@.len() ==> in_graph(count as nat, #[trigger] candidates@[i])
                    && visited@[candidates@[i].index as int] && measured(*metric, query@, nodes, candidates@[i]),
            big ==> forall|k: int| 0 <= k < candidates@.len() ==> holds(nearest@, (#[trigger] candidates@[k]).index),
            big ==> forall|v: int| 0 <= v < count && #[trigger] visited@[v] ==> holds(nearest@, v as usize),
            big ==> closed(nodes, lv, visited@, candidates@, -1),
            keeps_nearest(*metric, query@, nodes, visited@, nearest@, ef as int),
            kept_expanded(nodes, lv, visited@, nearest@, candidates@, -1),
        ensures
            (visited@, candidates@, nearest@) == layer_run(*metric, query@, nodes, lv, ef as int, start, count as nat),
            keeps_nearest(*metric, query@, nodes, visited@, nearest@, ef as int),
            kept_expanded(nodes, lv, visited@, nearest@, Seq::<Candidate>::empty(), -1),
            forall|v: int| 0 <= v < count && #[trigger] visited@[v] ==> reach.contains(v),
            big ==> candidates@.len() == 0,
            1 <= nearest@.len() <= ef,
            distinct_indices(nearest@),
            forall|i: int|
                0 <= i < nearest@.len() ==> reachable(nodes, lv, entry_point, #[trigger] nearest@[i].index),
            forall|i: int|
                0 <= i < nearest@.len() ==> in_graph(count as nat, #[trigger] nearest@[i])
                    && visited@[nearest@[i].index as int] && measured(*metric, query@, nodes, nearest@[i]),
            visited@.len() == count,
            visited@[entry_point as int],
            big ==> forall|v: int| 0 <= v < count && #[trigger] visited@[v] ==> holds(nearest@, v as usize),
            big ==> closed(nodes, lv, visited@, candidates@, -1),
        decreases candidates@.len() + (count - count_true(visited@)),
    {
        proof {
            lemma_count_true_bound(visited@);
        }
        let ghost budget = candidates@.len() + (count - count_true(visited@));
        let ghost cur0 = (visited@, candidates@, nearest@);
        let ghost fuel0 = fuel;
        let ghost before_pop = candidates@;
        let pos = least_position(&candidates);
        let candidate = candidates.remove(pos);
        assert(before_pop.contains(candidate));
        proof {
            lemma_removed_candidate(before_pop, pos as int);
            lemma_least_at(before_pop, pos as int);
        }
        let ghost rest = (visited@, candidates@, nearest@);
        assert forall|i: int| 0 <= i < candidates@.len() implies in_graph(
            count as nat,
            #[trigger] candidates@[i],
        ) && visited@[candidates@[i].index as int] && measured(*metric, query@, nodes, candidates@[i])
            && reachable(nodes, lv, entry_point, candidates@[i].index) && (big ==> holds(
            nearest@,
            candidates@[i].index,
        )) by {
            assert(before_pop.contains(candidates@[i]));
        }
        proof {
            if big {
                assert forall|v: int|
                    0 <= v < visited@.len() && visited@[v] && v != candidate.index as int && !holds(
                        candidates@,
                        v as usize,
                    ) implies #[trigger] neighbors_visited(nodes, lv, visited@, v) by {
                    if holds(before_pop, v as usize) {
                        let k = choose|k: int| 0 <= k < before_pop.len() && before_pop[k].index == v as usize;
                        if k < pos {
                            assert(candidates@[k] == before_pop[k]);
                        } else if k > pos {
                            assert(candidates@[k - 1] == before_pop[k]);
                        }
                    }
                }
            }
        }
        proof {
            assert forall|k: int| 0 <= k < candidates@.len() implies cand_le(candidate, #[trigger] candidates@[k])
                by {
                assert(before_pop.contains(candidates@[k]));
            }
            assert forall|i: int| 0 <= i < nearest@.len() implies holds(
                candidates@,
                (#[trigger] nearest@[i]).index,
            ) || neighbors_visited(nodes, lv, visited@, nearest@[i].index as int) || nearest@[i].index
                == candidate.index as int by {
                if holds(before_pop, nearest@[i].index) && nearest@[i].index != candidate.index {
                    let k = choose|k: int| 0 <= k < before_pop.len() && before_pop[k].index == nearest@[i].index;
                    if k < pos {
                        assert(candidates@[k] == before_pop[k]);
                    } else {
                        assert(k != pos);
                        assert(candidates@[k - 1] == before_pop[k]);
                    }
                }
            }
        }
        let worst = greatest_position(&nearest);
        proof {
            lemma_greatest_at(nearest@, worst as int);
        }
        proof {
            if big {
                assert(holds(nearest@, candidate.index));
                let k = choose|k: int| 0 <= k < nearest@.len() && nearest@[k].index == candidate.index;
                assert(measured(*metric, query@, nodes, nearest@[k]));
                assert(cand_le(nearest@[k], nearest@[worst as int]));
            }
        }
        if candidate.distance > nearest[worst].distance {
            proof {
                assert(layer_step(*metric, query@, nodes, lv, ef as int, cur0) == (true, rest));
                assert(layer_run(*metric, query@, nodes, lv, ef as int, cur0, fuel0) == rest);
                assert forall|i: int| 0 <= i < nearest@.len() implies holds(
                    Seq::<Candidate>::empty(),
                    (#[trigger] nearest@[i]).index,
                ) || neighbors_visited(nodes, lv, visited@, nearest@[i].index as int) || nearest@[i].index
                    == -1 by {
                    let v = nearest@[i];
                    assert(cand_le(v, nearest@[worst as int]));
                    assert(measured(*metric, query@, nodes, v));
                    assert(measured(*metric, query@, nodes, candidate));
                    if holds(candidates@, v.index) {
                        let k = choose|k: int| 0 <= k < candidates@.len() && candidates@[k].index == v.index;
                        assert(measured(*metric, query@, nodes, candidates@[k]));
                        assert(cand_le(candidate, candidates@[k]));
                    }
                }
            }
            break;
        }
        let neighbors = graph.node(candidate.index).neighbors(level);
        let mut i: usize = 0;
        while i < neighbors.len()
            invariant
                forall|k: int|
                    0 <= k < nearest@.len() ==> reachable(nodes, lv, entry_point, #[trigger] nearest@[k].index),
                forall|k: int|
                    0 <= k < candidates@.len() ==> reachable(
                        nodes,
                        lv,
                        entry_point,
                        #[trigger] candidates@[k].index,
                    ),
                reachable(nodes, lv, entry_point, candidate.index),
                graph.wf(),
                nodes == graph.nodes(),
                lv == level as int,
                count == nodes.len(),
                big == (ef >= reach.len()),
                reach == reached(nodes, lv, entry_point),
                reach.finite(),
                forall|v: int| 0 <= v < count && #[trigger] visited@[v] ==> reach.contains(v),
                ef >= 1,
                candidate.index < nodes.len(),
                visited@[candidate.index as int],
                neighbors@ == level_list(nodes[candidate.index as int], lv),
                i <= neighbors@.len(),
                visited@.len() == count,
                visited@[entry_point as int],
                entry_point < count,
                1 <= nearest@.len() <= ef,
                nearest@.len() <= count_true(visited@),
                distinct_indices(nearest@),
                distinct_indices(candidates@),
                forall|k: int|
                    0 <= k < nearest@.len() ==> in_graph(count as nat, #[trigger] nearest@[k])
                        && visited@[nearest@[k].index as int] && measured(*metric, query@, nodes, nearest@[k]),
                forall|k: int|
                    0 <= k < candidates@.len() ==> in_graph(count as nat, #[trigger] candidates@[k])
                        && visited@[candidates@[k].index as int] && measured(*metric, query@, nodes, candidates@[k]),
                count_true(visited@) <= count,
                candidates@.len() + (count - count_true(visited@)) < budget,
                big ==> forall|k: int|
                    0 <= k < candidates@.len() ==> holds(nearest@, (#[trigger] candidates@[k]).index),
                big ==> forall|v: int| 0 <= v < count && #[trigger] visited@[v] ==> holds(nearest@, v as usize),
                big ==> closed(nodes, lv, visited@, candidates@, candidate.index as int),
                big ==> forall|j: int| 0 <= j < i ==> visited@[#[trigger] neighbors@[j] as int],
                forall|j: int| 0 <= j < i ==> visited@[#[trigger] neighbors@[j] as int],
                keeps_nearest(*metric, query@, nodes, visited@, nearest@, ef as int),
                kept_expanded(nodes, lv, visited@, nearest@, candidates@, candidate.index as int),
                (visited@, candidates@, nearest@) == expand(
                    *metric,
                    query@,
                    nodes,
                    ef as int,
                    rest,
                    neighbors@.take(i as int),
                ),
            decreases neighbors@.len() - i,
        {
            let neighbor = neighbors[i];
            assert(neighbor < nodes.len()) by {
                assert(edges_valid(nodes));
                assert(nodes[candidate.index as int].neighbors[level as int][i as int] == neighbor);
            }
            let ghost prev = (visited@, candidates@, nearest@);
            assert(neighbors@.take(i + 1).drop_last() =~= neighbors@.take(i as int));
            assert(neighbors@.take(i + 1).last() == neighbor);
            if !visited[neighbor] {
                let ghost before_visit = visited@;
                let ghost before_candidates = candidates@;
                let ghost before_nearest = nearest@;
                proof {
                    assert(neighbors@.contains(neighbor));
                    lemma_extend_path(nodes, lv, entry_point, candidate.index, neighbor);
                    lemma_count_true_set(visited@, neighbor as int);
                    lemma_count_true_bound(visited@.update(neighbor as int, true));
                }
                visited.set(neighbor, true);
                proof {
                    assert forall|v: int| 0 <= v < count && #[trigger] visited@[v] implies reach.contains(v) by {
                        if v != neighbor as int {
                            assert(before_visit[v]);
                        }
                    }
                    lemma_count_true_within(visited@, reach);
                }
                let distance = metric.distance(query, graph.node(neighbor).vector());
                let found = Candidate { index: neighbor, distance };
                let far = greatest_position(&nearest);
                proof {
                    lemma_greatest_at(nearest@, far as int);
                }
                if nearest.len() < ef || distance < nearest[far].distance {
                    candidates.push(found);
                    nearest.push(found);
                    assert(distinct_indices(nearest@)) by {
                        assert forall|a: int, b: int|
                            0 <= a < b < nearest@.len() implies (#[trigger] nearest@[a]).index
                            != (#[trigger] nearest@[b]).index by {
                            if b == before_nearest.len() {
                                assert(before_visit[before_nearest[a].index as int]);
                            }
                        }
                    }
                    assert(distinct_indices(candidates@)) by {
                        assert forall|a: int, b: int|
                            0 <= a < b < candidates@.len() implies (#[trigger] candidates@[a]).index
                            != (#[trigger] candidates@[b]).index by {
                            if b == before_candidates.len() {
                                assert(before_visit[before_candidates[a].index as int]);
                            }
                        }
                    }
                    proof {
                        if big {
                            assert forall|v: usize| holds(before_nearest, v) implies holds(nearest@, v) by {
                                let k = choose|k: int| 0 <= k < before_nearest.len() && before_nearest[k].index == v;
                                assert(nearest@[k] == before_nearest[k]);
                            }
                            assert forall|v: usize| holds(before_candidates, v) implies holds(candidates@, v) by {
                                let k = choose|k: int|
                                    0 <= k < before_candidates.len() && before_candidates[k].index == v;
                                assert(candidates@[k] == before_candidates[k]);
                            }
                            assert(nearest@[before_nearest.len() as int] == found);
                            assert(candidates@[before_candidates.len() as int] == found);
                            assert(holds(candidates@, neighbor));
                            assert(holds(nearest@, neighbor));
                            lemma_closed_grows(
                                nodes,
                                lv,
                                before_visit,
                                before_candidates,
                                candidates@,
                                candidate.index as int,
                                neighbor as int,
                            );
                            assert forall|k: int| 0 <= k < candidates@.len() implies holds(
                                nearest@,
                                (#[trigger] candidates@[k]).index,
                            ) by {
                                if k < before_candidates.len() {
                                    assert(candidates@[k] == before_candidates[k]);
                                    assert(holds(before_nearest, before_candidates[k].index));
                                }
                            }
                            assert forall|v: int| 0 <= v < count && #[trigger] visited@[v] implies holds(
                                nearest@,
                                v as usize,
                            ) by {
                                if v != neighbor as int {
                                    assert(before_visit[v]);
                                    assert(holds(before_nearest, v as usize));
                                }
                            }
                        }
                    }
                    if nearest.len() > ef {
                        let top = greatest_position(&nearest);
                        let ghost full = nearest@;
                        proof {
                            lemma_greatest_at(full, top as int);
                        }
                        nearest.remove(top);
                        proof {
                            assert(full == before_nearest.push(found));
                            assert(0 <= top <= before_nearest.len() && nearest@ == before_nearest.push(found).remove(
                                top as int,
                            ) && forall|j: int|
                                0 <= j <= before_nearest.len() ==> cand_le(
                                    #[trigger] before_nearest.push(found)[j],
                                    before_nearest.push(found)[top as int],
                                ));
                        }
                        assert(!big);
                        proof {
                            lemma_removed_candidate(full, top as int);
                        }
                        assert forall|k: int| 0 <= k < nearest@.len() implies in_graph(
                            count as nat,
                            #[trigger] nearest@[k],
                        ) && visited@[nearest@[k].index as int] && measured(*metric, query@, nodes, nearest@[k])
                            && reachable(nodes, lv, entry_point, nearest@[k].index) by {
                            let w = choose|w: int| 0 <= w < full.len() && full[w] == nearest@[k];
                            assert(full.contains(nearest@[k]));
                            assert(full[w] == nearest@[k]);
                        }
                    }
                } else {
                    proof {
                        if big {
                            assert(false);
                        }
                    }
                }
                proof {
                    assert(before_nearest.push(found)[before_nearest.len() as int] == found);
                    lemma_keeps_visit(
                        *metric,
                        query@,
                        nodes,
                        before_visit,
                        before_nearest,
                        ef as int,
                        found,
                        far as int,
                        nearest@,
                    );
                    assert forall|k: int| 0 <= k < before_candidates.len() implies candidates@.contains(
                        #[trigger] before_candidates[k],
                    ) by {
                        assert(candidates@[k] == before_candidates[k]);
                    }
                    assert forall|k: int| 0 <= k < nearest@.len() implies before_nearest.contains(
                        #[trigger] nearest@[k],
                    ) || holds(candidates@, nearest@[k].index) by {
                        if !before_nearest.contains(nearest@[k]) {
                            assert(nearest@[k] == found);
                            assert(candidates@[before_candidates.len() as int] == found);
                        }
                    }
                    lemma_expanded_visit(
                        nodes,
                        lv,
                        before_visit,
                        neighbor as int,
                        before_nearest,
                        before_candidates,
                        nearest@,
                        candidates@,
                        candidate.index as int,
                    );
                }
                assert((visited@, candidates@, nearest@) == visit(*metric, query@, nodes, ef as int, prev, neighbor));
            } else {
                assert(visit(*metric, query@, nodes, ef as int, prev, neighbor) == prev);
            }
            i = i + 1;
        }
        proof {
            assert(neighbors@.take(neighbors@.len() as int) =~= neighbors@);
            assert(layer_step(*metric, query@, nodes, lv, ef as int, cur0) == (false, (visited@, candidates@, nearest@)));
            assert(layer_run(*metric, query@, nodes, lv, ef as int, cur0, fuel0) == layer_run(
                *metric,
                query@,
                nodes,
                lv,
                ef as int,
                (visited@, candidates@, nearest@),
                (fuel0 - 1) as nat,
            ));
            fuel = (fuel0 - 1) as nat;
        }
        proof {
            assert forall|k: int| 0 <= k < nearest@.len() implies holds(
                candidates@,
                (#[trigger] nearest@[k]).index,
            ) || neighbors_visited(nodes, lv, visited@, nearest@[k].index as int) || nearest@[k].index == -1 by {
                if nearest@[k].index == candidate.index {
                    assert forall|j: int| 0 <= j < level_list(nodes[candidate.index as int], lv).len() implies visited@[
                        #[trigger] level_list(nodes[candidate.index as int], lv)[j] as int] by {
                        assert(neighbors@[j] == level_list(nodes[candidate.index as int], lv)[j]);
                    }
                }
            }
            if big {
                assert(neighbors_visited(nodes, lv, visited@, candidate.index as int)) by {
                    assert forall|j: int| 0 <= j < level_list(nodes[candidate.index as int], lv).len() implies visited@[
                        #[trigger] level_list(nodes[candidate.index as int], lv)[j] as int] by {
                        assert(neighbors@[j] == level_list(nodes[candidate.index as int], lv)[j]);
                    }
                }
            }
        }
    }
    proof {
        if big {
            assert forall|v: int|
                0 <= v < visited@.len() && visited@[v] && v != -1 && !holds(Seq::<Candidate>::empty(), v as usize)
                implies #[trigger] neighbors_visited(nodes, lv, visited@, v) by {
                assert(!holds(candidates@, v as usize));
            }
        }
    }
    let ghost kept = nearest@;
    let found = sort_candidates(nearest);
    proof {
        assert(kept == layer_result(*metric, query@, nodes, lv, ef as int, entry_point));
        assert(sorted(found@)) by {
            assert forall|a: int, b: int| 0 <= a < b < found@.len() implies cand_le(
                #[trigger] found@[a],
                #[trigger] found@[b],
            ) by {}
        }
        let chosen_sort = sorted_of(kept);
        assert(sorted(chosen_sort) && chosen_sort.to_multiset() == kept.to_multiset());
        lemma_sorted_unique(chosen_sort, found@);
    }
    proof {
        let vis = visited@;
        assert forall|k: int| 0 <= k < kept.len() implies found@.contains(#[trigger] kept[k]) by {
            assert(kept.to_multiset().count(kept[k]) > 0);
        }
        assert forall|i: int| 0 <= i < found@.len() implies (#[trigger] found@[i]).index < nodes.len()
            && vis[found@[i].index as int] && neighbors_visited(nodes, lv, vis, found@[i].index as int) by {
            assert(kept.contains(found@[i]));
            let k = choose|k: int| 0 <= k < kept.len() && kept[k] == found@[i];
            assert(holds(Seq::<Candidate>::empty(), kept[k].index) || neighbors_visited(
                nodes,
                lv,
                vis,
                kept[k].index as int,
            ) || kept[k].index == -1);
        }
        assert forall|u: usize| holds(kept, u) implies holds(found@, u) by {
            let k = choose|k: int| 0 <= k < kept.len() && kept[k].index == u;
            assert(found@.contains(kept[k]));
            let w = choose|w: int| 0 <= w < found@.len() && found@[w] == kept[k];
            assert(found@[w].index == u);
        }
        assert forall|u: usize| holds(found@, u) implies holds(kept, u) by {
            let w = choose|w: int| 0 <= w < found@.len() && found@[w].index == u;
            assert(kept.contains(found@[w]));
            let k = choose|k: int| 0 <= k < kept.len() && kept[k] == found@[w];
            assert(kept[k].index == u);
        }
        assert forall|v: int| 0 <= v < vis.len() && #[trigger] vis[v] && !holds(found@, v as usize) implies within(
            found@,
            distance_to(*metric, query@, nodes, v),
        ) by {
            assert(!holds(kept, v as usize));
            assert(within(kept, distance_to(*metric, query@, nodes, v)));
            assert forall|i: int| 0 <= i < found@.len() implies (#[trigger] found@[i]).distance <= distance_to(
                *metric,
                query@,
                nodes,
                v,
            ) by {
                assert(kept.contains(found@[i]));
                let k = choose|k: int| 0 <= k < kept.len() && kept[k] == found@[i];
                assert(kept[k].distance <= distance_to(*metric, query@, nodes, v));
            }
        }
        assert(keeps_nearest(*metric, query@, nodes, vis, found@, ef as int));
        assert(kept_expanded(nodes, lv, vis, found@, Seq::<Candidate>::empty(), -1));
        assert forall|v: int| 0 <= v < vis.len() && vis[v] implies reach_of(nodes, lv, entry_point, v) by {
            assert(reach.contains(v));
        }
        assert(layer_kept(*metric, query@, nodes, lv, vis, found@, ef as int));
    }
    proof {
        if big {
            assert forall|j: usize| reachable(nodes, lv, entry_point, j) implies #[trigger] holds(found@, j) by {
                let path = choose|path: Seq<usize>|
                    #[trigger] is_path(nodes, lv, path) && path[0] == entry_point && path.last() == j;
                lemma_closed_reach(nodes, lv, visited@, path);
                assert(holds(kept, j));
                let k = choose|k: int| 0 <= k < kept.len() && kept[k].index == j;
                assert(kept.to_multiset().count(kept[k]) > 0);
                assert(found@.contains(kept[k]));
                let w = choose|w: int| 0 <= w < found@.len() && found@[w] == kept[k];
                assert(found@[w].index == j);
            }
        }
    }
    found
}

} // verus!
