use vstd::prelude::*;

use crate::error::{Result, VecHnswError};
use crate::metric::{DistanceMetric, L2Distance};
use crate::query::{InsertOptions, SearchOptions, SearchResult};
use crate::vector::{Vector, VectorId};

use super::graph::{
    HnswGraph,
    edges_simple,
    edges_valid,
    ids_consistent,
    lemma_same_payload,
    live_vectors,
    same_payload,
};
use super::laws::law_hits_within_live_vectors;
use super::level::{
    LevelGenerator,
    branching,
    lemma_levels_drawn_capped,
    levels_drawn,
    promotion_threshold,
    seeded_state,
};
use super::node::{Node, NodeView, empty_levels, level_list, with_edge, with_list};
use super::search::{
    Candidate,
    cand_le,
    cand_lt,
    greedy_search,
    distinct_indices,
    edges_climb,
    holds,
    in_graph,
    descend,
    greedy_walk,
    layer_kept,
    layer_result,
    sorted_of,
    lemma_layer_kept_congruent,
    lemma_reach_all,
    lemma_sorted_unique,
    lemma_reach_below,
    lemma_reach_keeps_level,
    lemma_unreached,
    measured,
    reach_of,
    reachable,
    reached,
    search_layer,
    sort_candidates,
    sorted,
    strictly_sorted,
};

verus! {

broadcast use vstd::seq_lib::group_to_multiset_ensures;

/// Graph parameters of an index.
#[derive(Debug, Clone)]
pub struct HnswConfig {
    /// Out-edges kept per node and level.
    pub m: usize,
    /// Width of the search that finds the neighbors of a new node.
    pub ef_construction: usize,
    /// Width of a query's search on the bottom level.
    pub ef_search: usize,
    /// Highest level that a node can be drawn to.
    pub max_level: usize,
    /// Seed of the level draws.
    pub level_seed: u64,
}

impl Default for HnswConfig {
    fn default() -> (config: Self)
        ensures
            config == (HnswConfig {
                m: 16,
                ef_construction: 64,
                ef_search: 32,
                max_level: 16,
                level_seed: 0x9e37_79b9_7f4a_7c15,
            }),
    {
        Self { m: 16, ef_construction: 64, ef_search: 32, max_level: 16, level_seed: 0x9e37_79b9_7f4a_7c15 }
    }
}

/// What checking `config` answers: the first count that is zero, in the
/// order `m`, `ef_construction`, `ef_search`, `max_level`, is refused.
pub open spec fn config_check(config: HnswConfig) -> Result<()> {
    if config.m == 0 {
        Err(VecHnswError::InvalidConfig("m must be greater than 0"))
    } else if config.ef_construction == 0 {
        Err(VecHnswError::InvalidConfig("ef_construction must be greater than 0"))
    } else if config.ef_search == 0 {
        Err(VecHnswError::InvalidConfig("ef_search must be greater than 0"))
    } else if config.max_level == 0 {
        Err(VecHnswError::InvalidConfig("max_level must be greater than 0"))
    } else {
        Ok(())
    }
}

/// What checking a vector (or a query) answers, given the dimension that
/// the index has fixed, if any.
pub open spec fn vector_check<T>(dimension: Option<usize>, vector: Seq<T>) -> Result<()> {
    if vector.len() == 0 {
        Err(VecHnswError::EmptyVector)
    } else {
        match dimension {
            Some(expected) => if vector.len() != expected {
                Err(VecHnswError::DimensionMismatch { expected, actual: vector.len() as usize })
            } else {
                Ok(())
            },
            None => Ok(()),
        }
    }
}

/// What inserting `vector` under `id` answers.
pub open spec fn insert_check<T>(
    vectors: Map<VectorId, Seq<T>>,
    dimension: Option<usize>,
    id: VectorId,
    vector: Seq<T>,
) -> Result<()> {
    if vectors.contains_key(id) {
        Err(VecHnswError::DuplicateVectorId(id))
    } else {
        vector_check(dimension, vector)
    }
}

/// What replacing the vector of `id` answers.
pub open spec fn update_check<T>(
    vectors: Map<VectorId, Seq<T>>,
    dimension: Option<usize>,
    id: VectorId,
    vector: Seq<T>,
) -> Result<()> {
    if !vectors.contains_key(id) {
        Err(VecHnswError::VectorNotFound(id))
    } else {
        vector_check(dimension, vector)
    }
}

/// The dimension after an accepted insertion of `vector`: the first vector
/// fixes it.
pub open spec fn dimension_after<T>(dimension: Option<usize>, vector: Seq<T>) -> Option<usize> {
    match dimension {
        Some(d) => Some(d),
        None => Some(vector.len() as usize),
    }
}

/// `hits` answer a query for at most `k` results: each names a stored
/// vector, no id occurs twice, and the distance keys never decrease.
pub open spec fn hits_valid<T>(vectors: Map<VectorId, Seq<T>>, k: usize, hits: Seq<SearchResult>) -> bool {
    &&& hits.len() <= k
    &&& forall|i: int| 0 <= i < hits.len() ==> vectors.contains_key((#[trigger] hits[i]).id)
    &&& forall|i: int, j: int|
        0 <= i < j < hits.len() ==> (#[trigger] hits[i]).distance <= (#[trigger] hits[j]).distance
            && hits[i].id != hits[j].id
}

/// The width of the bottom-level search for `options`: the override, or
/// else the configured `ef_search`, and never less than `k`.
pub open spec fn search_width(config: HnswConfig, options: SearchOptions) -> usize {
    let requested = match options.ef_search {
        Some(ef) => ef,
        None => config.ef_search,
    };
    if requested > options.k {
        requested
    } else {
        options.k
    }
}

/// Some hit names `id`.
pub open spec fn names(hits: Seq<SearchResult>, id: VectorId) -> bool {
    exists|a: int| 0 <= a < hits.len() && (#[trigger] hits[a]).id == id
}

/// `hits` are nearest among the live vectors: there are fewer than `k` only
/// when every live vector is among them, and no live vector left out is
/// nearer to `query` than a hit.
pub open spec fn nearest_live<T, M: DistanceMetric<T>>(
    vectors: Map<VectorId, Seq<T>>,
    metric: M,
    query: Seq<T>,
    k: usize,
    hits: Seq<SearchResult>,
) -> bool {
    &&& hits.len() < k ==> forall|id: VectorId| #[trigger] vectors.contains_key(id) ==> names(hits, id)
    &&& forall|id: VectorId, a: int|
        #[trigger] vectors.contains_key(id) && !names(hits, id) && 0 <= a < hits.len() ==> (#[trigger] hits[a]).distance
            <= metric.spec_distance(query, vectors[id])
}

/// Each hit carries the metric's key from `query` to the vector of its id.
pub open spec fn hits_measured<T, M: DistanceMetric<T>>(
    vectors: Map<VectorId, Seq<T>>,
    metric: M,
    query: Seq<T>,
    hits: Seq<SearchResult>,
) -> bool {
    forall|i: int|
        0 <= i < hits.len() ==> (#[trigger] hits[i]).distance == metric.spec_distance(
            query,
            vectors[hits[i].id],
        )
}

/// What a search for `k` results answers before it looks at the graph: no
/// result is wanted when `k` is 0; otherwise the query is checked as a vector.
pub open spec fn search_check<T>(dimension: Option<usize>, k: usize, query: Seq<T>) -> Result<()> {
    if k == 0 {
        Ok(())
    } else {
        vector_check(dimension, query)
    }
}

/// The state of the level generator after the level of one new vector is
/// drawn under `config`.
pub open spec fn level_state_after(state: u64, config: HnswConfig) -> u64 {
    levels_drawn(state, promotion_threshold(branching(config.m)), config.max_level as nat).1
}

/// The level drawn for a new vector from the generator state `state`.
pub open spec fn level_drawn(state: u64, config: HnswConfig) -> nat {
    levels_drawn(state, promotion_threshold(branching(config.m)), config.max_level as nat).0
}

/// No edge on a level up to `upto` points at node `target`.
pub(crate) open spec fn unreferenced<T>(nodes: Seq<NodeView<T>>, target: usize, upto: int) -> bool {
    forall|i: int, l: int|
        0 <= i < nodes.len() && l <= upto ==> !(#[trigger] level_list(nodes[i], l)).contains(target)
}

/// Each node of `after` has as many levels as in `before`.
pub(crate) open spec fn same_heights<T>(before: Seq<NodeView<T>>, after: Seq<NodeView<T>>) -> bool {
    &&& after.len() == before.len()
    &&& forall|i: int| 0 <= i < before.len() ==> (#[trigger] after[i]).neighbors.len() == before[i].neighbors.len()
}

/// Linking `a` and `b` on a level that both have, then cutting the list of
/// `b` on that level down to some of its entries, keeps every edge pointing
/// at a node that has the edge's level, and every node's number of levels.
proof fn lemma_link_keeps_climb<T>(
    nodes0: Seq<NodeView<T>>,
    nodes1: Seq<NodeView<T>>,
    nodes2: Seq<NodeView<T>>,
    a: usize,
    b: usize,
    level: int,
)
    requires
        edges_climb(nodes0),
        edges_valid(nodes0),
        a < nodes0.len(),
        b < nodes0.len(),
        a != b,
        nodes0[a as int].neighbors.len() > level,
        nodes0[b as int].neighbors.len() > level,
        nodes1.len() == nodes0.len(),
        forall|i: int| 0 <= i < nodes0.len() && i != a && i != b ==> nodes1[i] == nodes0[i],
        nodes1[a as int] == with_edge(nodes0[a as int], level, b),
        nodes1[b as int] == with_edge(nodes0[b as int], level, a),
        nodes2.len() == nodes1.len(),
        forall|i: int| 0 <= i < nodes1.len() && i != b ==> nodes2[i] == nodes1[i],
        forall|l: int| l != level ==> #[trigger] level_list(nodes2[b as int], l) == level_list(nodes1[b as int], l),
        forall|j: int|
            0 <= j < level_list(nodes2[b as int], level).len() ==> level_list(nodes1[b as int], level).contains(
                #[trigger] level_list(nodes2[b as int], level)[j],
            ),
        nodes2[b as int].neighbors.len() == nodes1[b as int].neighbors.len(),
    ensures
        edges_climb(nodes2),
        same_heights(nodes0, nodes2),
{
    assert forall|i: int| 0 <= i < nodes0.len() implies (#[trigger] nodes2[i]).neighbors.len()
        == nodes0[i].neighbors.len() by {
        if i != a && i != b {
            assert(nodes1[i] == nodes0[i]);
        }
    }
    // An entry of the list of `i` on `l` in `nodes1` is an entry of the same
    // list in `nodes0`, or the node that the new edge points at.
    assert forall|i: int, l: int, k: int|
        0 <= i < nodes1.len() && 0 <= k < level_list(nodes1[i], l).len() implies nodes0[
    #[trigger] level_list(nodes1[i], l)[k] as int].neighbors.len() > l by {
        let t = level_list(nodes1[i], l)[k];
        if i == a || i == b {
            let other = if i == a { b } else { a };
            let old_list = level_list(nodes0[i], l);
            if l == level && !nodes0[i].neighbors[level].contains(other) {
                assert(level_list(nodes1[i], l) == old_list.push(other));
                if k < old_list.len() {
                    assert(t == old_list[k]);
                } else {
                    assert(t == other);
                }
            } else {
                assert(level_list(nodes1[i], l) == old_list);
            }
        } else {
            assert(nodes1[i] == nodes0[i]);
        }
    }
    assert forall|i: int, l: int, k: int|
        0 <= i < nodes2.len() && 0 <= k < level_list(nodes2[i], l).len() implies nodes2[
    #[trigger] level_list(nodes2[i], l)[k] as int].neighbors.len() > l by {
        let t = level_list(nodes2[i], l)[k];
        if i == b && l == level {
            assert(level_list(nodes1[i], l).contains(t));
            let w = choose|w: int| 0 <= w < level_list(nodes1[i], l).len() && level_list(nodes1[i], l)[w] == t;
            assert(nodes0[level_list(nodes1[i], l)[w] as int].neighbors.len() > l);
        } else if i == b {
            assert(level_list(nodes2[i], l) == level_list(nodes1[i], l));
            assert(nodes0[level_list(nodes1[i], l)[k] as int].neighbors.len() > l);
        } else {
            assert(nodes2[i] == nodes1[i]);
            assert(nodes0[level_list(nodes1[i], l)[k] as int].neighbors.len() > l);
        }
    }
}

/// Node `t` links back to `fresh` on `level`, or keeps `m` out-edges there.
pub(crate) open spec fn links_back<T>(nodes: Seq<NodeView<T>>, t: int, fresh: usize, level: int, m: int) -> bool {
    level_list(nodes[t], level).contains(fresh) || level_list(nodes[t], level).len() == m
}

/// Every node that `fresh` points at on `level` links back to it, or keeps
/// `m` out-edges there.
pub(crate) open spec fn answered<T>(nodes: Seq<NodeView<T>>, fresh: usize, level: int, m: int) -> bool {
    forall|k: int|
        0 <= k < level_list(nodes[fresh as int], level).len() ==> links_back(
            nodes,
            #[trigger] level_list(nodes[fresh as int], level)[k] as int,
            fresh,
            level,
            m,
        )
}

/// Keeping `min(m, len)` distinct entries of a list without duplicates that
/// holds `x` keeps `x`, unless `m` entries are kept.
proof fn lemma_kept_or_full(list: Seq<usize>, kept: Seq<usize>, x: usize, m: int)
    requires
        list.no_duplicates(),
        list.contains(x),
        kept.no_duplicates(),
        forall|j: int| 0 <= j < kept.len() ==> list.contains(#[trigger] kept[j]),
        kept.len() == if m < list.len() {
            m
        } else {
            list.len() as int
        },
    ensures
        kept.contains(x) || kept.len() == m,
{
    broadcast use vstd::seq_lib::group_seq_properties;

    if list.len() <= m && !kept.contains(x) {
        let ks = kept.to_set();
        let ls = list.to_set().remove(x);
        assert forall|e: usize| ks.contains(e) implies ls.contains(e) by {
            let j = choose|j: int| 0 <= j < kept.len() && kept[j] == e;
            assert(list.contains(kept[j]));
        }
        kept.unique_seq_to_set();
        list.unique_seq_to_set();
        vstd::set_lib::lemma_len_subset(ks, ls);
    }
}

/// Linking `a` to `b` on `level` and cutting the list of `b` there down to
/// `min(m, len)` of its entries keeps every node that `a` points at on a
/// level from `level` up to `top` linked back to `a`, or full.
proof fn lemma_link_keeps_answers<T>(
    nodes0: Seq<NodeView<T>>,
    nodes1: Seq<NodeView<T>>,
    nodes2: Seq<NodeView<T>>,
    a: usize,
    b: usize,
    level: int,
    top: int,
    m: int,
)
    requires
        edges_simple(nodes0),
        edges_simple(nodes2),
        edges_valid(nodes0),
        0 <= level,
        a < nodes0.len(),
        b < nodes0.len(),
        a != b,
        nodes0[b as int].neighbors.len() > level,
        nodes1.len() == nodes0.len(),
        forall|i: int| 0 <= i < nodes0.len() && i != a && i != b ==> nodes1[i] == nodes0[i],
        nodes1[a as int] == with_edge(nodes0[a as int], level, b),
        nodes1[b as int] == with_edge(nodes0[b as int], level, a),
        nodes2.len() == nodes1.len(),
        forall|i: int| 0 <= i < nodes1.len() && i != b ==> nodes2[i] == nodes1[i],
        forall|l: int| l != level ==> #[trigger] level_list(nodes2[b as int], l) == level_list(nodes1[b as int], l),
        forall|j: int|
            0 <= j < level_list(nodes2[b as int], level).len() ==> level_list(nodes1[b as int], level).contains(
                #[trigger] level_list(nodes2[b as int], level)[j],
            ),
        nodes2[b as int].neighbors.len() == nodes1[b as int].neighbors.len(),
        level_list(nodes2[b as int], level).len() == if m < level_list(nodes1[b as int], level).len() {
            m
        } else {
            level_list(nodes1[b as int], level).len() as int
        },
        forall|l: int| level <= l <= top ==> #[trigger] answered(nodes0, a, l, m),
    ensures
        forall|l: int| level <= l <= top ==> #[trigger] answered(nodes2, a, l, m),
{
    // The list of `b` on `level` now holds `a`, and keeps it unless full.
    let list0 = level_list(nodes0[b as int], level);
    let list1 = level_list(nodes1[b as int], level);
    assert(list0.no_duplicates());
    assert(list1.contains(a) && list1.no_duplicates()) by {
        if !list0.contains(a) {
            assert(list1 == list0.push(a));
            assert(list1[list0.len() as int] == a);
        }
    }
    assert(level_list(nodes2[b as int], level).no_duplicates());
    lemma_kept_or_full(list1, level_list(nodes2[b as int], level), a, m);
    assert(links_back(nodes2, b as int, a, level, m));
    assert forall|l: int| level <= l <= top implies #[trigger] answered(nodes2, a, l, m) by {
        let new0 = level_list(nodes0[a as int], l);
        let new2 = level_list(nodes2[a as int], l);
        assert(nodes2[a as int] == nodes1[a as int]);
        assert forall|k: int| 0 <= k < new2.len() implies links_back(
            nodes2,
            #[trigger] new2[k] as int,
            a,
            l,
            m,
        ) by {
            let t = new2[k];
            if t == b && l == level {
            } else {
                // `t` was pointed at before the link.
                let k0 = if l == level && !nodes0[a as int].neighbors[level].contains(b) {
                    assert(new2 == new0.push(b));
                    k
                } else {
                    assert(new2 == new0);
                    k
                };
                assert(new0[k0] == t);
                assert(answered(nodes0, a, l, m));
                assert(links_back(nodes0, new0[k0] as int, a, l, m));
                assert(t != a) by {
                    assert(!nodes2[a as int].neighbors[l].contains(a));
                    assert(nodes2[a as int].neighbors[l][k] == t);
                }
                if t == b {
                    assert(level_list(nodes2[b as int], l) == level_list(nodes1[b as int], l));
                    assert(level_list(nodes1[b as int], l) == level_list(nodes0[b as int], l));
                } else {
                    assert(nodes0[a as int].neighbors[l][k0] < nodes0.len());
                    assert(nodes2[t as int] == nodes0[t as int]);
                }
            }
        }
    }
}

/// Every node below `bound` has an out-edge on `level` to every other node
/// below `bound`.
pub(crate) open spec fn complete_below<T>(nodes: Seq<NodeView<T>>, level: int, bound: int) -> bool {
    forall|i: int, j: int|
        0 <= i < bound && 0 <= j < bound && i != j ==> #[trigger] level_list(nodes[i], level).contains(j as usize)
}

/// A list without duplicates whose entries lie below `bound` and differ from
/// `skip`, itself below `bound`, has fewer than `bound` entries.
proof fn lemma_short_list(list: Seq<usize>, bound: int, skip: int)
    requires
        list.no_duplicates(),
        0 <= skip < bound,
        forall|k: int| 0 <= k < list.len() ==> #[trigger] list[k] < bound && list[k] != skip,
    ensures
        list.len() < bound,
{
    let ints = list.map_values(|x: usize| x as int);
    assert(ints.no_duplicates()) by {
        assert forall|a: int, b: int| 0 <= a < ints.len() && 0 <= b < ints.len() && a != b implies ints[a]
            != ints[b] by {
            assert(list[a] != list[b]);
        }
    }
    ints.unique_seq_to_set();
    vstd::set_lib::lemma_int_range(0, bound);
    let range = vstd::set_lib::set_int_range(0, bound).remove(skip);
    assert forall|x: int| ints.to_set().contains(x) implies range.contains(x) by {
        let k = choose|k: int| 0 <= k < ints.len() && ints[k] == x;
        assert(list[k] < bound && list[k] != skip);
    }
    vstd::set_lib::lemma_len_subset(ints.to_set(), range);
}

/// A list without duplicates that holds only entries of another such list
/// of the same length holds all of them.
proof fn lemma_same_len_covers(small: Seq<usize>, big: Seq<usize>)
    requires
        small.no_duplicates(),
        big.no_duplicates(),
        small.len() == big.len(),
        forall|k: int| 0 <= k < small.len() ==> big.contains(#[trigger] small[k]),
    ensures
        forall|x: usize| big.contains(x) ==> small.contains(x),
{
    broadcast use vstd::seq_lib::group_seq_properties;

    assert forall|x: usize| big.contains(x) implies small.contains(x) by {
        if !small.contains(x) {
            small.unique_seq_to_set();
            big.unique_seq_to_set();
            assert forall|e: usize| small.to_set().contains(e) implies big.to_set().remove(x).contains(e) by {
                let k = choose|k: int| 0 <= k < small.len() && small[k] == e;
                assert(big.contains(small[k]));
            }
            vstd::set_lib::lemma_len_subset(small.to_set(), big.to_set().remove(x));
        }
    }
}

/// Linking `a` and `b` on the bottom level when the list of `b` there has
/// room, then cutting that list to `min(m, len)` of its entries, leaves each
/// of the two pointing at the other and losing no earlier out-edge there.
proof fn lemma_link_fills<T>(
    nodes0: Seq<NodeView<T>>,
    nodes1: Seq<NodeView<T>>,
    nodes2: Seq<NodeView<T>>,
    a: usize,
    b: usize,
    m: int,
)
    requires
        edges_simple(nodes0),
        edges_simple(nodes2),
        a < nodes0.len(),
        b < nodes0.len(),
        a != b,
        nodes0[a as int].neighbors.len() > 0,
        nodes0[b as int].neighbors.len() > 0,
        !level_list(nodes0[b as int], 0).contains(a),
        level_list(nodes0[b as int], 0).len() < m,
        nodes1.len() == nodes0.len(),
        forall|i: int| 0 <= i < nodes0.len() && i != a && i != b ==> nodes1[i] == nodes0[i],
        nodes1[a as int] == with_edge(nodes0[a as int], 0, b),
        nodes1[b as int] == with_edge(nodes0[b as int], 0, a),
        nodes2.len() == nodes1.len(),
        forall|i: int| 0 <= i < nodes1.len() && i != b ==> nodes2[i] == nodes1[i],
        forall|j: int|
            0 <= j < level_list(nodes2[b as int], 0).len() ==> level_list(nodes1[b as int], 0).contains(
                #[trigger] level_list(nodes2[b as int], 0)[j],
            ),
        level_list(nodes2[b as int], 0).len() == if m < level_list(nodes1[b as int], 0).len() {
            m
        } else {
            level_list(nodes1[b as int], 0).len() as int
        },
    ensures
        level_list(nodes2[b as int], 0).contains(a),
        level_list(nodes2[a as int], 0).contains(b),
        forall|x: usize| level_list(nodes0[b as int], 0).contains(x) ==> level_list(nodes2[b as int], 0).contains(x),
        forall|x: usize| level_list(nodes0[a as int], 0).contains(x) ==> level_list(nodes2[a as int], 0).contains(x),
{
    let list0 = level_list(nodes0[b as int], 0);
    let list1 = level_list(nodes1[b as int], 0);
    let kept = level_list(nodes2[b as int], 0);
    assert(list1 == list0.push(a));
    assert(list0.no_duplicates());
    assert(list1.no_duplicates());
    assert(kept.no_duplicates());
    lemma_same_len_covers(kept, list1);
    assert(list1[list0.len() as int] == a);
    assert forall|x: usize| list0.contains(x) implies kept.contains(x) by {
        let k = choose|k: int| 0 <= k < list0.len() && list0[k] == x;
        assert(list1[k] == x);
    }
    let new0 = level_list(nodes0[a as int], 0);
    assert(nodes2[a as int] == nodes1[a as int]);
    if !new0.contains(b) {
        let new2 = level_list(nodes2[a as int], 0);
        assert(new2 == new0.push(b));
        assert(new2[new0.len() as int] == b);
        assert forall|x: usize| new0.contains(x) implies new2.contains(x) by {
            let k = choose|k: int| 0 <= k < new0.len() && new0[k] == x;
            assert(new2[k] == x);
        }
    }
}

/// Choosing `min(m, len)` distinct candidates out of distinct candidates
/// that name every node below `bound`, and nothing else, with `bound` at
/// most `m`, chooses every one of them.
proof fn lemma_choice_covers(cands: Seq<Candidate>, chosen: Seq<Candidate>, bound: int, m: int)
    requires
        distinct_indices(cands),
        distinct_indices(chosen),
        forall|k: int| 0 <= k < cands.len() ==> (#[trigger] cands[k]).index < bound,
        forall|j: usize| j < bound ==> #[trigger] holds(cands, j),
        bound <= m,
        forall|k: int| 0 <= k < chosen.len() ==> cands.contains(#[trigger] chosen[k]),
        chosen.len() == if m < cands.len() {
            m
        } else {
            cands.len() as int
        },
    ensures
        forall|j: usize| j < bound ==> #[trigger] holds(chosen, j),
{
    let cand_ids = cands.map_values(|c: Candidate| c.index);
    let chosen_ids = chosen.map_values(|c: Candidate| c.index);
    assert(cand_ids.no_duplicates()) by {
        assert forall|a: int, b: int| 0 <= a < cand_ids.len() && 0 <= b < cand_ids.len() && a != b implies cand_ids[a]
            != cand_ids[b] by {
            if a < b {
                assert(cands[a].index != cands[b].index);
            } else {
                assert(cands[b].index != cands[a].index);
            }
        }
    }
    assert(chosen_ids.no_duplicates()) by {
        assert forall|a: int, b: int|
            0 <= a < chosen_ids.len() && 0 <= b < chosen_ids.len() && a != b implies chosen_ids[a]
            != chosen_ids[b] by {
            if a < b {
                assert(chosen[a].index != chosen[b].index);
            } else {
                assert(chosen[b].index != chosen[a].index);
            }
        }
    }
    if bound > 0 {
        lemma_short_list(cand_ids, bound + 1, bound);
    } else {
        assert(cand_ids.len() == 0) by {
            if cand_ids.len() > 0 {
                assert(cands[0].index < bound);
            }
        }
    }
    assert forall|k: int| 0 <= k < chosen_ids.len() implies cand_ids.contains(#[trigger] chosen_ids[k]) by {
        assert(cands.contains(chosen[k]));
        let w = choose|w: int| 0 <= w < cands.len() && cands[w] == chosen[k];
        assert(cand_ids[w] == chosen_ids[k]);
    }
    lemma_same_len_covers(chosen_ids, cand_ids);
    assert forall|j: usize| j < bound implies #[trigger] holds(chosen, j) by {
        assert(holds(cands, j));
        let w = choose|w: int| 0 <= w < cands.len() && cands[w].index == j;
        assert(cand_ids[w] == j);
        assert(chosen_ids.contains(j));
        let k = choose|k: int| 0 <= k < chosen_ids.len() && chosen_ids[k] == j;
        assert(chosen[k].index == j);
    }
}

/// Some node is marked deleted.
pub(crate) open spec fn any_deleted<T>(nodes: Seq<NodeView<T>>) -> bool {
    exists|i: int| 0 <= i < nodes.len() && (#[trigger] nodes[i]).deleted
}

/// On `level`, `list` names the neighbors selected, for the vector of node
/// `fresh`, out of what a layer search of width `width` keeps on that level
/// of `nodes`.
pub(crate) open spec fn linked_by_search<T, M: DistanceMetric<T>>(
    metric: M,
    nodes: Seq<NodeView<T>>,
    fresh: int,
    list: Seq<usize>,
    level: int,
    width: int,
    m: int,
) -> bool {
    exists|found: Seq<Candidate>, visited: Seq<bool>|
        #[trigger] layer_kept(metric, nodes[fresh].vector, nodes, level, visited, found, width)
            && strictly_sorted(found) && list == selection(metric, nodes, nodes[fresh].vector, found, m).map_values(
            |c: Candidate| c.index,
        )
}

/// The neighbors selected out of a layer search's answer on `g` name, on
/// `g0`, a graph with the same vectors and the same lists on that level,
/// the same selection out of the same answer.
proof fn lemma_chosen_by_search<T, M: DistanceMetric<T>>(
    metric: M,
    g: Seq<NodeView<T>>,
    g0: Seq<NodeView<T>>,
    fresh: int,
    level: int,
    start: usize,
    cands: Seq<Candidate>,
    width: int,
    chosen: Seq<Candidate>,
    m: int,
)
    requires
        0 <= fresh < g.len(),
        g.len() == g0.len(),
        forall|i: int| 0 <= i < g.len() ==> (#[trigger] g[i]).vector == g0[i].vector,
        forall|i: int| 0 <= i < g.len() ==> #[trigger] level_list(g[i], level) == level_list(g0[i], level),
        exists|visited: Seq<bool>|
            #[trigger] layer_kept(metric, g[fresh].vector, g, level, visited, cands, width)
                && visited[start as int] && forall|v: int|
                0 <= v < visited.len() && visited[v] ==> reach_of(g, level, start, v),
        strictly_sorted(cands),
        forall|i: int| 0 <= i < cands.len() ==> in_graph(g.len(), #[trigger] cands[i]),
        forall|ordered: Seq<Candidate>|
            #[trigger] sorted(ordered) && ordered.to_multiset() == cands.to_multiset() ==> chosen == selection(
                metric,
                g,
                g[fresh].vector,
                ordered,
                m,
            ),
    ensures
        linked_by_search(metric, g0, fresh, chosen.map_values(|c: Candidate| c.index), level, width, m),
{
    let q = g[fresh].vector;
    let visited = choose|visited: Seq<bool>|
        #[trigger] layer_kept(metric, q, g, level, visited, cands, width) && visited[start as int] && forall|v: int|
            0 <= v < visited.len() && visited[v] ==> reach_of(g, level, start, v);
    lemma_layer_kept_congruent(metric, q, g, g0, level, visited, cands, width);
    assert(sorted(cands)) by {
        assert forall|a: int, b: int| 0 <= a < b < cands.len() implies cand_le(#[trigger] cands[a], #[trigger] cands[b])
            by {
            assert(cand_lt(cands[a], cands[b]));
        }
    }
    assert(chosen == selection(metric, g, q, cands, m));
    assert forall|k: int| 0 <= k < cands.len() implies (#[trigger] cands[k]).index < g.len() by {
        assert(in_graph(g.len(), cands[k]));
    }
    lemma_diverse_congruent(metric, g, g0, q, cands, m);
    assert(g0[fresh].vector == q);
    assert(layer_kept(metric, g0[fresh].vector, g0, level, visited, cands, width));
}

/// The candidates for the out-edges of node `t` on `level`, in list order,
/// each with the metric's key from the vector of `t`.
pub(crate) open spec fn edge_cands<T, M: DistanceMetric<T>>(
    metric: M,
    nodes: Seq<NodeView<T>>,
    t: usize,
    level: int,
) -> Seq<Candidate> {
    level_list(nodes[t as int], level).map_values(
        |to: usize|
            Candidate {
                index: to,
                distance: metric.spec_distance(nodes[t as int].vector, nodes[to as int].vector),
            },
    )
}

/// `nodes` with the list of node `t` on `level` cut down to the neighbors
/// selected out of it around the node's own vector.
#[verifier::opaque]
pub(crate) open spec fn pruned<T, M: DistanceMetric<T>>(
    metric: M,
    m: int,
    nodes: Seq<NodeView<T>>,
    t: usize,
    level: int,
) -> Seq<NodeView<T>> {
    let kept = selection(metric, nodes, nodes[t as int].vector, sorted_of(edge_cands(metric, nodes, t, level)), m);
    nodes.update(t as int, with_list(nodes[t as int], level, kept.map_values(|c: Candidate| c.index)))
}

/// `nodes` with the edges between `a` and `b` on `level` added both ways.
pub(crate) open spec fn linked_both<T>(nodes: Seq<NodeView<T>>, a: usize, b: usize, level: int) -> Seq<NodeView<T>> {
    if a == b {
        nodes
    } else {
        nodes.update(a as int, with_edge(nodes[a as int], level, b)).update(b as int, with_edge(nodes[b as int], level, a))
    }
}

/// Linking node `fresh` to each of `chosen` on `level` in turn: both
/// edges, then the chosen node's list pruned.
pub(crate) open spec fn link_all<T, M: DistanceMetric<T>>(
    metric: M,
    m: int,
    nodes: Seq<NodeView<T>>,
    fresh: usize,
    chosen: Seq<usize>,
    level: int,
) -> Seq<NodeView<T>>
    decreases chosen.len(),
{
    if chosen.len() == 0 {
        nodes
    } else {
        let before = link_all(metric, m, nodes, fresh, chosen.drop_last(), level);
        pruned(metric, m, linked_both(before, fresh, chosen.last(), level), chosen.last(), level)
    }
}

/// Linking node `fresh` on the levels from `level` down to 0, starting
/// each layer search where the last one's nearest selected node lies.
pub(crate) open spec fn link_levels<T, M: DistanceMetric<T>>(
    metric: M,
    m: int,
    width: int,
    nodes: Seq<NodeView<T>>,
    fresh: usize,
    level: int,
    entry: usize,
) -> Seq<NodeView<T>>
    decreases level + 1,
{
    if level < 0 {
        nodes
    } else {
        let v = nodes[fresh as int].vector;
        let chosen = selection(metric, nodes, v, sorted_of(layer_result(metric, v, nodes, level, width, entry)), m);
        let linked = link_all(metric, m, nodes, fresh, chosen.map_values(|c: Candidate| c.index), level);
        let next = if chosen.len() > 0 {
            chosen[0].index
        } else {
            entry
        };
        link_levels(metric, m, width, linked, fresh, level - 1, next)
    }
}

/// The greedy walks on the levels from `from` down to `to + 1`.
pub(crate) open spec fn walk_down<T, M: DistanceMetric<T>>(
    metric: M,
    query: Seq<T>,
    nodes: Seq<NodeView<T>>,
    entry: usize,
    from: int,
    to: int,
) -> usize
    decreases from - to,
{
    if from <= to {
        entry
    } else {
        walk_down(metric, query, nodes, greedy_walk(metric, query, nodes, from, entry), from - 1, to)
    }
}

/// The hits taken from `found` in order: each live node's id with its key,
/// while fewer than `k` are taken.
pub(crate) open spec fn live_hits<T>(nodes: Seq<NodeView<T>>, found: Seq<Candidate>, k: int) -> Seq<SearchResult>
    decreases found.len(),
{
    if found.len() == 0 {
        Seq::empty()
    } else {
        let hits = live_hits(nodes, found.drop_last(), k);
        let c = found.last();
        if hits.len() < k && !nodes[c.index as int].deleted {
            hits.push(SearchResult { id: nodes[c.index as int].id, distance: c.distance })
        } else {
            hits
        }
    }
}

/// The number of live candidates in `found`.
pub(crate) open spec fn live_count<T>(nodes: Seq<NodeView<T>>, found: Seq<Candidate>) -> nat
    decreases found.len(),
{
    if found.len() == 0 {
        0
    } else {
        live_count(nodes, found.drop_last()) + if nodes[found.last().index as int].deleted {
            0nat
        } else {
            1nat
        }
    }
}

/// The hit that candidate `c` gives: its node's id with its key.
pub(crate) open spec fn hit_of<T>(nodes: Seq<NodeView<T>>, c: Candidate) -> SearchResult {
    SearchResult { id: nodes[c.index as int].id, distance: c.distance }
}

/// Taking hits from `found` in order yields `min(k, live)` of them, each
/// from a live candidate, and misses no live candidate that has fewer than
/// `k` live ones before it.
proof fn lemma_live_hits_take<T>(nodes: Seq<NodeView<T>>, found: Seq<Candidate>, k: int)
    requires
        k >= 0,
    ensures
        live_hits(nodes, found, k).len() == if k < live_count(nodes, found) {
            k
        } else {
            live_count(nodes, found) as int
        },
        forall|i: int|
            0 <= i < live_hits(nodes, found, k).len() ==> exists|p: int|
                0 <= p < found.len() && !nodes[found[p].index as int].deleted && #[trigger] live_hits(
                    nodes,
                    found,
                    k,
                )[i] == hit_of(nodes, found[p]),
        forall|p: int|
            0 <= p < found.len() && !nodes[found[p].index as int].deleted && live_count(nodes, found.take(p))
                < k ==> exists|i: int|
                0 <= i < live_hits(nodes, found, k).len() && live_hits(nodes, found, k)[i] == hit_of(
                    nodes,
                    #[trigger] found[p],
                ),
    decreases found.len(),
{
    if found.len() > 0 {
        let rest = found.drop_last();
        let c = found.last();
        let last = found.len() - 1;
        lemma_live_hits_take(nodes, rest, k);
        let h0 = live_hits(nodes, rest, k);
        let h = live_hits(nodes, found, k);
        assert(found[last] == c);
        assert forall|i: int| 0 <= i < h.len() implies exists|p: int|
            0 <= p < found.len() && !nodes[found[p].index as int].deleted && #[trigger] h[i] == hit_of(
                nodes,
                found[p],
            ) by {
            if i < h0.len() {
                assert(h[i] == h0[i]);
                let p = choose|p: int|
                    0 <= p < rest.len() && !nodes[rest[p].index as int].deleted && #[trigger] h0[i] == hit_of(
                        nodes,
                        rest[p],
                    );
                assert(found[p] == rest[p]);
            } else {
                assert(h[i] == hit_of(nodes, c));
            }
        }
        assert forall|p: int|
            0 <= p < found.len() && !nodes[found[p].index as int].deleted && live_count(nodes, found.take(p))
                < k implies exists|i: int| 0 <= i < h.len() && h[i] == hit_of(nodes, #[trigger] found[p]) by {
            if p < last {
                assert(found.take(p) =~= rest.take(p));
                assert(rest[p] == found[p]);
                let i = choose|i: int| 0 <= i < h0.len() && h0[i] == hit_of(nodes, #[trigger] rest[p]);
                assert(h[i] == h0[i]);
            } else {
                assert(found.take(p) =~= rest);
                assert(h[h0.len() as int] == hit_of(nodes, c));
            }
        }
    }
}

/// The hits for a smaller `k` are a prefix of those for a larger one.
proof fn lemma_live_hits_prefix<T>(nodes: Seq<NodeView<T>>, found: Seq<Candidate>, k1: int, k2: int)
    requires
        0 <= k1 <= k2,
    ensures
        live_hits(nodes, found, k1) == live_hits(nodes, found, k2).take(live_hits(nodes, found, k1).len() as int),
        live_hits(nodes, found, k1).len() == if k1 < live_hits(nodes, found, k2).len() {
            k1
        } else {
            live_hits(nodes, found, k2).len() as int
        },
        live_hits(nodes, found, k2).len() <= k2,
    decreases found.len(),
{
    if found.len() > 0 {
        lemma_live_hits_prefix(nodes, found.drop_last(), k1, k2);
        let h1 = live_hits(nodes, found.drop_last(), k1);
        let h2 = live_hits(nodes, found.drop_last(), k2);
        let g1 = live_hits(nodes, found, k1);
        let g2 = live_hits(nodes, found, k2);
        if g2.len() > h2.len() {
            if g1.len() > h1.len() {
                assert(h1.len() == h2.len());
                assert(g1 =~= g2.take(g1.len() as int));
            } else {
                assert(g1 =~= g2.take(g1.len() as int));
            }
        } else {
            assert(g1 =~= g2.take(g1.len() as int));
        }
    }
}

/// Once `k` hits are taken, the rest of `found` adds none.
proof fn lemma_live_full<T>(nodes: Seq<NodeView<T>>, found: Seq<Candidate>, k: int, i: int)
    requires
        0 <= i <= found.len(),
        live_hits(nodes, found.take(i), k).len() >= k,
    ensures
        live_hits(nodes, found, k) == live_hits(nodes, found.take(i), k),
    decreases found.len(),
{
    if found.len() > i {
        assert(found.drop_last().take(i) =~= found.take(i));
        lemma_live_full(nodes, found.drop_last(), k, i);
    } else {
        assert(found.take(i) =~= found);
    }
}

/// Candidate `c` is farther from every candidate of `taken` than from the
/// vector `base`, by the metric's keys between the nodes' vectors.
pub(crate) open spec fn diverse<T, M: DistanceMetric<T>>(
    metric: M,
    nodes: Seq<NodeView<T>>,
    base: Seq<T>,
    c: Candidate,
    taken: Seq<Candidate>,
) -> bool {
    forall|j: int|
        0 <= j < taken.len() ==> metric.spec_distance(
            nodes[c.index as int].vector,
            nodes[(#[trigger] taken[j]).index as int].vector,
        ) > metric.spec_distance(nodes[c.index as int].vector, base)
}

/// The diverse pass over `ordered`: each candidate in turn is taken while
/// fewer than `limit` are taken and it is diverse from those taken.
pub(crate) open spec fn diverse_pass<T, M: DistanceMetric<T>>(
    metric: M,
    nodes: Seq<NodeView<T>>,
    base: Seq<T>,
    ordered: Seq<Candidate>,
    limit: int,
) -> Seq<Candidate>
    decreases ordered.len(),
{
    if ordered.len() == 0 {
        Seq::empty()
    } else {
        let taken = diverse_pass(metric, nodes, base, ordered.drop_last(), limit);
        if taken.len() < limit && diverse(metric, nodes, base, ordered.last(), taken) {
            taken.push(ordered.last())
        } else {
            taken
        }
    }
}

/// The fill pass over `ordered` after `taken`: each candidate in turn is
/// added while fewer than `limit` are held and its node is not held yet.
pub(crate) open spec fn fill_pass(taken: Seq<Candidate>, ordered: Seq<Candidate>, limit: int) -> Seq<Candidate>
    decreases ordered.len(),
{
    if ordered.len() == 0 {
        taken
    } else {
        let held = fill_pass(taken, ordered.drop_last(), limit);
        if held.len() < limit && !holds(held, ordered.last().index) {
            held.push(ordered.last())
        } else {
            held
        }
    }
}

/// The neighbors chosen out of the sorted candidates `ordered` for the
/// vector `base`: the diverse pass, then the fill pass.
pub(crate) open spec fn selection<T, M: DistanceMetric<T>>(
    metric: M,
    nodes: Seq<NodeView<T>>,
    base: Seq<T>,
    ordered: Seq<Candidate>,
    limit: int,
) -> Seq<Candidate> {
    fill_pass(diverse_pass(metric, nodes, base, ordered, limit), ordered, limit)
}

/// The diverse pass reads the graph only through the vectors of the
/// candidates' nodes, and takes only candidates of `ordered`.
proof fn lemma_diverse_congruent<T, M: DistanceMetric<T>>(
    metric: M,
    a: Seq<NodeView<T>>,
    b: Seq<NodeView<T>>,
    base: Seq<T>,
    ordered: Seq<Candidate>,
    limit: int,
)
    requires
        a.len() == b.len(),
        forall|i: int| 0 <= i < a.len() ==> (#[trigger] a[i]).vector == b[i].vector,
        forall|k: int| 0 <= k < ordered.len() ==> (#[trigger] ordered[k]).index < a.len(),
    ensures
        diverse_pass(metric, a, base, ordered, limit) == diverse_pass(metric, b, base, ordered, limit),
        forall|k: int|
            0 <= k < diverse_pass(metric, a, base, ordered, limit).len() ==> ordered.contains(
                #[trigger] diverse_pass(metric, a, base, ordered, limit)[k],
            ),
    decreases ordered.len(),
{
    if ordered.len() > 0 {
        let rest = ordered.drop_last();
        lemma_diverse_congruent(metric, a, b, base, rest, limit);
        let taken = diverse_pass(metric, a, base, rest, limit);
        let c = ordered.last();
        assert(c.index < a.len());
        assert forall|k: int| 0 <= k < taken.len() implies ordered.contains(#[trigger] taken[k]) by {
            assert(rest.contains(taken[k]));
            let w = choose|w: int| 0 <= w < rest.len() && rest[w] == taken[k];
            assert(ordered[w] == taken[k]);
        }
        assert(diverse(metric, a, base, c, taken) == diverse(metric, b, base, c, taken)) by {
            assert forall|j: int| 0 <= j < taken.len() implies a[(#[trigger] taken[j]).index as int].vector
                == b[taken[j].index as int].vector by {
                assert(ordered.contains(taken[j]));
                let w = choose|w: int| 0 <= w < ordered.len() && ordered[w] == taken[j];
                assert(ordered[w].index < a.len());
            }
        }
        if taken.len() < limit && diverse(metric, a, base, c, taken) {
            let pushed = taken.push(c);
            assert forall|k: int| 0 <= k < pushed.len() implies ordered.contains(#[trigger] pushed[k]) by {
                if k == taken.len() {
                    assert(ordered[ordered.len() - 1] == c);
                }
            }
        }
    }
}

/// Once `limit` candidates are taken, the rest of the diverse pass takes
/// none.
proof fn lemma_diverse_full<T, M: DistanceMetric<T>>(
    metric: M,
    nodes: Seq<NodeView<T>>,
    base: Seq<T>,
    ordered: Seq<Candidate>,
    limit: int,
    i: int,
)
    requires
        0 <= i <= ordered.len(),
        diverse_pass(metric, nodes, base, ordered.take(i), limit).len() >= limit,
    ensures
        diverse_pass(metric, nodes, base, ordered, limit) == diverse_pass(metric, nodes, base, ordered.take(i), limit),
    decreases ordered.len(),
{
    if ordered.len() > i {
        assert(ordered.drop_last().take(i) =~= ordered.take(i));
        lemma_diverse_full(metric, nodes, base, ordered.drop_last(), limit, i);
    } else {
        assert(ordered.take(i) =~= ordered);
    }
}

/// Once `limit` candidates are held, the rest of the fill pass adds none.
proof fn lemma_fill_full(taken: Seq<Candidate>, ordered: Seq<Candidate>, limit: int, i: int)
    requires
        0 <= i <= ordered.len(),
        fill_pass(taken, ordered.take(i), limit).len() >= limit,
    ensures
        fill_pass(taken, ordered, limit) == fill_pass(taken, ordered.take(i), limit),
    decreases ordered.len(),
{
    if ordered.len() > i {
        assert(ordered.drop_last().take(i) =~= ordered.take(i));
        lemma_fill_full(taken, ordered.drop_last(), limit, i);
    } else {
        assert(ordered.take(i) =~= ordered);
    }
}

/// Every node keeps at most `m` out-edges on each level.
pub(crate) open spec fn degrees_bounded<T>(nodes: Seq<NodeView<T>>, m: usize) -> bool {
    forall|i: int, l: int| 0 <= i < nodes.len() ==> (#[trigger] level_list(nodes[i], l)).len() <= m
}

/// Every stored vector, live or deleted, has the fixed dimension; before the
/// first insertion there is neither a dimension nor a node.
pub(crate) open spec fn dimension_holds<T>(dimension: Option<usize>, nodes: Seq<NodeView<T>>) -> bool {
    match dimension {
        None => nodes.len() == 0,
        Some(d) => d > 0 && forall|i: int| 0 <= i < nodes.len() ==> (#[trigger] nodes[i]).vector.len() == d,
    }
}

/// An HNSW index over vectors with elements of type `T`, under the metric `M`.
pub struct HnswIndex<T, M = L2Distance> {
    graph: HnswGraph<T>,
    entry_point: Option<usize>,
    max_level: usize,
    dimension: Option<usize>,
    config: HnswConfig,
    metric: M,
    level_generator: LevelGenerator,
}

impl<T, M> View for HnswIndex<T, M> {
    type V = Map<VectorId, Seq<T>>;

    /// The live vectors, by id.
    closed spec fn view(&self) -> Map<VectorId, Seq<T>> {
        live_vectors(self.graph.nodes(), self.graph.ids())
    }
}

impl<T> HnswIndex<T, L2Distance> {
    /// An empty index under the squared Euclidean distance.
    pub fn new(config: HnswConfig) -> (r: Result<Self>)
        ensures
            r is Ok <==> config_check(config) is Ok,
            r matches Err(e) ==> config_check(config) == Err::<(), VecHnswError>(e),
            r matches Ok(index) ==> {
                &&& index.wf()
                &&& index@ == Map::<VectorId, Seq<T>>::empty()
                &&& index.spec_dimension() is None
                &&& index.spec_config() == config
                &&& index.spec_metric() == L2Distance
                &&& index.spec_level_state() == seeded_state(config.level_seed)
                &&& !index.spec_has_deleted()
                &&& index.spec_node_count() == 0
                &&& index.spec_bottom_complete()
                &&& Self::spec_is_new(&index, config, L2Distance)
            },
    {
        Self::with_metric(config, L2Distance)
    }
}

impl<T, M> HnswIndex<T, M> {
    /// An empty index under `metric`; a configuration with a zero count is
    /// refused.
    pub fn with_metric(config: HnswConfig, metric: M) -> (r: Result<Self>)
        ensures
            r is Ok <==> config_check(config) is Ok,
            r matches Err(e) ==> config_check(config) == Err::<(), VecHnswError>(e),
            r matches Ok(index) ==> {
                &&& index.wf()
                &&& index@ == Map::<VectorId, Seq<T>>::empty()
                &&& index.spec_dimension() is None
                &&& index.spec_config() == config
                &&& index.spec_metric() == metric
                &&& index.spec_level_state() == seeded_state(config.level_seed)
                &&& !index.spec_has_deleted()
                &&& index.spec_node_count() == 0
                &&& index.spec_bottom_complete()
                &&& Self::spec_is_new(&index, config, metric)
            },
    {
        match validate_config(&config) {
            Ok(()) => {},
            Err(e) => {
                return Err(e);
            },
        }
        let level_generator = LevelGenerator::new(config.level_seed);
        let index = Self {
            graph: HnswGraph::new(),
            entry_point: None,
            max_level: 0,
            dimension: None,
            config,
            metric,
            level_generator,
        };
        assert(index@ =~= Map::<VectorId, Seq<T>>::empty());
        Ok(index)
    }

    /// `a` and `b` hold the same state: the same nodes, ids, entry point,
    /// top level, dimension, configuration, metric and generator state.
    pub closed spec fn same_state(a: &Self, b: &Self) -> bool {
        &&& a.graph.nodes() == b.graph.nodes()
        &&& a.graph.ids() == b.graph.ids()
        &&& a.entry_point == b.entry_point
        &&& a.max_level == b.max_level
        &&& a.dimension == b.dimension
        &&& a.config == b.config
        &&& a.metric == b.metric
        &&& a.level_generator.spec_state() == b.level_generator.spec_state()
    }

    /// `index` is the empty index that `config` and `metric` make.
    pub closed spec fn spec_is_new(index: &Self, config: HnswConfig, metric: M) -> bool {
        &&& index.graph.nodes() == Seq::<NodeView<T>>::empty()
        &&& index.graph.ids() == Map::<VectorId, usize>::empty()
        &&& index.entry_point is None
        &&& index.max_level == 0
        &&& index.dimension is None
        &&& index.config == config
        &&& index.metric == metric
        &&& index.level_generator.spec_state() == seeded_state(config.level_seed)
    }

    /// `after` is what accepting the deletion of `id` from `before` gives:
    /// the node of `id` marked deleted and the id no longer indexed; all
    /// else as it was.
    pub closed spec fn spec_deleted(before: &Self, after: &Self, id: VectorId) -> bool {
        let i = before.graph.ids()[id] as int;
        &&& after.graph.nodes() == before.graph.nodes().update(i, NodeView { deleted: true, ..before.graph.nodes()[i] })
        &&& after.graph.ids() == before.graph.ids().remove(id)
        &&& after.entry_point == before.entry_point
        &&& after.max_level == before.max_level
        &&& after.dimension == before.dimension
        &&& after.config == before.config
        &&& after.metric == before.metric
        &&& after.level_generator.spec_state() == before.level_generator.spec_state()
    }

    /// Two indexes that a configuration and a metric make alike hold the
    /// same state.
    pub proof fn law_new_indexes_alike(a: &Self, b: &Self, config: HnswConfig, metric: M)
        requires
            Self::spec_is_new(a, config, metric),
            Self::spec_is_new(b, config, metric),
        ensures
            Self::same_state(a, b),
    {
    }

    /// Indexes in the same state hold the same vectors and dimension, and a
    /// deletion of one id from both leaves them in the same state.
    pub proof fn law_same_state_deletes_alike(a: &Self, b: &Self, a2: &Self, b2: &Self, id: VectorId)
        requires
            Self::same_state(a, b),
            Self::spec_deleted(a, a2, id),
            Self::spec_deleted(b, b2, id),
        ensures
            a@ == b@,
            a.spec_dimension() == b.spec_dimension(),
            Self::same_state(a2, b2),
    {
    }

    /// The dimension fixed by the first insertion, if any.
    pub closed spec fn spec_dimension(&self) -> Option<usize> {
        self.dimension
    }

    /// The state of the seeded generator that draws the level of each new
    /// vector.
    pub closed spec fn spec_level_state(&self) -> u64 {
        self.level_generator.spec_state()
    }

    /// The number of stored nodes, deleted ones included; node `i` is the
    /// `i`-th vector inserted.
    pub closed spec fn spec_node_count(&self) -> nat {
        self.graph.nodes().len()
    }

    /// The top level of node `i`.
    pub closed spec fn spec_node_level(&self, i: int) -> int {
        self.graph.nodes()[i].neighbors.len() - 1
    }

    /// The out-edges of node `i` on `level`, as node positions.
    pub closed spec fn spec_out_edges(&self, i: int, level: int) -> Seq<usize> {
        level_list(self.graph.nodes()[i], level)
    }

    /// The top level of the entry point of the searches.
    pub closed spec fn spec_max_level(&self) -> usize {
        self.max_level
    }

    /// Every stored node has an out-edge to every other one on the bottom
    /// level.
    pub closed spec fn spec_bottom_complete(&self) -> bool {
        complete_below(self.graph.nodes(), 0, self.graph.nodes().len() as int)
    }

    /// The node where every search starts, if a node is stored.
    pub closed spec fn spec_entry_point(&self) -> Option<usize> {
        self.entry_point
    }

    /// The graph structure that every operation keeps: a node's out-edges on
    /// a level hold no node twice, never the node itself and at most `m`
    /// nodes; an out-edge of a node on a level points at a stored node that
    /// has that level; no node rises
    /// above the top level, which stays within the configured cap; and the
    /// entry point, present exactly when a node is stored, is on the top
    /// level.
    pub proof fn lemma_levels(&self)
        requires
            self.wf(),
        ensures
            forall|i: int, l: int, k: int|
                0 <= i < self.spec_node_count() && 0 <= k < self.spec_out_edges(i, l).len() ==> {
                    &&& (#[trigger] self.spec_out_edges(i, l)[k]) < self.spec_node_count()
                    &&& self.spec_node_level(self.spec_out_edges(i, l)[k] as int) >= l
                },
            forall|i: int, l: int|
                0 <= i < self.spec_node_count() ==> {
                    &&& (#[trigger] self.spec_out_edges(i, l)).no_duplicates()
                    &&& !self.spec_out_edges(i, l).contains(i as usize)
                    &&& self.spec_out_edges(i, l).len() <= self.spec_config().m
                },
            forall|i: int| 0 <= i < self.spec_node_count() ==> #[trigger] self.spec_node_level(i) <= self.spec_max_level(),
            self.spec_max_level() <= self.spec_config().max_level,
            self.spec_entry_point() is None <==> self.spec_node_count() == 0,
            self.spec_entry_point() matches Some(e) ==> e < self.spec_node_count() && self.spec_node_level(e as int)
                == self.spec_max_level(),
    {
        let nodes = self.graph.nodes();
        assert forall|i: int, l: int, k: int|
            0 <= i < self.spec_node_count() && 0 <= k < self.spec_out_edges(i, l).len() implies {
                &&& (#[trigger] self.spec_out_edges(i, l)[k]) < self.spec_node_count()
                &&& self.spec_node_level(self.spec_out_edges(i, l)[k] as int) >= l
            } by {
            assert(nodes[i].neighbors[l][k] < nodes.len());
            assert(nodes[level_list(nodes[i], l)[k] as int].neighbors.len() > l);
        }
        assert forall|i: int, l: int| 0 <= i < self.spec_node_count() implies {
            &&& (#[trigger] self.spec_out_edges(i, l)).no_duplicates()
            &&& !self.spec_out_edges(i, l).contains(i as usize)
            &&& self.spec_out_edges(i, l).len() <= self.spec_config().m
        } by {
            assert(level_list(nodes[i], l).len() <= self.config.m);
            if 0 <= l < nodes[i].neighbors.len() {
                assert(nodes[i].neighbors[l].no_duplicates());
            }
        }
        assert forall|i: int| 0 <= i < self.spec_node_count() implies #[trigger] self.spec_node_level(i)
            <= self.spec_max_level() by {
            assert(nodes[i].neighbors.len() <= self.max_level + 1);
        }
    }

    /// How an accepted insertion places its node: it is appended, its level
    /// is the level drawn from the generator, it becomes the entry point
    /// when the index held no node or its level tops the old maximum, and,
    /// when the index held a node, it has at least one out-edge on every
    /// level up to the lower of its level and the old maximum; and every
    /// node it points at on a level points back at it there, unless that
    /// node keeps its full `m` out-edges on the level.
    pub open spec fn linked_as_drawn(before: &Self, after: &Self) -> bool {
        let fresh = before.spec_node_count() as int;
        let level = level_drawn(before.spec_level_state(), before.spec_config()) as int;
        &&& after.spec_node_count() == before.spec_node_count() + 1
        &&& after.spec_node_level(fresh) == level
        &&& after.spec_max_level() == (if before.spec_node_count() == 0 || level > before.spec_max_level() {
            level
        } else {
            before.spec_max_level() as int
        })
        &&& before.spec_node_count() > 0 ==> forall|l: int|
            0 <= l <= level && l <= before.spec_max_level() ==> (#[trigger] after.spec_out_edges(
                fresh,
                l,
            )).len() > 0
        &&& forall|l: int, k: int|
            0 <= l && 0 <= k < after.spec_out_edges(fresh, l).len() ==> {
                let t = (#[trigger] after.spec_out_edges(fresh, l)[k]) as int;
                ||| after.spec_out_edges(t, l).contains(fresh as usize)
                ||| after.spec_out_edges(t, l).len() == before.spec_config().m
            }
    }

    /// Whether some stored node has been deleted; deleted nodes stay in the
    /// graph as waypoints.
    pub closed spec fn spec_has_deleted(&self) -> bool {
        any_deleted(self.graph.nodes())
    }

    pub closed spec fn spec_config(&self) -> HnswConfig {
        self.config
    }

    pub closed spec fn spec_metric(&self) -> M {
        self.metric
    }

    /// The invariant that every operation keeps: every edge points at a
    /// node, never at its own node and never twice on one level; each node
    /// keeps at most `m` out-edges per level; the id index names exactly the
    /// live nodes; every vector has the fixed dimension; the configuration
    /// passes its checks; there is an entry point exactly when there is a
    /// node; an edge on a level points at a node that has that level; and
    /// the entry point is on the top level, above which no node rises.
    pub closed spec fn wf(&self) -> bool {
        &&& self.wf_shape()
        &&& degrees_bounded(self.graph.nodes(), self.config.m)
        &&& edges_climb(self.graph.nodes())
        &&& self.levels_topped()
    }

    /// No node is above the top level, and the entry point is on it.
    closed spec fn levels_topped(&self) -> bool {
        &&& self.max_level <= self.config.max_level
        &&& forall|i: int|
            0 <= i < self.graph.nodes().len() ==> (#[trigger] self.graph.nodes()[i]).neighbors.len()
                <= self.max_level + 1
        &&& (self.entry_point matches Some(e) ==> self.graph.nodes()[e as int].neighbors.len()
            == self.max_level + 1)
    }

    /// The invariant apart from the bound on out-edges.
    closed spec fn wf_shape(&self) -> bool {
        &&& self.graph.wf()
        &&& config_check(self.config) is Ok
        &&& (self.entry_point is None <==> self.graph.nodes().len() == 0)
        &&& (self.entry_point matches Some(e) ==> e < self.graph.nodes().len())
        &&& dimension_holds(self.dimension, self.graph.nodes())
    }

    /// `hit` reports the live node of the candidate at `positions[a]`.
    closed spec fn hit_at(
        nodes: Seq<NodeView<T>>,
        cands: Seq<Candidate>,
        positions: Seq<int>,
        hit: SearchResult,
        a: int,
    ) -> bool {
        let c = cands[positions[a]];
        &&& hit.id == nodes[c.index as int].id
        &&& !nodes[c.index as int].deleted
        &&& hit.distance == c.distance
    }

    /// `after` differs from `before` in adjacency lists at most.
    closed spec fn same_except_edges(before: &Self, after: &Self) -> bool {
        &&& after.graph.ids() == before.graph.ids()
        &&& same_payload(before.graph.nodes(), after.graph.nodes())
        &&& after.entry_point == before.entry_point
        &&& after.max_level == before.max_level
        &&& after.dimension == before.dimension
        &&& after.config == before.config
        &&& after.metric == before.metric
        &&& after.level_generator == before.level_generator
    }

    proof fn lemma_same_except_edges(before: &Self, after: &Self)
        requires
            before.wf_shape(),
            after.graph.wf(),
            Self::same_except_edges(before, after),
        ensures
            after.wf_shape(),
            after@ == before@,
            after.spec_dimension() == before.spec_dimension(),
            after.spec_config() == before.spec_config(),
            after.spec_metric() == before.spec_metric(),
            after.spec_has_deleted() == before.spec_has_deleted(),
    {
        lemma_same_payload(before.graph.nodes(), after.graph.nodes(), before.graph.ids());
        if before.spec_has_deleted() {
            let i = choose|i: int|
                0 <= i < before.graph.nodes().len() && (#[trigger] before.graph.nodes()[i]).deleted;
            assert(after.graph.nodes()[i].deleted);
        }
        if after.spec_has_deleted() {
            let i = choose|i: int|
                0 <= i < after.graph.nodes().len() && (#[trigger] after.graph.nodes()[i]).deleted;
            assert(before.graph.nodes()[i].deleted);
        }
        let nodes = after.graph.nodes();
        if let Some(d) = after.dimension {
            assert forall|i: int| 0 <= i < nodes.len() implies (#[trigger] nodes[i]).vector.len() == d by {
                assert(before.graph.nodes()[i].vector == nodes[i].vector);
            }
        }
    }

    proof fn lemma_same_except_edges_trans(a: &Self, b: &Self, c: &Self)
        requires
            Self::same_except_edges(a, b),
            Self::same_except_edges(b, c),
        ensures
            Self::same_except_edges(a, c),
    {
        assert forall|i: int| 0 <= i < a.graph.nodes().len() implies (#[trigger] c.graph.nodes()[i]).id
            == a.graph.nodes()[i].id && c.graph.nodes()[i].vector == a.graph.nodes()[i].vector
            && c.graph.nodes()[i].deleted == a.graph.nodes()[i].deleted by {
            assert(b.graph.nodes()[i].id == a.graph.nodes()[i].id);
        }
    }

    proof fn lemma_live_vectors_dom(&self)
        requires
            self.wf(),
        ensures
            self@.dom() == self.graph.ids().dom(),
            self@.len() == self.graph.ids().len(),
            self@.dom().finite(),
    {
        assert(self@.dom() =~= self.graph.ids().dom());
        self.graph.lemma_ids_finite();
    }

    /// Finitely many vectors are live, none before the first insertion has
    /// fixed the dimension, and a fixed dimension is never zero.
    pub proof fn lemma_vectors_finite(&self)
        requires
            self.wf(),
        ensures
            self@.dom().finite(),
            self.spec_dimension() is None ==> self@.len() == 0,
            self.spec_dimension() matches Some(d) ==> d > 0,
    {
        self.lemma_live_vectors_dom();
        if self.spec_dimension() is None {
            assert(self@.dom() =~= Set::<VectorId>::empty());
        }
    }

    /// The number of live vectors.
    pub fn len(&self) -> (len: usize)
        requires
            self.wf(),
        ensures
            len == self@.len(),
    {
        proof {
            self.lemma_live_vectors_dom();
        }
        self.graph.len()
    }

    /// Whether no vector is live.
    pub fn is_empty(&self) -> (empty: bool)
        requires
            self.wf(),
        ensures
            empty == (self@.len() == 0),
    {
        proof {
            self.lemma_live_vectors_dom();
        }
        self.graph.is_empty()
    }

    /// Deletes the vector of `id`: it leaves every later search, and `id`
    /// may be inserted again.
    pub fn delete(&mut self, id: VectorId) -> (r: Result<()>)
        requires
            old(self).wf(),
        ensures
            final(self).wf(),
            old(self)@.contains_key(id) ==> r is Ok && final(self)@ == old(self)@.remove(id),
            !old(self)@.contains_key(id) ==> r == Err::<(), VecHnswError>(VecHnswError::VectorNotFound(id))
                && *final(self) == *old(self),
            final(self).spec_dimension() == old(self).spec_dimension(),
            final(self).spec_config() == old(self).spec_config(),
            final(self).spec_metric() == old(self).spec_metric(),
            final(self).spec_level_state() == old(self).spec_level_state(),
            r is Ok ==> final(self).spec_has_deleted(),
            r is Ok ==> Self::spec_deleted(old(self), final(self), id),
            r is Ok ==> final(self)@.len() == old(self)@.len() - 1,
            r is Err ==> final(self).spec_has_deleted() == old(self).spec_has_deleted(),
            final(self).spec_node_count() == old(self).spec_node_count(),
            final(self).spec_bottom_complete() == old(self).spec_bottom_complete(),
    {
        proof {
            self.lemma_vectors_finite();
        }
        if !self.graph.contains_id(id) {
            return Err(VecHnswError::VectorNotFound(id));
        }
        let ghost old_nodes = self.graph.nodes();
        let ghost old_ids = self.graph.ids();
        let removed = self.graph.mark_deleted(id);
        proof {
            let nodes = self.graph.nodes();
            if let Some(d) = self.dimension {
                assert forall|i: int| 0 <= i < nodes.len() implies (#[trigger] nodes[i]).vector.len() == d by {
                    assert(nodes[i].vector == old_nodes[i].vector);
                }
            }
            assert forall|i: int, l: int| 0 <= i < nodes.len() implies (#[trigger] level_list(
                nodes[i],
                l,
            )).len() <= self.config.m by {
                assert(nodes[i].neighbors == old_nodes[i].neighbors);
                assert(level_list(old_nodes[i], l).len() <= self.config.m);
            }
            assert forall|i: int| 0 <= i < nodes.len() implies (#[trigger] nodes[i]).neighbors
                == old_nodes[i].neighbors by {}
            assert forall|i: int| 0 <= i < nodes.len() implies #[trigger] level_list(nodes[i], 0) == level_list(
                old_nodes[i],
                0,
            ) by {
                assert(nodes[i].neighbors == old_nodes[i].neighbors);
            }
            assert(nodes.len() == old_nodes.len());
            if complete_below(old_nodes, 0, old_nodes.len() as int) {
                assert forall|i: int, j: int|
                    0 <= i < nodes.len() && 0 <= j < nodes.len() && i != j implies #[trigger] level_list(
                    nodes[i],
                    0,
                ).contains(j as usize) by {
                    assert(level_list(nodes[i], 0) == level_list(old_nodes[i], 0));
                    assert(level_list(old_nodes[i], 0).contains(j as usize));
                }
            }
            if complete_below(nodes, 0, nodes.len() as int) {
                assert forall|i: int, j: int|
                    0 <= i < old_nodes.len() && 0 <= j < old_nodes.len() && i != j implies #[trigger] level_list(
                    old_nodes[i],
                    0,
                ).contains(j as usize) by {
                    assert(level_list(nodes[i], 0) == level_list(old_nodes[i], 0));
                    assert(level_list(nodes[i], 0).contains(j as usize));
                }
            }
            assert forall|i: int, l: int, k: int|
                0 <= i < nodes.len() && 0 <= k < level_list(nodes[i], l).len() implies nodes[
            #[trigger] level_list(nodes[i], l)[k] as int].neighbors.len() > l by {
                assert(level_list(nodes[i], l) == level_list(old_nodes[i], l));
                assert(old_nodes[level_list(old_nodes[i], l)[k] as int].neighbors.len() > l);
            }
            assert(self@ =~= if old_ids.contains_key(id) {
                old(self)@.remove(id)
            } else {
                old(self)@
            });
        }
        proof {
            if old_ids.contains_key(id) {
                let i = old_ids[id] as int;
                assert(self.graph.nodes()[i].deleted);
            }
        }
        match removed {
            Some(_) => Ok(()),
            None => Err(VecHnswError::VectorNotFound(id)),
        }
    }

    fn validate_vector(&self, vector: &[T]) -> (r: Result<()>)
        ensures
            r == vector_check(self.dimension, vector@),
    {
        if vector.len() == 0 {
            return Err(VecHnswError::EmptyVector);
        }
        if let Some(expected) = self.dimension {
            if vector.len() != expected {
                return Err(VecHnswError::DimensionMismatch { expected, actual: vector.len() });
            }
        }
        Ok(())
    }

    fn validate_query(&self, query: &[T]) -> (r: Result<()>)
        ensures
            r == vector_check(self.dimension, query@),
    {
        if query.len() == 0 {
            return Err(VecHnswError::EmptyVector);
        }
        if let Some(expected) = self.dimension {
            if query.len() != expected {
                return Err(VecHnswError::DimensionMismatch { expected, actual: query.len() });
            }
        }
        Ok(())
    }
}

impl<T, M: DistanceMetric<T>> HnswIndex<T, M> {
    /// The nodes of `before` and, after them, the node that `after`
    /// appended, as it was before it was linked.
    closed spec fn nodes_before_linking(before: &Self, after: &Self) -> Seq<NodeView<T>> {
        let fresh = after.graph.nodes()[before.graph.nodes().len() as int];
        before.graph.nodes().push(
            NodeView {
                id: fresh.id,
                vector: fresh.vector,
                neighbors: empty_levels((fresh.neighbors.len() - 1) as usize),
                deleted: false,
            },
        )
    }

    /// `after` is what accepting the insertion of `vector` under `id` into
    /// `before` gives: the id indexed at the next position; a node there at
    /// the level drawn from the generator; the dimension fixed; and, when
    /// `before` held a node, the graph linked level by level from the lower
    /// of the new level and the top level down to the bottom, starting where
    /// the greedy walks from the entry point down the levels above end, and
    /// the entry point moved to the new node when it rises above the top.
    pub closed spec fn spec_inserted(before: &Self, after: &Self, id: VectorId, vector: Seq<T>) -> bool {
        let level = level_drawn(before.level_generator.spec_state(), before.config);
        let fresh = before.graph.nodes().len() as usize;
        let nodes1 = before.graph.nodes().push(
            NodeView { id, vector, neighbors: empty_levels(level as usize), deleted: false },
        );
        let width = if before.config.ef_construction > before.config.m {
            before.config.ef_construction
        } else {
            before.config.m
        };
        &&& after.graph.ids() == before.graph.ids().insert(id, fresh)
        &&& after.dimension == dimension_after(before.dimension, vector)
        &&& after.config == before.config
        &&& after.metric == before.metric
        &&& after.level_generator.spec_state() == level_state_after(
            before.level_generator.spec_state(),
            before.config,
        )
        &&& match before.entry_point {
            None => after.graph.nodes() == nodes1 && after.entry_point == Some(fresh) && after.max_level == level,
            Some(e) => {
                let top = if level < before.max_level {
                    level as int
                } else {
                    before.max_level as int
                };
                let start = walk_down(before.metric, vector, nodes1, e, before.max_level as int, level as int);
                &&& after.graph.nodes() == link_levels(
                    before.metric,
                    before.config.m as int,
                    width as int,
                    nodes1,
                    fresh,
                    top,
                    start,
                )
                &&& if level > before.max_level {
                    after.entry_point == Some(fresh) && after.max_level == level
                } else {
                    after.entry_point == before.entry_point && after.max_level == before.max_level
                }
            },
        }
    }

    /// The out-edges of the node that `after` appended to `before` are, on
    /// `level`, the neighbors selected, for its vector, out of what a layer
    /// search of width `max(ef_construction, m)` keeps on that level of the
    /// graph it was added to.
    pub closed spec fn spec_linked_by_search(before: &Self, after: &Self, level: int) -> bool {
        let width = if before.config.ef_construction > before.config.m {
            before.config.ef_construction
        } else {
            before.config.m
        };
        let fresh = before.graph.nodes().len() as int;
        linked_by_search(
            before.metric,
            Self::nodes_before_linking(before, after),
            fresh,
            level_list(after.graph.nodes()[fresh], level),
            level,
            width as int,
            before.config.m as int,
        )
    }

    /// Stores `vector` under `id`; see `insert_with_options`.
    pub fn insert(&mut self, id: VectorId, vector: Vector<T>) -> (r: Result<()>)
        requires
            old(self).wf(),
        ensures
            final(self).wf(),
            r == insert_check(old(self)@, old(self).spec_dimension(), id, vector@),
            r is Ok ==> final(self)@ == old(self)@.insert(id, vector@) && final(self).spec_dimension()
                == dimension_after(old(self).spec_dimension(), vector@),
            r is Ok ==> final(self).spec_level_state() == level_state_after(
                old(self).spec_level_state(),
                old(self).spec_config(),
            ),
            r is Ok ==> final(self).spec_has_deleted() == old(self).spec_has_deleted(),
            r is Ok ==> Self::linked_as_drawn(old(self), final(self)),
            r is Ok ==> Self::spec_inserted(old(self), final(self), id, vector@),
            r is Ok && old(self).spec_node_count() > 0 ==> forall|l: int|
                0 <= l <= level_drawn(old(self).spec_level_state(), old(self).spec_config()) && l
                    <= old(self).spec_max_level() ==> #[trigger] Self::spec_linked_by_search(old(self), final(self), l),
            r is Ok ==> final(self)@.len() == old(self)@.len() + 1,
            r is Ok ==> (old(self).spec_bottom_complete() && old(self).spec_node_count() <= old(
                self,
            ).spec_config().m ==> final(self).spec_bottom_complete()),
            r is Err ==> *final(self) == *old(self),
            final(self).spec_config() == old(self).spec_config(),
            final(self).spec_metric() == old(self).spec_metric(),
    {
        self.insert_with_options(id, vector, InsertOptions)
    }

    /// Stores `vector` under `id` and links it into the graph. An id that is
    /// live already, an empty vector, or one whose length differs from the
    /// dimension fixed by the first insertion is refused, and the index is
    /// left as it was.
    #[verifier::rlimit(50)]
    #[verifier::spinoff_prover]
    pub fn insert_with_options(&mut self, id: VectorId, vector: Vector<T>, _options: InsertOptions) -> (r:
        Result<()>)
        requires
            old(self).wf(),
        ensures
            final(self).wf(),
            r == insert_check(old(self)@, old(self).spec_dimension(), id, vector@),
            r is Ok ==> final(self)@ == old(self)@.insert(id, vector@) && final(self).spec_dimension()
                == dimension_after(old(self).spec_dimension(), vector@),
            r is Ok ==> final(self).spec_level_state() == level_state_after(
                old(self).spec_level_state(),
                old(self).spec_config(),
            ),
            r is Ok ==> final(self).spec_has_deleted() == old(self).spec_has_deleted(),
            r is Ok ==> Self::linked_as_drawn(old(self), final(self)),
            r is Ok ==> Self::spec_inserted(old(self), final(self), id, vector@),
            r is Ok && old(self).spec_node_count() > 0 ==> forall|l: int|
                0 <= l <= level_drawn(old(self).spec_level_state(), old(self).spec_config()) && l
                    <= old(self).spec_max_level() ==> #[trigger] Self::spec_linked_by_search(old(self), final(self), l),
            r is Ok ==> final(self)@.len() == old(self)@.len() + 1,
            r is Ok ==> (old(self).spec_bottom_complete() && old(self).spec_node_count() <= old(
                self,
            ).spec_config().m ==> final(self).spec_bottom_complete()),
            r is Err ==> *final(self) == *old(self),
            final(self).spec_config() == old(self).spec_config(),
            final(self).spec_metric() == old(self).spec_metric(),
    {
        if self.graph.contains_id(id) {
            return Err(VecHnswError::DuplicateVectorId(id));
        }
        match self.validate_vector(vector.as_slice()) {
            Ok(()) => {},
            Err(e) => {
                return Err(e);
            },
        }
        proof {
            self.lemma_vectors_finite();
        }
        let ghost v = vector@;
        let ghost old_nodes = self.graph.nodes();
        let ghost old_ids = self.graph.ids();
        if self.dimension.is_none() {
            self.dimension = Some(vector.len());
        }
        let node_level = self.level_generator.random_level(&self.config);
        proof {
            lemma_levels_drawn_capped(
                old(self).spec_level_state(),
                promotion_threshold(branching(self.config.m)),
                self.config.max_level as nat,
            );
        }
        let node = Node::new(id, vector, node_level);
        assert forall|l: int| 0 <= l < node@.neighbors.len() implies (#[trigger] node@.neighbors[l]).len()
            == 0 by {
            assert(node@.neighbors == empty_levels(node_level));
        }
        let new_index = self.graph.add_node(node);
        proof {
            let nodes = self.graph.nodes();
            assert(self@ =~= old(self)@.insert(id, v)) by {
                assert forall|k: VectorId| #[trigger] old_ids.contains_key(k) implies nodes[old_ids[k] as int]
                    == old_nodes[old_ids[k] as int] by {
                    assert(old_ids[k] < old_nodes.len());
                }
            }
            let d = self.dimension.unwrap();
            assert forall|i: int| 0 <= i < nodes.len() implies (#[trigger] nodes[i]).vector.len() == d by {
                if i < old_nodes.len() {
                    assert(nodes[i] == old_nodes[i]);
                }
            }
            if old(self).spec_has_deleted() {
                let i = choose|i: int| 0 <= i < old_nodes.len() && (#[trigger] old_nodes[i]).deleted;
                assert(nodes[i] == old_nodes[i]);
            }
            if self.spec_has_deleted() {
                let i = choose|i: int| 0 <= i < nodes.len() && (#[trigger] nodes[i]).deleted;
                if i < old_nodes.len() {
                    assert(nodes[i] == old_nodes[i]);
                }
            }
        }
        proof {
            let nodes = self.graph.nodes();
            assert(nodes[new_index as int].neighbors.len() == node_level + 1);
            assert forall|i: int, l: int| 0 <= i < nodes.len() && l <= usize::MAX implies !(
            #[trigger] level_list(nodes[i], l)).contains(new_index) by {
                if i < new_index {
                    assert(nodes[i] == old_nodes[i]);
                    if level_list(nodes[i], l).contains(new_index) {
                        let j = choose|j: int|
                            0 <= j < level_list(nodes[i], l).len() && level_list(nodes[i], l)[j]
                                == new_index;
                        assert(old_nodes[i].neighbors[l][j] < old_nodes.len());
                    }
                } else {
                    assert(nodes[i].neighbors == empty_levels(node_level));
                }
            }
            assert forall|i: int, l: int, k: int|
                0 <= i < nodes.len() && 0 <= k < level_list(nodes[i], l).len() implies nodes[
            #[trigger] level_list(nodes[i], l)[k] as int].neighbors.len() > l by {
                if i < new_index {
                    assert(nodes[i] == old_nodes[i]);
                    let t = level_list(old_nodes[i], l)[k];
                    assert(old_nodes[t as int].neighbors.len() > l);
                    assert(old_nodes[i].neighbors[l][k] < old_nodes.len());
                    assert(nodes[t as int] == old_nodes[t as int]);
                } else {
                    assert(nodes[i].neighbors == empty_levels(node_level));
                }
            }
            assert forall|i: int| 0 <= i < new_index implies (#[trigger] nodes[i]).neighbors.len()
                <= self.max_level + 1 by {
                assert(nodes[i] == old_nodes[i]);
            }
            if let Some(e) = self.entry_point {
                assert(nodes[e as int] == old_nodes[e as int]);
            }
        }
        let mut current_entry = match self.entry_point {
            Some(entry) => entry,
            None => {
                self.entry_point = Some(new_index);
                self.max_level = node_level;
                return Ok(());
            },
        };
        let ghost linked = *self;
        let ghost n = self.graph.nodes().len();
        let old_max_level = self.max_level;
        let ghost e0 = current_entry;
        let ghost q = linked.graph.nodes()[new_index as int].vector;
        let mut level = old_max_level;
        while level > node_level
            invariant
                q == linked.graph.nodes()[new_index as int].vector,
                walk_down(self.metric, q, linked.graph.nodes(), e0, old_max_level as int, node_level as int)
                    == walk_down(self.metric, q, linked.graph.nodes(), current_entry, level as int, node_level as int),
                self.wf_shape(),
                degrees_bounded(self.graph.nodes(), self.config.m),
                edges_climb(self.graph.nodes()),
                self.graph.nodes()[current_entry as int].neighbors.len() > level,
                level <= old_max_level,
                level >= node_level || level == old_max_level,
                *self == linked,
                n == self.graph.nodes().len(),
                current_entry < n,
                new_index < n,
                current_entry != new_index,
                unreferenced(self.graph.nodes(), new_index, usize::MAX as int),
            decreases level,
        {
            let ghost from = current_entry;
            current_entry = greedy_search(
                &self.graph,
                &self.metric,
                self.graph.node(new_index).vector(),
                current_entry,
                level,
            );
            proof {
                if current_entry == new_index {
                    lemma_unreached(self.graph.nodes(), level as int, from, new_index);
                }
                lemma_reach_keeps_level(self.graph.nodes(), level as int, from, current_entry);
            }
            level = level - 1;
        }
        let ghost e_desc = current_entry;
        assert(walk_down(self.metric, q, linked.graph.nodes(), e0, old_max_level as int, node_level as int) == e_desc);
        let top = if node_level < old_max_level {
            node_level
        } else {
            old_max_level
        };
        let ghost m = self.config.m;
        let ghost width = if self.config.ef_construction > self.config.m {
            self.config.ef_construction
        } else {
            self.config.m
        };
        let ghost grow0 = old(self).spec_bottom_complete() && new_index <= m;
        proof {
            if grow0 {
                assert forall|i: int, j: int|
                    0 <= i < new_index && 0 <= j < new_index && i != j implies #[trigger] level_list(
                    linked.graph.nodes()[i],
                    0,
                ).contains(j as usize) by {
                    assert(linked.graph.nodes()[i] == old_nodes[i]);
                    assert(level_list(old_nodes[i], 0).contains(j as usize));
                }
            }
        }
        assert(linked.graph.nodes()[current_entry as int].neighbors.len() > top);
        assert forall|l: int| l > top implies (#[trigger] level_list(self.graph.nodes()[new_index as int], l)).len()
            == 0 by {
            assert(self.graph.nodes()[new_index as int].neighbors == empty_levels(node_level));
        }
        assert forall|l: int| 0 <= l <= top implies #[trigger] level_list(
            self.graph.nodes()[new_index as int],
            l,
        ).len() == 0 by {
            assert(self.graph.nodes()[new_index as int].neighbors == empty_levels(node_level));
        }
        let mut level = top;
        loop
            invariant_except_break
                forall|i: int, l: int|
                    0 <= i < n && (i != new_index || l > level) ==> (#[trigger] level_list(
                        self.graph.nodes()[i],
                        l,
                    )).len() <= m,
                forall|l: int|
                    0 <= l <= level ==> (#[trigger] level_list(self.graph.nodes()[new_index as int], l)).len()
                        == 0,
                unreferenced(self.graph.nodes(), new_index, level as int),
                forall|l: int|
                    level < l <= top ==> (#[trigger] level_list(self.graph.nodes()[new_index as int], l)).len()
                        > 0,
                forall|i: int|
                    0 <= i < n && i != new_index ==> #[trigger] level_list(self.graph.nodes()[i], 0) == level_list(
                        linked.graph.nodes()[i],
                        0,
                    ),
                forall|i: int, l: int|
                    0 <= i < n && 0 <= l <= level ==> #[trigger] level_list(self.graph.nodes()[i], l) == level_list(
                        linked.graph.nodes()[i],
                        l,
                    ),
                link_levels(self.metric, m as int, width as int, self.graph.nodes(), new_index, level as int, current_entry)
                    == link_levels(self.metric, m as int, width as int, linked.graph.nodes(), new_index, top as int, e_desc),
            invariant
                forall|l: int|
                    level < l <= top ==> #[trigger] linked_by_search(
                        self.metric,
                        linked.graph.nodes(),
                        new_index as int,
                        level_list(self.graph.nodes()[new_index as int], l),
                        l,
                        width as int,
                        m as int,
                    ),
                width == (if self.config.ef_construction > self.config.m {
                    self.config.ef_construction
                } else {
                    self.config.m
                }),
                linked.graph.nodes()[new_index as int].neighbors == empty_levels(node_level),
                grow0 ==> new_index <= m && complete_below(linked.graph.nodes(), 0, new_index as int),
                unreferenced(linked.graph.nodes(), new_index, usize::MAX as int),
                linked.graph.wf(),
                linked.graph.nodes().len() == n,
                n == new_index + 1,
                current_entry != new_index,
                forall|l: int| level < l <= top ==> #[trigger] answered(self.graph.nodes(), new_index, l, m as int),
                forall|l: int| l > top ==> (#[trigger] level_list(self.graph.nodes()[new_index as int], l)).len() == 0,
                edges_climb(self.graph.nodes()),
                same_heights(linked.graph.nodes(), self.graph.nodes()),
                linked.graph.nodes()[current_entry as int].neighbors.len() > level,
                linked.graph.nodes()[new_index as int].neighbors.len() == node_level + 1,
                top <= node_level,
                self.graph.nodes()[new_index as int].neighbors.len() == node_level + 1,
                self.wf_shape(),
                Self::same_except_edges(&linked, self),
                m == self.config.m,
                m >= 1,
                n == self.graph.nodes().len(),
                current_entry < n,
                new_index < n,
                level <= top,
            ensures
                self.wf_shape(),
                Self::same_except_edges(&linked, self),
                degrees_bounded(self.graph.nodes(), self.config.m),
                edges_climb(self.graph.nodes()),
                same_heights(linked.graph.nodes(), self.graph.nodes()),
                forall|l: int| 0 <= l <= top ==> #[trigger] answered(self.graph.nodes(), new_index, l, m as int),
                forall|l: int| l > top ==> (#[trigger] level_list(self.graph.nodes()[new_index as int], l)).len() == 0,
                self.graph.nodes()[new_index as int].neighbors.len() == node_level + 1,
                forall|l: int|
                    0 <= l <= top ==> (#[trigger] level_list(self.graph.nodes()[new_index as int], l)).len()
                        > 0,
                grow0 ==> complete_below(self.graph.nodes(), 0, n as int),
                self.graph.nodes() == link_levels(
                    self.metric,
                    m as int,
                    width as int,
                    linked.graph.nodes(),
                    new_index,
                    top as int,
                    e_desc,
                ),
                forall|l: int|
                    0 <= l <= top ==> #[trigger] linked_by_search(
                        self.metric,
                        linked.graph.nodes(),
                        new_index as int,
                        level_list(self.graph.nodes()[new_index as int], l),
                        l,
                        width as int,
                        m as int,
                    ),
            decreases level,
        {
            let ef = if self.config.ef_construction > self.config.m {
                self.config.ef_construction
            } else {
                self.config.m
            };
            let ghost g_start = self.graph.nodes();
            let ghost cur_start = current_entry;
            let candidates = search_layer(
                &self.graph,
                &self.metric,
                self.graph.node(new_index).vector(),
                current_entry,
                ef,
                level,
            );
            let selected = self.select_neighbors(
                self.graph.node(new_index).vector(),
                candidates,
                self.config.m,
            );
            let ghost chosen = selected@;
            assert forall|k: int| 0 <= k < chosen.len() implies (#[trigger] chosen[k]).index < n
                && chosen[k].index != new_index && linked.graph.nodes()[chosen[k].index as int].neighbors.len()
                > level by {
                assert(candidates@.contains(chosen[k]));
                let w = choose|w: int| 0 <= w < candidates@.len() && candidates@[w] == chosen[k];
                if chosen[k].index == new_index {
                    assert(unreferenced(self.graph.nodes(), new_index, level as int));
                    lemma_unreached(self.graph.nodes(), level as int, current_entry, new_index);
                }
                lemma_reach_keeps_level(self.graph.nodes(), level as int, current_entry, chosen[k].index);
            }
            assert(chosen.len() > 0);
            assert(linked_by_search(
                self.metric,
                linked.graph.nodes(),
                new_index as int,
                chosen.map_values(|c: Candidate| c.index),
                level as int,
                width as int,
                m as int,
            )) by {
                let g = self.graph.nodes();
                assert forall|i: int| 0 <= i < g.len() implies (#[trigger] g[i]).vector
                    == linked.graph.nodes()[i].vector by {}
                assert forall|i: int| 0 <= i < g.len() implies #[trigger] level_list(g[i], level as int)
                    == level_list(linked.graph.nodes()[i], level as int) by {}
                lemma_chosen_by_search(
                    self.metric,
                    g,
                    linked.graph.nodes(),
                    new_index as int,
                    level as int,
                    current_entry,
                    candidates@,
                    width as int,
                    chosen,
                    m as int,
                );
            }
            let ghost grow = grow0 && level == 0;
            proof {
                if grow {
                    let g = self.graph.nodes();
                    assert forall|i: int, j: int|
                        0 <= i < new_index && 0 <= j < new_index && i != j implies #[trigger] level_list(
                        g[i],
                        0,
                    ).contains(j as usize) by {
                        assert(level_list(g[i], 0) == level_list(linked.graph.nodes()[i], 0));
                    }
                    lemma_reach_below(g, 0, current_entry, new_index as int);
                    assert(unreferenced(g, new_index, 0));
                    assert forall|v: int| reached(g, 0, current_entry).contains(v) implies vstd::set_lib::set_int_range(
                        0,
                        new_index as int,
                    ).contains(v) by {
                        if v == new_index {
                            lemma_unreached(g, 0, current_entry, new_index);
                        }
                    }
                    vstd::set_lib::lemma_int_range(0, new_index as int);
                    vstd::set_lib::lemma_len_subset(
                        reached(g, 0, current_entry),
                        vstd::set_lib::set_int_range(0, new_index as int),
                    );
                    assert forall|j: usize| j < new_index implies #[trigger] holds(candidates@, j) by {
                        assert(reachable(g, 0, current_entry, j));
                    }
                    assert forall|k: int| 0 <= k < candidates@.len() implies (#[trigger] candidates@[k]).index
                        < new_index by {
                        if candidates@[k].index == new_index {
                            lemma_unreached(g, 0, current_entry, new_index);
                        }
                    }
                    lemma_choice_covers(candidates@, chosen, new_index as int, m as int);
                }
            }
            let mut s: usize = 0;
            while s < selected.len()
                invariant
                    self.graph.nodes() == link_all(
                        self.metric,
                        m as int,
                        g_start,
                        new_index,
                        chosen.take(s as int).map_values(|c: Candidate| c.index),
                        level as int,
                    ),
                    level_list(self.graph.nodes()[new_index as int], level as int) == chosen.take(
                        s as int,
                    ).map_values(|c: Candidate| c.index),
                    forall|i: int, l: int|
                        0 <= i < n && 0 <= l < level ==> #[trigger] level_list(self.graph.nodes()[i], l)
                            == level_list(linked.graph.nodes()[i], l),
                    forall|l: int|
                        level < l <= top ==> #[trigger] linked_by_search(
                            self.metric,
                            linked.graph.nodes(),
                            new_index as int,
                            level_list(self.graph.nodes()[new_index as int], l),
                            l,
                            width as int,
                            m as int,
                        ),
                    grow == (grow0 && level == 0),
                    grow0 ==> new_index <= m,
                    unreferenced(linked.graph.nodes(), new_index, usize::MAX as int),
                    linked.graph.wf(),
                    linked.graph.nodes().len() == n,
                    n == new_index + 1,
                    distinct_indices(chosen),
                    grow ==> forall|k: int|
                        0 <= k < s ==> level_list(self.graph.nodes()[(#[trigger] chosen[k]).index as int], 0).contains(
                            new_index,
                        ),
                    grow ==> forall|k: int, x: usize|
                        0 <= k < s && level_list(linked.graph.nodes()[chosen[k].index as int], 0).contains(x)
                            ==> #[trigger] level_list(self.graph.nodes()[chosen[k].index as int], 0).contains(x),
                    grow ==> forall|k: int|
                        0 <= k < s ==> level_list(self.graph.nodes()[new_index as int], 0).contains(
                            (#[trigger] chosen[k]).index,
                        ),
                    level == 0 ==> forall|k: int|
                        s <= k < chosen.len() ==> level_list(self.graph.nodes()[(#[trigger] chosen[k]).index as int], 0)
                            == level_list(linked.graph.nodes()[chosen[k].index as int], 0),
                    level > 0 ==> forall|i: int|
                        0 <= i < n && i != new_index ==> #[trigger] level_list(self.graph.nodes()[i], 0)
                            == level_list(linked.graph.nodes()[i], 0),
                    self.wf_shape(),
                    Self::same_except_edges(&linked, self),
                    edges_climb(self.graph.nodes()),
                    same_heights(linked.graph.nodes(), self.graph.nodes()),
                    answered(self.graph.nodes(), new_index, level as int, m as int),
                    forall|l: int| level < l <= top ==> #[trigger] answered(self.graph.nodes(), new_index, l, m as int),
                    forall|l: int| l > top ==> (#[trigger] level_list(self.graph.nodes()[new_index as int], l)).len() == 0,
                    forall|k: int|
                        0 <= k < chosen.len() ==> linked.graph.nodes()[(#[trigger] chosen[k]).index as int].neighbors.len()
                            > level,
                    linked.graph.nodes()[new_index as int].neighbors.len() == node_level + 1,
                    m == self.config.m,
                    n == self.graph.nodes().len(),
                    current_entry < n,
                    new_index < n,
                    chosen == selected@,
                    chosen.len() <= m,
                    forall|k: int| 0 <= k < chosen.len() ==> (#[trigger] chosen[k]).index < n,
                    s <= selected@.len(),
                    forall|i: int, l: int|
                        0 <= i < n && (i != new_index || l > level) ==> (#[trigger] level_list(
                            self.graph.nodes()[i],
                            l,
                        )).len() <= m,
                    forall|l: int|
                        0 <= l < level ==> (#[trigger] level_list(self.graph.nodes()[new_index as int], l)).len()
                            == 0,
                    level_list(self.graph.nodes()[new_index as int], level as int).len() <= s,
                    forall|k: int| 0 <= k < chosen.len() ==> (#[trigger] chosen[k]).index != new_index,
                    unreferenced(self.graph.nodes(), new_index, level - 1),
                    forall|l: int|
                        level < l <= top ==> (#[trigger] level_list(self.graph.nodes()[new_index as int], l)).len()
                            > 0,
                    s > 0 ==> level_list(self.graph.nodes()[new_index as int], level as int).len() > 0,
                    self.graph.nodes()[new_index as int].neighbors.len() == node_level + 1,
                    level <= top,
                    top <= node_level,
                decreases selected@.len() - s,
            {
                let neighbor = selected[s].index;
                let ghost before_edge = *self;
                let ghost nodes0 = self.graph.nodes();
                self.graph.add_bidirectional_edge(new_index, neighbor, level);
                proof {
                    Self::lemma_same_except_edges(&before_edge, self);
                    Self::lemma_same_except_edges_trans(&linked, &before_edge, self);
                }
                let ghost nodes1 = self.graph.nodes();
                let ghost before_prune = *self;
                self.prune_neighbors(neighbor, level);
                proof {
                    Self::lemma_same_except_edges(&before_prune, self);
                    Self::lemma_same_except_edges_trans(&linked, &before_prune, self);
                    let nodes2 = self.graph.nodes();
                    assert(nodes1 =~= linked_both(nodes0, new_index, neighbor, level as int));
                    assert(nodes2 == pruned(self.metric, m as int, nodes1, neighbor, level as int));
                    assert(chosen.take(s + 1).map_values(|c: Candidate| c.index).drop_last() =~= chosen.take(
                        s as int,
                    ).map_values(|c: Candidate| c.index));
                    assert(chosen.take(s + 1).map_values(|c: Candidate| c.index).last() == neighbor);
                    lemma_link_keeps_climb(nodes0, nodes1, nodes2, new_index, neighbor, level as int);
                    lemma_link_keeps_answers(
                        nodes0,
                        nodes1,
                        nodes2,
                        new_index,
                        neighbor,
                        level as int,
                        top as int,
                        m as int,
                    );
                    assert(answered(nodes2, new_index, level as int, m as int));
                    if grow {
                        let list0 = level_list(nodes0[neighbor as int], 0);
                        assert(chosen[s as int].index == neighbor);
                        assert(list0 == level_list(linked.graph.nodes()[neighbor as int], 0));
                        assert forall|k: int| 0 <= k < list0.len() implies #[trigger] list0[k] < new_index
                            && list0[k] != neighbor by {
                            assert(linked.graph.nodes()[neighbor as int].neighbors[0][k] < n);
                            assert(!level_list(linked.graph.nodes()[neighbor as int], 0).contains(new_index));
                            assert(!linked.graph.nodes()[neighbor as int].neighbors[0].contains(neighbor));
                        }
                        lemma_short_list(list0, new_index as int, neighbor as int);
                        lemma_link_fills(nodes0, nodes1, nodes2, new_index, neighbor, m as int);
                        assert forall|k: int| 0 <= k < s + 1 implies level_list(
                            nodes2[(#[trigger] chosen[k]).index as int],
                            0,
                        ).contains(new_index) by {
                            if k < s {
                                assert(chosen[k].index != neighbor);
                                assert(nodes2[chosen[k].index as int] == nodes0[chosen[k].index as int]);
                            }
                        }
                        assert forall|k: int, x: usize|
                            0 <= k < s + 1 && level_list(linked.graph.nodes()[chosen[k].index as int], 0).contains(
                                x,
                            ) implies #[trigger] level_list(nodes2[chosen[k].index as int], 0).contains(x) by {
                            if k < s {
                                assert(chosen[k].index != neighbor);
                                assert(nodes2[chosen[k].index as int] == nodes0[chosen[k].index as int]);
                            }
                        }
                        assert forall|k: int| 0 <= k < s + 1 implies level_list(nodes2[new_index as int], 0).contains(
                            (#[trigger] chosen[k]).index,
                        ) by {
                            if k < s {
                                assert(level_list(nodes0[new_index as int], 0).contains(chosen[k].index));
                            }
                        }
                    }
                    if level == 0 {
                        assert forall|k: int| s + 1 <= k < chosen.len() implies level_list(
                            nodes2[(#[trigger] chosen[k]).index as int],
                            0,
                        ) == level_list(linked.graph.nodes()[chosen[k].index as int], 0) by {
                            assert(chosen[k].index != neighbor);
                            assert(nodes2[chosen[k].index as int] == nodes0[chosen[k].index as int]);
                        }
                    }
                    assert(level_list(nodes2[new_index as int], level as int) =~= chosen.take(s + 1).map_values(
                        |c: Candidate| c.index,
                    )) by {
                        let prev = chosen.take(s as int).map_values(|c: Candidate| c.index);
                        assert(!prev.contains(neighbor)) by {
                            if prev.contains(neighbor) {
                                let k = choose|k: int| 0 <= k < prev.len() && prev[k] == neighbor;
                                assert(chosen[k].index == chosen[s as int].index);
                            }
                        }
                        assert(nodes2[new_index as int] == nodes1[new_index as int]);
                        assert(level_list(nodes2[new_index as int], level as int) == prev.push(neighbor));
                    }
                    assert forall|i: int, l: int| 0 <= i < n && 0 <= l < level implies #[trigger] level_list(
                        nodes2[i],
                        l,
                    ) == level_list(linked.graph.nodes()[i], l) by {
                        assert(level_list(nodes0[i], l) == level_list(linked.graph.nodes()[i], l));
                        if i == neighbor {
                            assert(level_list(nodes2[i], l) == level_list(nodes1[i], l));
                            assert(level_list(nodes1[i], l) == level_list(nodes0[i], l));
                        } else if i == new_index {
                            assert(nodes2[i] == nodes1[i]);
                            assert(level_list(nodes1[i], l) == level_list(nodes0[i], l));
                        } else {
                            assert(nodes2[i] == nodes0[i]);
                        }
                    }
                    assert forall|l: int| level < l <= top implies #[trigger] linked_by_search(
                        self.metric,
                        linked.graph.nodes(),
                        new_index as int,
                        level_list(nodes2[new_index as int], l),
                        l,
                        width as int,
                        m as int,
                    ) by {
                        assert(nodes2[new_index as int] == nodes1[new_index as int]);
                        assert(level_list(nodes2[new_index as int], l) == level_list(nodes0[new_index as int], l));
                    }
                    if level > 0 {
                        assert forall|i: int| 0 <= i < n && i != new_index implies #[trigger] level_list(nodes2[i], 0)
                            == level_list(linked.graph.nodes()[i], 0) by {
                            assert(level_list(nodes0[i], 0) == level_list(linked.graph.nodes()[i], 0));
                            if i == neighbor {
                                assert(level_list(nodes2[i], 0) == level_list(nodes1[i], 0));
                                assert(level_list(nodes1[i], 0) == level_list(nodes0[i], 0));
                            } else {
                                assert(nodes2[i] == nodes0[i]);
                            }
                        }
                    }
                    assert forall|l: int| l > top implies (#[trigger] level_list(nodes2[new_index as int], l)).len()
                        == 0 by {
                        assert(level_list(nodes0[new_index as int], l).len() == 0);
                    }
                    assert(same_heights(linked.graph.nodes(), nodes2));
                    assert forall|i: int, l: int|
                        0 <= i < n && (i != new_index || l > level) implies (#[trigger] level_list(
                        nodes2[i],
                        l,
                    )).len() <= m by {
                        assert(level_list(nodes0[i], l).len() <= m);
                        if i == neighbor && l == level {
                        } else if i == neighbor {
                            assert(level_list(nodes2[i], l) == level_list(nodes1[i], l));
                        } else {
                            assert(nodes2[i] == nodes1[i]);
                        }
                    }
                    assert forall|l: int| 0 <= l < level implies (#[trigger] level_list(
                        nodes2[new_index as int],
                        l,
                    )).len() == 0 by {
                        assert(level_list(nodes0[new_index as int], l).len() == 0);
                    }
                    assert(nodes2[new_index as int] == nodes1[new_index as int]);
                    assert forall|i: int, l: int| 0 <= i < nodes2.len() && l <= level - 1 implies !(
                    #[trigger] level_list(nodes2[i], l)).contains(new_index) by {
                        assert(!level_list(nodes0[i], l).contains(new_index));
                        if i == neighbor {
                            assert(level_list(nodes2[i], l) == level_list(nodes1[i], l));
                        } else {
                            assert(nodes2[i] == nodes1[i]);
                        }
                        if i != new_index && i != neighbor {
                            assert(nodes1[i] == nodes0[i]);
                        }
                    }
                    assert forall|l: int| level < l <= top implies (#[trigger] level_list(
                        nodes2[new_index as int],
                        l,
                    )).len() > 0 by {
                        assert(level_list(nodes0[new_index as int], l).len() > 0);
                    }
                }
                s = s + 1;
            }
            proof {
                assert(chosen.take(chosen.len() as int) =~= chosen);
                assert(linked_by_search(
                    self.metric,
                    linked.graph.nodes(),
                    new_index as int,
                    level_list(self.graph.nodes()[new_index as int], level as int),
                    level as int,
                    width as int,
                    m as int,
                ));
            }
            if selected.len() > 0 {
                current_entry = selected[0].index;
            }
            assert(link_levels(self.metric, m as int, width as int, g_start, new_index, level as int, cur_start)
                == link_levels(
                self.metric,
                m as int,
                width as int,
                self.graph.nodes(),
                new_index,
                level - 1,
                current_entry,
            )) by {
                let qs = g_start[new_index as int].vector;
                assert(sorted(candidates@)) by {
                    assert forall|a: int, b: int| 0 <= a < b < candidates@.len() implies cand_le(
                        #[trigger] candidates@[a],
                        #[trigger] candidates@[b],
                    ) by {
                        assert(cand_lt(candidates@[a], candidates@[b]));
                    }
                }
                assert(chosen == selection(self.metric, g_start, qs, candidates@, m as int));
                assert(ef == width);
                assert(candidates@ == sorted_of(layer_result(self.metric, qs, g_start, level as int, width as int, cur_start)));
                assert(chosen.take(chosen.len() as int) =~= chosen);
            }
            proof {
                if grow {
                    let g = self.graph.nodes();
                    assert forall|i: int, j: int| 0 <= i < n && 0 <= j < n && i != j implies #[trigger] level_list(
                        g[i],
                        0,
                    ).contains(j as usize) by {
                        if i == new_index {
                            assert(holds(chosen, j as usize));
                            let k = choose|k: int| 0 <= k < chosen.len() && chosen[k].index == j as usize;
                            assert(level_list(g[new_index as int], 0).contains(chosen[k].index));
                        } else if j == new_index {
                            assert(holds(chosen, i as usize));
                            let k = choose|k: int| 0 <= k < chosen.len() && chosen[k].index == i as usize;
                            assert(level_list(g[chosen[k].index as int], 0).contains(new_index));
                        } else {
                            assert(holds(chosen, i as usize));
                            let k = choose|k: int| 0 <= k < chosen.len() && chosen[k].index == i as usize;
                            assert(level_list(linked.graph.nodes()[i], 0).contains(j as usize));
                            assert(level_list(g[chosen[k].index as int], 0).contains(j as usize));
                        }
                    }
                }
            }
            if level == 0 {
                break;
            }
            level = level - 1;
        }
        proof {
            Self::lemma_same_except_edges(&linked, self);
            let nodes = self.graph.nodes();
            assert forall|l: int, k: int|
                0 <= l && 0 <= k < level_list(nodes[new_index as int], l).len() implies links_back(
                nodes,
                #[trigger] level_list(nodes[new_index as int], l)[k] as int,
                new_index,
                l,
                m as int,
            ) by {
                if l > top {
                    assert(level_list(nodes[new_index as int], l).len() == 0);
                } else {
                    assert(answered(nodes, new_index, l, m as int));
                }
            }
        }
        if node_level > old_max_level {
            self.entry_point = Some(new_index);
            self.max_level = node_level;
        }
        Ok(())
    }

    /// Replaces the vector of `id`: the old one is deleted and `vector` is
    /// inserted under the same id. An unknown id or an invalid vector is
    /// refused, and the index is left as it was.
    pub fn update(&mut self, id: VectorId, vector: Vector<T>) -> (r: Result<()>)
        requires
            old(self).wf(),
        ensures
            final(self).wf(),
            r == update_check(old(self)@, old(self).spec_dimension(), id, vector@),
            r is Ok ==> final(self)@ == old(self)@.insert(id, vector@),
            r is Ok ==> exists|mid: Self|
                Self::spec_deleted(old(self), &mid, id) && #[trigger] Self::spec_inserted(&mid, final(self), id, vector@),
            r is Ok ==> final(self)@.len() == old(self)@.len(),
            r is Ok ==> final(self).spec_node_count() == old(self).spec_node_count() + 1,
            r is Ok ==> (old(self).spec_bottom_complete() && old(self).spec_node_count() <= old(
                self,
            ).spec_config().m ==> final(self).spec_bottom_complete()),
            r is Ok ==> final(self).spec_has_deleted(),
            r is Ok ==> final(self).spec_level_state() == level_state_after(
                old(self).spec_level_state(),
                old(self).spec_config(),
            ),
            r is Err ==> *final(self) == *old(self),
            final(self).spec_dimension() == old(self).spec_dimension(),
            final(self).spec_config() == old(self).spec_config(),
            final(self).spec_metric() == old(self).spec_metric(),
    {
        if !self.graph.contains_id(id) {
            return Err(VecHnswError::VectorNotFound(id));
        }
        match self.validate_vector(vector.as_slice()) {
            Ok(()) => {},
            Err(e) => {
                return Err(e);
            },
        }
        proof {
            assert(self.graph.ids()[id] < self.graph.nodes().len());
            assert(self.dimension is Some);
        }
        match self.delete(id) {
            Ok(()) => {},
            Err(e) => {
                return Err(e);
            },
        }
        let ghost mid = *self;
        let r = self.insert(id, vector);
        proof {
            if r is Ok {
                assert(Self::spec_deleted(old(self), &mid, id) && Self::spec_inserted(&mid, &*self, id, vector@));
            }
        }
        assert(self@ =~= old(self)@.insert(id, vector@));
        r
    }

    /// The node where the descent for `query` ends: from the entry point,
    /// one greedy walk on each level from the top level down to level 1,
    /// each moving to the nearest neighbor (the first among equals) while it
    /// is strictly nearer to `query`.
    pub closed spec fn spec_descent_end(&self, query: Seq<T>) -> usize {
        descend(self.metric, query, self.graph.nodes(), self.entry_point.unwrap(), self.max_level as nat)
    }

    /// The candidates that the bottom-level search of width `width` from
    /// the end of the descent for `query` keeps, nearest first.
    closed spec fn kept_candidates(&self, query: Seq<T>, width: usize) -> Seq<Candidate> {
        sorted_of(layer_result(self.metric, query, self.graph.nodes(), 0, width as int, self.spec_descent_end(query)))
    }

    /// How many candidates the bottom-level search of width `width` for
    /// `query` keeps.
    pub closed spec fn spec_kept_count(&self, query: Seq<T>, width: usize) -> nat {
        self.kept_candidates(query, width).len()
    }

    /// Whether the `p`-th kept candidate, nearest first, is a live node.
    pub closed spec fn spec_kept_is_live(&self, query: Seq<T>, width: usize, p: int) -> bool {
        !self.graph.nodes()[self.kept_candidates(query, width)[p].index as int].deleted
    }

    /// The hit that the `p`-th kept candidate gives: its node's id and key.
    pub closed spec fn spec_kept_hit(&self, query: Seq<T>, width: usize, p: int) -> SearchResult {
        hit_of(self.graph.nodes(), self.kept_candidates(query, width)[p])
    }

    /// How many of the kept candidates before the `p`-th one are live.
    pub closed spec fn spec_kept_live_before(&self, query: Seq<T>, width: usize, p: int) -> nat {
        live_count(self.graph.nodes(), self.kept_candidates(query, width).take(p))
    }

    /// How many of the kept candidates are live.
    pub closed spec fn spec_kept_live_count(&self, query: Seq<T>, width: usize) -> nat {
        live_count(self.graph.nodes(), self.kept_candidates(query, width))
    }

    /// `hits` are taken from the candidates that the bottom-level search of
    /// width `width` for `query` keeps, deleted ones skipped: there are
    /// `min(k, live kept)` of them, each the hit of a live kept candidate,
    /// and every live kept candidate with fewer than `k` live ones before it
    /// is among them.
    pub open spec fn takes_live_kept(&self, query: Seq<T>, width: usize, k: usize, hits: Seq<SearchResult>) -> bool {
        &&& hits.len() == if k < self.spec_kept_live_count(query, width) {
            k as int
        } else {
            self.spec_kept_live_count(query, width) as int
        }
        &&& forall|i: int|
            0 <= i < hits.len() ==> exists|p: int|
                0 <= p < self.spec_kept_count(query, width) && self.spec_kept_is_live(query, width, p)
                    && #[trigger] hits[i] == self.spec_kept_hit(query, width, p)
        &&& forall|p: int|
            0 <= p < self.spec_kept_count(query, width) && self.spec_kept_is_live(query, width, p)
                && self.spec_kept_live_before(query, width, p) < k ==> exists|i: int|
                0 <= i < hits.len() && hits[i] == #[trigger] self.spec_kept_hit(query, width, p)
    }

    /// A search's hits are taken from the candidates that its bottom-level
    /// search keeps, deleted ones skipped: there are `min(k, live kept)` of
    /// them, each the hit of a live kept candidate, and every live kept
    /// candidate with fewer than `k` live ones before it is among them.
    pub proof fn law_search_takes_live_kept(&self, query: Seq<T>, width: usize, k: usize)
        ensures
            self.takes_live_kept(query, width, k, self.spec_search_hits(query, width, k)),
    {
        let found = self.kept_candidates(query, width);
        lemma_live_hits_take(self.graph.nodes(), found, k as int);
        let hits = self.spec_search_hits(query, width, k);
        assert(hits == live_hits(self.graph.nodes(), found, k as int));
        assert forall|i: int| 0 <= i < hits.len() implies exists|p: int|
            0 <= p < self.spec_kept_count(query, width) && self.spec_kept_is_live(query, width, p)
                && #[trigger] hits[i] == self.spec_kept_hit(query, width, p) by {
            let p = choose|p: int|
                0 <= p < found.len() && !self.graph.nodes()[found[p].index as int].deleted && #[trigger] hits[i]
                    == hit_of(self.graph.nodes(), found[p]);
            assert(self.spec_kept_hit(query, width, p) == hit_of(self.graph.nodes(), found[p]));
        }
        assert forall|p: int|
            0 <= p < self.spec_kept_count(query, width) && self.spec_kept_is_live(query, width, p)
                && self.spec_kept_live_before(query, width, p) < k implies exists|i: int|
            0 <= i < hits.len() && hits[i] == #[trigger] self.spec_kept_hit(query, width, p) by {
            assert(!self.graph.nodes()[found[p].index as int].deleted);
            assert(live_count(self.graph.nodes(), found.take(p)) < k);
            let i = choose|i: int| 0 <= i < hits.len() && hits[i] == hit_of(self.graph.nodes(), #[trigger] found[p]);
            assert(hits[i] == self.spec_kept_hit(query, width, p));
        }
    }

    /// The hits a search for `k` results answers: the live ones, nearest
    /// first and up to `k`, among the candidates that the bottom-level
    /// search of width `width` from the end of the descent keeps.
    pub closed spec fn spec_search_hits(&self, query: Seq<T>, width: usize, k: usize) -> Seq<SearchResult> {
        live_hits(
            self.graph.nodes(),
            sorted_of(
                layer_result(self.metric, query, self.graph.nodes(), 0, width as int, self.spec_descent_end(query)),
            ),
            k as int,
        )
    }

    /// Indexes in the same state answer every search alike.
    pub proof fn law_same_state_searches_alike(a: &Self, b: &Self, query: Seq<T>, width: usize, k: usize)
        requires
            Self::same_state(a, b),
        ensures
            a@ == b@,
            a.spec_dimension() == b.spec_dimension(),
            a.spec_config() == b.spec_config(),
            a.spec_search_hits(query, width, k) == b.spec_search_hits(query, width, k),
    {
    }

    /// Indexes in the same state that accept the same insertion stay in the
    /// same state.
    pub proof fn law_same_state_inserts_alike(
        a: &Self,
        b: &Self,
        a2: &Self,
        b2: &Self,
        id: VectorId,
        vector: Seq<T>,
    )
        requires
            Self::same_state(a, b),
            Self::spec_inserted(a, a2, id, vector),
            Self::spec_inserted(b, b2, id, vector),
        ensures
            Self::same_state(a2, b2),
    {
    }

    /// Indexes in the same state that accept the same update stay in the
    /// same state.
    pub proof fn law_same_state_updates_alike(
        a: &Self,
        b: &Self,
        a2: &Self,
        b2: &Self,
        id: VectorId,
        vector: Seq<T>,
    )
        requires
            Self::same_state(a, b),
            exists|mid: Self| Self::spec_deleted(a, &mid, id) && #[trigger] Self::spec_inserted(&mid, a2, id, vector),
            exists|mid: Self| Self::spec_deleted(b, &mid, id) && #[trigger] Self::spec_inserted(&mid, b2, id, vector),
        ensures
            Self::same_state(a2, b2),
    {
        let ma = choose|mid: Self| Self::spec_deleted(a, &mid, id) && #[trigger] Self::spec_inserted(&mid, a2, id, vector);
        let mb = choose|mid: Self| Self::spec_deleted(b, &mid, id) && #[trigger] Self::spec_inserted(&mid, b2, id, vector);
        Self::law_same_state_deletes_alike(a, b, &ma, &mb, id);
        Self::law_same_state_inserts_alike(&ma, &mb, a2, b2, id, vector);
    }

    /// At one width, a search for fewer results answers a prefix of a search
    /// for more: its first `min(k1, len)` hits.
    pub proof fn law_smaller_k_gives_prefix(&self, query: Seq<T>, width: usize, k1: usize, k2: usize)
        requires
            k1 <= k2,
        ensures
            self.spec_search_hits(query, width, k1) == self.spec_search_hits(query, width, k2).take(
                self.spec_search_hits(query, width, k1).len() as int,
            ),
            self.spec_search_hits(query, width, k1).len() == if k1 < self.spec_search_hits(query, width, k2).len() {
                k1 as int
            } else {
                self.spec_search_hits(query, width, k2).len() as int
            },
    {
        lemma_live_hits_prefix(
            self.graph.nodes(),
            sorted_of(
                layer_result(self.metric, query, self.graph.nodes(), 0, width as int, self.spec_descent_end(query)),
            ),
            k1 as int,
            k2 as int,
        );
    }

    /// `hits` answer a query for `k` results by a bottom-level search of
    /// width `width` from node `start`: the search visits `start` and keeps
    /// the `width` nearest of the nodes it visits, each with all its
    /// bottom-level neighbors visited; the hits are the live ones among the
    /// kept nodes, nearest first, up to `k`.
    pub closed spec fn spec_answers(
        &self,
        query: Seq<T>,
        start: usize,
        width: usize,
        k: usize,
        hits: Seq<SearchResult>,
    ) -> bool {
        exists|found: Seq<Candidate>, visited: Seq<bool>|
            #[trigger] layer_kept(self.metric, query, self.graph.nodes(), 0, visited, found, width as int)
                && visited[start as int] && strictly_sorted(found) && hits == live_hits(
                self.graph.nodes(),
                found,
                k as int,
            )
    }

    /// The `k` nearest live vectors found for `query`; see
    /// `search_with_options`.
    pub fn search(&self, query: &[T], k: usize) -> (r: Result<Vec<SearchResult>>)
        requires
            self.wf(),
        ensures
            r is Ok <==> search_check(self.spec_dimension(), k, query@) is Ok,
            r matches Err(e) ==> search_check(self.spec_dimension(), k, query@) == Err::<(), VecHnswError>(e),
            r matches Ok(hits) ==> hits_valid(self@, k, hits@),
            r matches Ok(hits) ==> hits@.len() <= self@.len(),
            r matches Ok(hits) ==> hits_measured(self@, self.spec_metric(), query@, hits@),
            self.spec_dimension() is None ==> (r matches Ok(hits) ==> hits@.len() == 0),
            k == 0 ==> (r matches Ok(hits) && hits@.len() == 0),
            k > 0 && search_check(self.spec_dimension(), k, query@) is Ok && self@.len() > 0
                && !self.spec_has_deleted() ==> (r matches Ok(hits) && hits@.len() >= 1),
            k > 0 && self@.len() > 0 ==> (r matches Ok(hits) ==> hits@ == self.spec_search_hits(
                query@,
                search_width(self.spec_config(), (SearchOptions { k, ef_search: None })),
                k,
            )),
            k > 0 && self@.len() > 0 ==> (r matches Ok(hits) ==> self.takes_live_kept(
                query@,
                search_width(self.spec_config(), (SearchOptions { k, ef_search: None })),
                k,
                hits@,
            )),
            k > 0 && self@.len() > 0 ==> (r matches Ok(hits) ==> self.spec_answers(
                query@,
                self.spec_descent_end(query@),
                search_width(self.spec_config(), (SearchOptions { k, ef_search: None })),
                k,
                hits@,
            )),
            self.spec_bottom_complete() && search_width(self.spec_config(), (SearchOptions { k, ef_search: None }))
                >= self.spec_node_count() ==> (r matches Ok(hits) ==> nearest_live(
                self@,
                self.spec_metric(),
                query@,
                k,
                hits@,
            )),
    {
        self.search_with_options(query, SearchOptions::new(k))
    }

    /// Approximate nearest-neighbour search: descends greedily from the
    /// entry point through the upper levels, then searches the bottom level
    /// with width `max(ef, k)`, where `ef` is the override of `options` or
    /// the configured `ef_search`. Deleted vectors are skipped; the hits come
    /// nearest first, each with the metric's key. When every stored node
    /// links to every other one on the bottom level, as while the index
    /// holds at most `m + 1` nodes, and the width covers the stored nodes,
    /// the hits are the nearest live vectors.
    pub fn search_with_options(&self, query: &[T], options: SearchOptions) -> (r: Result<
        Vec<SearchResult>,
    >)
        requires
            self.wf(),
        ensures
            r is Ok <==> search_check(self.spec_dimension(), options.k, query@) is Ok,
            r matches Err(e) ==> search_check(self.spec_dimension(), options.k, query@) == Err::<
                (),
                VecHnswError,
            >(e),
            r matches Ok(hits) ==> hits_valid(self@, options.k, hits@),
            r matches Ok(hits) ==> hits@.len() <= self@.len(),
            r matches Ok(hits) ==> hits_measured(self@, self.spec_metric(), query@, hits@),
            self.spec_dimension() is None ==> (r matches Ok(hits) ==> hits@.len() == 0),
            options.k == 0 ==> (r matches Ok(hits) && hits@.len() == 0),
            options.k > 0 && search_check(self.spec_dimension(), options.k, query@) is Ok && self@.len() > 0
                && !self.spec_has_deleted() ==> (r matches Ok(hits) && hits@.len() >= 1),
            self.spec_bottom_complete() && search_width(self.spec_config(), options) >= self.spec_node_count()
                ==> (r matches Ok(hits) ==> nearest_live(self@, self.spec_metric(), query@, options.k, hits@)),
            options.k > 0 && self@.len() > 0 ==> (r matches Ok(hits) ==> self.spec_answers(
                query@,
                self.spec_descent_end(query@),
                search_width(self.spec_config(), options),
                options.k,
                hits@,
            )),
            options.k > 0 && self@.len() > 0 ==> (r matches Ok(hits) ==> hits@ == self.spec_search_hits(
                query@,
                search_width(self.spec_config(), options),
                options.k,
            )),
            options.k > 0 && self@.len() > 0 ==> (r matches Ok(hits) ==> self.takes_live_kept(
                query@,
                search_width(self.spec_config(), options),
                options.k,
                hits@,
            )),
    {
        let k = options.k;
        if k == 0 {
            return Ok(Vec::new());
        }
        match self.validate_query(query) {
            Ok(()) => {},
            Err(e) => {
                return Err(e);
            },
        }
        let ghost n = self.graph.nodes().len();
        proof {
            self.lemma_live_vectors_dom();
            if self@.len() > 0 {
                let id = self@.dom().choose();
                assert(self.graph.ids().contains_key(id));
                assert(self.graph.ids()[id] < n);
            }
        }
        let mut current_entry = match self.entry_point {
            Some(entry) => entry,
            None => {
                return Ok(Vec::new());
            },
        };
        let mut level = self.max_level;
        while level >= 1
            invariant
                self.wf(),
                n == self.graph.nodes().len(),
                current_entry < n,
                self.spec_descent_end(query@) == descend(
                    self.metric,
                    query@,
                    self.graph.nodes(),
                    current_entry,
                    level as nat,
                ),
            decreases level,
        {
            current_entry = greedy_search(&self.graph, &self.metric, query, current_entry, level);
            level = level - 1;
        }
        if self.graph.is_empty() {
            return Ok(Vec::new());
        }
        let requested = match options.ef_search {
            Some(ef) => ef,
            None => self.config.ef_search,
        };
        let ef = if requested > k {
            requested
        } else {
            k
        };
        let candidates = search_layer(&self.graph, &self.metric, query, current_entry, ef, 0);
        let ghost nodes = self.graph.nodes();
        let ghost ids = self.graph.ids();
        let ghost cands = candidates@;
        let ghost exact = self.spec_bottom_complete() && ef >= n;
        proof {
            if exact {
                lemma_reach_all(nodes, 0, current_entry);
                assert forall|j: usize| j < n implies #[trigger] holds(cands, j) by {
                    assert(reachable(nodes, 0, current_entry, j));
                }
            }
        }
        let mut results: Vec<SearchResult> = Vec::new();
        let ghost mut positions: Seq<int> = Seq::empty();
        let mut i: usize = 0;
        while i < candidates.len() && results.len() < k
            invariant
                self.wf(),
                nodes == self.graph.nodes(),
                cands == candidates@,
                results@ == live_hits(nodes, cands.take(i as int), k as int),
                forall|p: int| 0 <= p < cands.len() ==> in_graph(nodes.len(), #[trigger] cands[p]),
                forall|p: int| 0 <= p < cands.len() ==> measured(self.metric, query@, nodes, #[trigger] cands[p]),
                cands.len() >= 1,
                k >= 1,
                i > 0 && !self.spec_has_deleted() ==> results@.len() > 0,
                strictly_sorted(cands),
                distinct_indices(cands),
                i <= cands.len(),
                results@.len() <= k,
                positions.len() == results@.len(),
                forall|a: int| 0 <= a < positions.len() ==> 0 <= #[trigger] positions[a] < i,
                forall|a: int, b: int| 0 <= a < b < positions.len() ==> #[trigger] positions[a] < #[trigger] positions[b],
                forall|a: int|
                    0 <= a < results@.len() ==> Self::hit_at(nodes, cands, positions, #[trigger] results@[a], a),
                forall|p: int|
                    0 <= p < i && !nodes[cands[p].index as int].deleted ==> #[trigger] positions.contains(p),
            decreases cands.len() - i,
        {
            let candidate = candidates[i];
            let node = self.graph.node(candidate.index);
            assert(cands.take(i + 1).drop_last() =~= cands.take(i as int));
            assert(cands.take(i + 1).last() == candidate);
            if !node.is_deleted() {
                let ghost before = results@;
                results.push(SearchResult { id: node.id(), distance: candidate.distance });
                proof {
                    let before_positions = positions;
                    positions = positions.push(i as int);
                    assert(positions[before_positions.len() as int] == i as int);
                    assert forall|p: int|
                        0 <= p < i + 1 && !nodes[cands[p].index as int].deleted implies #[trigger] positions.contains(
                        p,
                    ) by {
                        if p < i {
                            assert(before_positions.contains(p));
                            let a = choose|a: int| 0 <= a < before_positions.len() && before_positions[a] == p;
                            assert(positions[a] == p);
                        }
                    }
                    assert forall|a: int| 0 <= a < results@.len() implies Self::hit_at(
                        nodes,
                        cands,
                        positions,
                        #[trigger] results@[a],
                        a,
                    ) by {
                        if a < before.len() {
                            assert(results@[a] == before[a]);
                        }
                    }
                }
            }
            i = i + 1;
        }
        proof {
            let hits = results@;
            assert forall|a: int| 0 <= a < hits.len() implies (#[trigger] hits[a]).distance
                == self.metric.spec_distance(query@, self@[hits[a].id]) by {
                let c = cands[positions[a]];
                assert(Self::hit_at(nodes, cands, positions, hits[a], a));
                assert(measured(self.metric, query@, nodes, c));
                assert(ids_consistent(nodes, ids));
                assert(!nodes[c.index as int].deleted);
                assert(ids[nodes[c.index as int].id] == c.index);
            }
            assert forall|a: int| 0 <= a < hits.len() implies self@.contains_key(
                (#[trigger] hits[a]).id,
            ) by {
                let c = cands[positions[a]];
                assert(Self::hit_at(nodes, cands, positions, hits[a], a));
                assert(in_graph(nodes.len(), c));
                assert(ids_consistent(nodes, ids));
                assert(!nodes[c.index as int].deleted);
                assert(ids.contains_key(nodes[c.index as int].id));
            }
            assert forall|a: int, b: int| 0 <= a < b < hits.len() implies (#[trigger] hits[a]).distance
                <= (#[trigger] hits[b]).distance && hits[a].id != hits[b].id by {
                let ca = cands[positions[a]];
                let cb = cands[positions[b]];
                assert(Self::hit_at(nodes, cands, positions, hits[a], a));
                assert(Self::hit_at(nodes, cands, positions, hits[b], b));
                assert(strictly_sorted(cands));
                assert(positions[a] < positions[b]);
                assert(in_graph(nodes.len(), ca));
                assert(in_graph(nodes.len(), cb));
                assert(distinct_indices(cands));
                if hits[a].id == hits[b].id {
                    assert(ids[nodes[ca.index as int].id] == ca.index);
                    assert(ids[nodes[cb.index as int].id] == cb.index);
                }
            }
            law_hits_within_live_vectors(self@, k, results@);
            if i < cands.len() {
                lemma_live_full(nodes, cands, k as int, i as int);
            } else {
                assert(cands.take(i as int) =~= cands);
            }
            let visited = choose|visited: Seq<bool>|
                #[trigger] layer_kept(self.metric, query@, nodes, 0, visited, cands, ef as int)
                    && visited[current_entry as int] && forall|v: int|
                    0 <= v < visited.len() && visited[v] ==> reach_of(nodes, 0, current_entry, v);
            assert(layer_kept(self.metric, query@, nodes, 0, visited, cands, ef as int) && visited[current_entry as int]
                && strictly_sorted(cands) && results@ == live_hits(nodes, cands, k as int));
            assert(current_entry == self.spec_descent_end(query@));
            assert(results@ == self.spec_search_hits(query@, ef, k));
            self.law_search_takes_live_kept(query@, ef, k);
            assert(self.takes_live_kept(query@, ef, k, results@));
            if exact {
                self.lemma_search_exact(query@, k, cands, positions, hits, i as int);
            }
        }
        Ok(results)
    }

    /// Hits taken in order from candidates that cover every node, skipping
    /// only deleted ones and stopping at `k`, are nearest among the live
    /// vectors.
    proof fn lemma_search_exact(
        &self,
        query: Seq<T>,
        k: usize,
        cands: Seq<Candidate>,
        positions: Seq<int>,
        hits: Seq<SearchResult>,
        end: int,
    )
        requires
            self.wf(),
            forall|j: usize| j < self.graph.nodes().len() ==> #[trigger] holds(cands, j),
            forall|p: int| 0 <= p < cands.len() ==> in_graph(self.graph.nodes().len(), #[trigger] cands[p]),
            forall|p: int|
                0 <= p < cands.len() ==> measured(self.metric, query, self.graph.nodes(), #[trigger] cands[p]),
            strictly_sorted(cands),
            0 <= end <= cands.len(),
            hits.len() < k ==> end == cands.len(),
            positions.len() == hits.len(),
            forall|a: int| 0 <= a < positions.len() ==> 0 <= #[trigger] positions[a] < end,
            forall|a: int|
                0 <= a < hits.len() ==> Self::hit_at(self.graph.nodes(), cands, positions, #[trigger] hits[a], a),
            forall|p: int|
                0 <= p < end && !self.graph.nodes()[cands[p].index as int].deleted ==> #[trigger] positions.contains(
                    p,
                ),
        ensures
            nearest_live(self@, self.metric, query, k, hits),
    {
        let nodes = self.graph.nodes();
        let ids = self.graph.ids();
        assert forall|id: VectorId, a: int|
            #[trigger] self@.contains_key(id) && !names(hits, id) && 0 <= a < hits.len() implies (
            #[trigger] hits[a]).distance <= self.metric.spec_distance(query, self@[id]) by {
            let j = ids[id];
            assert(ids_consistent(nodes, ids));
            assert(holds(cands, j));
            let p = choose|p: int| 0 <= p < cands.len() && cands[p].index == j;
            assert(!nodes[j as int].deleted);
            if p < end {
                assert(positions.contains(p));
                let b = choose|b: int| 0 <= b < positions.len() && positions[b] == p;
                assert(Self::hit_at(nodes, cands, positions, hits[b], b));
                assert(hits[b].id == id);
            }
            assert(Self::hit_at(nodes, cands, positions, hits[a], a));
            assert(positions[a] < p);
            assert(measured(self.metric, query, nodes, cands[p]));
        }
        if hits.len() < k {
            assert forall|id: VectorId| #[trigger] self@.contains_key(id) implies names(hits, id) by {
                let j = ids[id];
                assert(ids_consistent(nodes, ids));
                assert(holds(cands, j));
                let p = choose|p: int| 0 <= p < cands.len() && cands[p].index == j;
                assert(positions.contains(p));
                let b = choose|b: int| 0 <= b < positions.len() && positions[b] == p;
                assert(Self::hit_at(nodes, cands, positions, hits[b], b));
            }
        }
    }

    /// The candidates for the out-edges of node `index` on `level`, in list
    /// order.
    closed spec fn edge_candidates(index_of: &Self, index: usize, level: usize) -> Seq<Candidate> {
        level_list(index_of.graph.nodes()[index as int], level as int).map_values(
            |to: usize| Self::edge_candidate(index_of, index, to),
        )
    }

    /// The candidate for the edge from node `index` to node `to`: `to`, with
    /// the metric's key from the vector of `index` to that of `to`.
    closed spec fn edge_candidate(index_of: &Self, index: usize, to: usize) -> Candidate {
        Candidate {
            index: to,
            distance: index_of.metric.spec_distance(
                index_of.graph.nodes()[index as int].vector,
                index_of.graph.nodes()[to as int].vector,
            ),
        }
    }

    /// Chooses at most `limit` of `candidates` as neighbors of the vector
    /// `base_vector`. In ascending order, a candidate is taken when it is
    /// farther from each candidate taken so far than from `base_vector`; the
    /// places left are then filled with the nearest candidates whose node is
    /// not taken yet.
    fn select_neighbors(&self, base_vector: &[T], candidates: Vec<Candidate>, limit: usize) -> (selected:
        Vec<Candidate>)
        requires
            self.graph.wf(),
            forall|i: int|
                0 <= i < candidates@.len() ==> (#[trigger] candidates@[i]).index
                    < self.graph.nodes().len(),
        ensures
            selected@.len() <= limit,
            forall|i: int| 0 <= i < selected@.len() ==> candidates@.contains(#[trigger] selected@[i]),
            limit > 0 && candidates@.len() > 0 ==> {
                &&& selected@.len() > 0
                &&& forall|j: int|
                    0 <= j < candidates@.len() ==> cand_le(selected@[0], #[trigger] candidates@[j])
            },
            distinct_indices(candidates@) ==> distinct_indices(selected@) && selected@.len()
                <= candidates@.len(),
            distinct_indices(candidates@) ==> selected@.len() == if limit < candidates@.len() {
                limit as int
            } else {
                candidates@.len() as int
            },
            forall|ordered: Seq<Candidate>|
                #[trigger] sorted(ordered) && ordered.to_multiset() == candidates@.to_multiset() ==> selected@
                    == selection(self.metric, self.graph.nodes(), base_vector@, ordered, limit as int),
            sorted(sorted_of(candidates@)),
            sorted_of(candidates@).to_multiset() == candidates@.to_multiset(),
            selected@ == selection(self.metric, self.graph.nodes(), base_vector@, sorted_of(candidates@), limit as int),
    {
        let ghost input = candidates@;
        let ordered = sort_candidates(candidates);
        let ghost nodes = self.graph.nodes();
        let ghost base = base_vector@;
        let ghost n = self.graph.nodes().len();
        assert forall|j: int| 0 <= j < input.len() implies ordered@.contains(#[trigger] input[j]) by {
            assert(input.to_multiset().count(input[j]) > 0);
        }
        let mut selected: Vec<Candidate> = Vec::with_capacity(limit);
        let mut i: usize = 0;
        while i < ordered.len() && selected.len() < limit
            invariant
                self.graph.wf(),
                n == self.graph.nodes().len(),
                sorted(ordered@),
                forall|j: int| 0 <= j < ordered@.len() ==> input.contains(#[trigger] ordered@[j]),
                forall|j: int| 0 <= j < input.len() ==> (#[trigger] input[j]).index < n,
                i <= ordered@.len(),
                selected@.len() <= limit,
                nodes == self.graph.nodes(),
                base == base_vector@,
                selected@ == diverse_pass(self.metric, nodes, base, ordered@.take(i as int), limit as int),
                forall|k: int| 0 <= k < selected@.len() ==> input.contains(#[trigger] selected@[k]),
                selected@.len() > 0 ==> selected@[0] == ordered@[0],
                i > 0 && limit > 0 ==> selected@.len() > 0,
                distinct_indices(input) ==> {
                    &&& distinct_indices(ordered@)
                    &&& distinct_indices(selected@)
                    &&& forall|k: int, p: int|
                        0 <= k < selected@.len() && i <= p < ordered@.len() ==> (
                        #[trigger] selected@[k]).index != (#[trigger] ordered@[p]).index
                },
            decreases ordered@.len() - i,
        {
            let candidate = ordered[i];
            assert(input.contains(candidate));
            let candidate_vector = self.graph.node(candidate.index).vector();
            let to_base = self.metric.distance(candidate_vector, base_vector);
            let mut is_diverse = true;
            let mut j: usize = 0;
            while j < selected.len()
                invariant_except_break
                    is_diverse,
                    forall|k: int|
                        0 <= k < j ==> self.metric.spec_distance(
                            nodes[candidate.index as int].vector,
                            nodes[(#[trigger] selected@[k]).index as int].vector,
                        ) > to_base,
                invariant
                    self.graph.wf(),
                    n == self.graph.nodes().len(),
                    nodes == self.graph.nodes(),
                    candidate.index < n,
                    candidate_vector@ == nodes[candidate.index as int].vector,
                    to_base == self.metric.spec_distance(nodes[candidate.index as int].vector, base_vector@),
                    forall|k: int| 0 <= k < selected@.len() ==> input.contains(#[trigger] selected@[k]),
                    forall|k: int| 0 <= k < input.len() ==> (#[trigger] input[k]).index < n,
                    j <= selected@.len(),
                ensures
                    selected@.len() == 0 ==> is_diverse,
                    is_diverse == diverse(self.metric, nodes, base_vector@, candidate, selected@),
                decreases selected@.len() - j,
            {
                assert(input.contains(selected@[j as int]));
                let selected_vector = self.graph.node(selected[j].index).vector();
                if !(self.metric.distance(candidate_vector, selected_vector) > to_base) {
                    is_diverse = false;
                    break;
                }
                j = j + 1;
            }
            let ghost before = selected@;
            if is_diverse {
                selected.push(candidate);
            }
            assert(ordered@.take(i + 1).drop_last() =~= ordered@.take(i as int));
            assert(ordered@.take(i + 1).last() == candidate);
            proof {
                if distinct_indices(input) {
                    assert forall|a: int, b: int| 0 <= a < b < selected@.len() implies (
                    #[trigger] selected@[a]).index != (#[trigger] selected@[b]).index by {
                        if b == before.len() {
                            assert(before[a].index != ordered@[i as int].index);
                        }
                    }
                    assert forall|k: int, p: int|
                        0 <= k < selected@.len() && i + 1 <= p < ordered@.len() implies (
                        #[trigger] selected@[k]).index != (#[trigger] ordered@[p]).index by {
                        if k == before.len() {
                            assert(ordered@[i as int].index != ordered@[p].index);
                        } else {
                            assert(selected@[k] == before[k]);
                        }
                    }
                }
            }
            i = i + 1;
        }
        proof {
            if i < ordered.len() {
                lemma_diverse_full(self.metric, nodes, base, ordered@, limit as int, i as int);
            } else {
                assert(ordered@.take(i as int) =~= ordered@);
            }
        }
        let ghost taken = selected@;
        assert(ordered@.take(0) =~= Seq::<Candidate>::empty());
        if selected.len() < limit {
            let mut i: usize = 0;
            while i < ordered.len() && selected.len() < limit
                invariant
                    selected@ == fill_pass(taken, ordered@.take(i as int), limit as int),
                    forall|j: int| 0 <= j < ordered@.len() ==> input.contains(#[trigger] ordered@[j]),
                    i <= ordered@.len(),
                    selected@.len() <= limit,
                    forall|k: int| 0 <= k < selected@.len() ==> input.contains(#[trigger] selected@[k]),
                    limit > 0 && input.len() > 0 ==> selected@.len() > 0 && selected@[0] == ordered@[0],
                    distinct_indices(input) ==> distinct_indices(selected@),
                    forall|p: int| 0 <= p < i ==> #[trigger] holds(selected@, ordered@[p].index),
                decreases ordered@.len() - i,
            {
                let candidate = ordered[i];
                let ghost before = selected@;
                if !holds_index(&selected, candidate.index) {
                    selected.push(candidate);
                    proof {
                        if distinct_indices(input) {
                            assert forall|a: int, b: int| 0 <= a < b < selected@.len() implies (
                            #[trigger] selected@[a]).index != (#[trigger] selected@[b]).index by {
                                if b == before.len() {
                                    assert(before[a].index != candidate.index);
                                }
                            }
                        }
                    }
                }
                proof {
                    assert(ordered@.take(i + 1).drop_last() =~= ordered@.take(i as int));
                    assert(ordered@.take(i + 1).last() == candidate);
                    assert forall|p: int| 0 <= p < i + 1 implies #[trigger] holds(
                        selected@,
                        ordered@[p].index,
                    ) by {
                        if p < i {
                            assert(holds(before, ordered@[p].index));
                            let k = choose|k: int| 0 <= k < before.len() && before[k].index == ordered@[p].index;
                            assert(selected@[k] == before[k]);
                        } else if selected@.len() > before.len() {
                            assert(selected@[before.len() as int] == candidate);
                        }
                    }
                }
                i = i + 1;
            }
            proof {
                if i < ordered.len() {
                    lemma_fill_full(taken, ordered@, limit as int, i as int);
                } else {
                    assert(ordered@.take(i as int) =~= ordered@);
                }
            }
        } else {
            proof {
                lemma_fill_full(taken, ordered@, limit as int, 0);
            }
        }
        proof {
            assert forall|ord: Seq<Candidate>|
                #[trigger] sorted(ord) && ord.to_multiset() == input.to_multiset() implies selected@ == selection(
                self.metric,
                nodes,
                base,
                ord,
                limit as int,
            ) by {
                lemma_sorted_unique(ord, ordered@);
            }
            assert(sorted(ordered@) && ordered@.to_multiset() == input.to_multiset());
            let so = sorted_of(input);
            assert(sorted(so) && so.to_multiset() == input.to_multiset());
            lemma_sorted_unique(so, ordered@);
            if distinct_indices(input) {
                lemma_distinct_within(selected@, input);
                if selected@.len() < limit {
                    lemma_indices_covered(ordered@, selected@);
                }
            }
        }
        selected
    }

    /// Keeps at most `m` of the out-edges of `index` on `level`, chosen by
    /// `select_neighbors` around the node's own vector.
    fn prune_neighbors(&mut self, index: usize, level: usize)
        requires
            old(self).wf_shape(),
            index < old(self).graph.nodes().len(),
        ensures
            final(self).graph.wf(),
            Self::same_except_edges(old(self), final(self)),
            forall|i: int|
                0 <= i < old(self).graph.nodes().len() && i != index ==> final(self).graph.nodes()[i]
                    == old(self).graph.nodes()[i],
            forall|l: int|
                l != level ==> #[trigger] level_list(final(self).graph.nodes()[index as int], l)
                    == level_list(old(self).graph.nodes()[index as int], l),
            level_list(final(self).graph.nodes()[index as int], level as int).len() <= old(self).config.m,
            final(self).graph.nodes()[index as int].neighbors.len() == old(self).graph.nodes()[index as int].neighbors.len(),
            level_list(final(self).graph.nodes()[index as int], level as int).len() <= level_list(
                old(self).graph.nodes()[index as int],
                level as int,
            ).len(),
            forall|j: int|
                0 <= j < level_list(final(self).graph.nodes()[index as int], level as int).len()
                    ==> level_list(old(self).graph.nodes()[index as int], level as int).contains(
                    #[trigger] level_list(final(self).graph.nodes()[index as int], level as int)[j],
                ),
            level < old(self).graph.nodes()[index as int].neighbors.len() ==> level_list(
                final(self).graph.nodes()[index as int],
                level as int,
            ).len() == if old(self).config.m < level_list(
                old(self).graph.nodes()[index as int],
                level as int,
            ).len() {
                old(self).config.m as int
            } else {
                level_list(old(self).graph.nodes()[index as int], level as int).len() as int
            },
            level_list(old(self).graph.nodes()[index as int], level as int).len() > 0 ==> {
                let old_list = level_list(old(self).graph.nodes()[index as int], level as int);
                let nearest = level_list(final(self).graph.nodes()[index as int], level as int)[0];
                forall|j: int|
                    0 <= j < old_list.len() ==> cand_le(
                        Self::edge_candidate(old(self), index, nearest),
                        Self::edge_candidate(old(self), index, #[trigger] old_list[j]),
                    )
            },
            final(self).graph.nodes() == pruned(
                old(self).metric,
                old(self).config.m as int,
                old(self).graph.nodes(),
                index,
                level as int,
            ),
            level < old(self).graph.nodes()[index as int].neighbors.len() ==> forall|ordered: Seq<Candidate>|
                #[trigger] sorted(ordered) && ordered.to_multiset() == Self::edge_candidates(
                    old(self),
                    index,
                    level,
                ).to_multiset() ==> level_list(final(self).graph.nodes()[index as int], level as int)
                    == selection(
                    old(self).metric,
                    old(self).graph.nodes(),
                    old(self).graph.nodes()[index as int].vector,
                    ordered,
                    old(self).config.m as int,
                ).map_values(|c: Candidate| c.index),
    {
        let ghost nodes = self.graph.nodes();
        let kept = {
            let node = self.graph.node(index);
            let base_vector = node.vector();
            let list = node.neighbors(level);
            let mut candidates: Vec<Candidate> = Vec::new();
            let mut j: usize = 0;
            while j < list.len()
                invariant
                    self.graph.wf(),
                    nodes == self.graph.nodes(),
                    index < nodes.len(),
                    list@ == level_list(nodes[index as int], level as int),
                    j <= list@.len(),
                    candidates@.len() == j,
                    forall|k: int| 0 <= k < j ==> (#[trigger] candidates@[k]).index == list@[k],
                    forall|k: int| 0 <= k < j ==> (#[trigger] candidates@[k]).index < nodes.len(),
                    forall|k: int| 0 <= k < j ==> #[trigger] candidates@[k] == Self::edge_candidate(
                        old(self),
                        index,
                        list@[k],
                    ),
                    nodes == old(self).graph.nodes(),
                    base_vector@ == nodes[index as int].vector,
                    self.metric == old(self).metric,
                decreases list@.len() - j,
            {
                let neighbor = list[j];
                assert(neighbor < nodes.len()) by {
                    assert(nodes[index as int].neighbors[level as int][j as int] == neighbor);
                }
                let distance = self.metric.distance(base_vector, self.graph.node(neighbor).vector());
                candidates.push(Candidate { index: neighbor, distance });
                j = j + 1;
            }
            let ghost all = candidates@;
            assert(distinct_indices(all)) by {
                assert(list@.no_duplicates());
            }
            assert(all =~= Self::edge_candidates(old(self), index, level));
            let selected = self.select_neighbors(base_vector, candidates, self.config.m);
            let mut kept: Vec<usize> = Vec::new();
            let mut s: usize = 0;
            while s < selected.len()
                invariant
                    s <= selected@.len(),
                    kept@.len() == s,
                    forall|k: int| 0 <= k < selected@.len() ==> all.contains(#[trigger] selected@[k]),
                    forall|k: int| 0 <= k < all.len() ==> (#[trigger] all[k]).index == list@[k],
                    forall|k: int| 0 <= k < s ==> (#[trigger] kept@[k]) == selected@[k].index,
                decreases selected@.len() - s,
            {
                kept.push(selected[s].index);
                s = s + 1;
            }
            assert forall|k: int| 0 <= k < kept@.len() implies list@.contains(#[trigger] kept@[k]) by {
                let c = selected@[k];
                assert(all.contains(c));
                let w = choose|w: int| 0 <= w < all.len() && all[w] == c;
                assert(list@[w] == kept@[k]);
            }
            assert(kept@ =~= selected@.map_values(|c: Candidate| c.index));
            assert(all =~= edge_cands(self.metric, nodes, index, level as int));
            assert(kept@ == selection(
                self.metric,
                nodes,
                nodes[index as int].vector,
                sorted_of(edge_cands(self.metric, nodes, index, level as int)),
                self.config.m as int,
            ).map_values(|c: Candidate| c.index));
            proof {
            if all.len() > 0 {
                let c = selected@[0];
                assert(all.contains(c));
                let w = choose|w: int| 0 <= w < all.len() && all[w] == c;
                assert(c == Self::edge_candidate(old(self), index, kept@[0]));
                assert forall|j: int| 0 <= j < list@.len() implies cand_le(
                    Self::edge_candidate(old(self), index, kept@[0]),
                    Self::edge_candidate(old(self), index, #[trigger] list@[j]),
                ) by {
                    assert(all[j] == Self::edge_candidate(old(self), index, list@[j]));
                }
            }
            }
            kept
        };
        assert forall|j: int| 0 <= j < kept@.len() implies #[trigger] kept@[j] < nodes.len() by {
            let l = level_list(nodes[index as int], level as int);
            assert(l.contains(kept@[j]));
            let w = choose|w: int| 0 <= w < l.len() && l[w] == kept@[j];
            assert(nodes[index as int].neighbors[level as int][w] == kept@[j]);
        }
        let ghost before = *self;
        self.graph.set_neighbors(index, level, kept);
        assert(same_payload(before.graph.nodes(), self.graph.nodes()));
        proof {
            reveal(pruned);
        }
    }
}

/// A list of candidates for distinct nodes, all drawn from `pool`, is no
/// longer than `pool`.
proof fn lemma_distinct_within(list: Seq<Candidate>, pool: Seq<Candidate>)
    requires
        distinct_indices(list),
        forall|i: int| 0 <= i < list.len() ==> pool.contains(#[trigger] list[i]),
    ensures
        list.len() <= pool.len(),
{
    broadcast use vstd::seq_lib::seq_to_set_is_finite;

    assert(list.no_duplicates());
    list.unique_seq_to_set();
    pool.lemma_cardinality_of_set();
    assert(list.to_set().subset_of(pool.to_set()));
    vstd::set_lib::lemma_len_subset(list.to_set(), pool.to_set());
}

/// When every node of `list` is held by `cover`, and `list` names each
/// node once, `list` is no longer than `cover`.
proof fn lemma_indices_covered(list: Seq<Candidate>, cover: Seq<Candidate>)
    requires
        distinct_indices(list),
        forall|p: int| 0 <= p < list.len() ==> #[trigger] holds(cover, list[p].index),
    ensures
        list.len() <= cover.len(),
{
    broadcast use vstd::seq_lib::seq_to_set_is_finite;

    let names = list.map_values(|c: Candidate| c.index);
    let covered = cover.map_values(|c: Candidate| c.index);
    assert(names.no_duplicates()) by {
        assert forall|a: int, b: int| 0 <= a < names.len() && 0 <= b < names.len() && a != b implies names[a]
            != names[b] by {
            if a < b {
                assert(list[a].index != list[b].index);
            } else {
                assert(list[b].index != list[a].index);
            }
        }
    }
    names.unique_seq_to_set();
    covered.lemma_cardinality_of_set();
    assert forall|v: usize| names.to_set().contains(v) implies covered.to_set().contains(v) by {
        let p = choose|p: int| 0 <= p < names.len() && names[p] == v;
        assert(holds(cover, list[p].index));
        let k = choose|k: int| 0 <= k < cover.len() && cover[k].index == list[p].index;
        assert(covered[k] == v);
    }
    vstd::set_lib::lemma_len_subset(names.to_set(), covered.to_set());
}

/// Whether `list` holds a candidate for node `index`.
fn holds_index(list: &Vec<Candidate>, index: usize) -> (found: bool)
    ensures
        found == holds(list@, index),
{
    let mut i: usize = 0;
    while i < list.len()
        invariant
            i <= list@.len(),
            forall|j: int| 0 <= j < i ==> (#[trigger] list@[j]).index != index,
        decreases list@.len() - i,
    {
        if list[i].index == index {
            return true;
        }
        i = i + 1;
    }
    false
}

/// Refuses a configuration with a zero count.
fn validate_config(config: &HnswConfig) -> (r: Result<()>)
    ensures
        r == config_check(*config),
{
    if config.m == 0 {
        return Err(VecHnswError::InvalidConfig("m must be greater than 0"));
    }
    if config.ef_construction == 0 {
        return Err(VecHnswError::InvalidConfig("ef_construction must be greater than 0"));
    }
    if config.ef_search == 0 {
        return Err(VecHnswError::InvalidConfig("ef_search must be greater than 0"));
    }
    if config.max_level == 0 {
        return Err(VecHnswError::InvalidConfig("max_level must be greater than 0"));
    }
    Ok(())
}

} // verus!
