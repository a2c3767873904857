# vec_hnsw

An in-memory HNSW (Hierarchical Navigable Small World) index for approximate
nearest-neighbour search, verified with Verus.

Vectors are stored under stable `u64` ids and can be inserted, searched for
the `k` nearest, deleted (logically) and updated (delete, then re-insert).
The graph parameters `m`, `ef_construction`, `ef_search` and `max_level` are
configurable, node levels are drawn by a generator seeded with `level_seed`,
and a query may override `ef_search`.

## Layout

- `src/` — the verified library.
  - `hnsw/index.rs` — `HnswIndex`, `HnswConfig` and the contracts of every
    operation, stated over the live vectors (`Map<u64, Seq<T>>`), the
    dimension fixed by the first insertion, and the stored nodes with their
    levels and out-edges. Its invariant keeps every edge on a level pointing
    at a node that has that level and the entry point on the top level.
    While an index holds at most `m + 1` nodes its bottom level stays
    complete, and a search whose width covers the nodes is then exact.
  - `hnsw/graph.rs`, `hnsw/node.rs` — nodes, adjacency lists and the id index,
    with the invariant that every edge points at a node, never at itself and
    never twice.
  - `hnsw/search.rs` — greedy descent, specified as a walk (`greedy_walk`,
    `descend`); best-first layer search, which keeps the `ef` nearest of the
    nodes it visits with each kept node expanded (`layer_kept`) and is
    exhaustive over the reachable nodes once its width covers them; and the
    candidate order, under which sorting is unique.
  - Neighbour selection (`selection` in `hnsw/index.rs`) is specified
    exactly: a diverse pass over the sorted candidates, then a fill pass.
    Insertion links the new node, on each level, to the selection out of a
    layer search of width `max(ef_construction, m)`; a search answers the
    live nodes kept by a bottom-level search from the end of the descent.
    Both are stated as functions of the index's state (`spec_inserted`,
    `spec_search_hits`), so indexes with equal histories answer alike, and
    at one width a search for fewer results answers a prefix of one for
    more.
  - `hnsw/level.rs` — the seeded level generator, specified bit for bit.
  - `hnsw/laws.rs` — properties that relate several operations.
  - `metric.rs`, `query/`, `error.rs`, `vector.rs` — the metric trait and
    metric types, query options and hits, errors with their messages.
- `tests/` — tests of the library through its public API.
- `app/` — single-precision vectors: the `F32` element type, the squared
  Euclidean, cosine and dot-product metrics on it, the encoding of distances
  as ordered keys, and error and hit types with `Display` and `f32` distances.

## Distances as keys

The index is generic over the element type `T` of its vectors and over a
metric `M: DistanceMetric<T>`. A metric reports each distance as a `u64` key
whose order is the order of the distances, so every decision of the index
is an integer comparison; its `spec_distance` names that key, and every
hit carries the key of its vector. For `f32` distances, `app` maps a distance to its
position in the total order of `f32`, with `-0.0` read as `0.0`. One key
order stands for every comparison, so distances that IEEE `<` and
`total_cmp` order differently (a `NaN`, or a tie between `0.0` and `-0.0`)
are ordered alike everywhere: by key.
