use vstd::prelude::*;
use std::collections::HashMap;
use crate::filter::Filter;
use crate::point::{Point, admitted, apply_measure, filter_admits, is_measure, is_tombstoned, law_filter_admits_named_tenant, measure, names_tenant, passes_filter, slot, tombstoned};
use crate::score::FAR_KEY;
use crate::metric::{DistanceMetric, higher_is_closer_spec};
use crate::payload::{clone_payload, same_payload};
use crate::ranking::{Ranked, SearchResult, distinct_ids, is_ranked, lemma_sorted_distinct, lemma_sorted_members, lemma_stable_sorted, precedes, stable_sort, stable_sorted};

verus! {

broadcast use vstd::std_specs::hash::group_hash_axioms;

/// Number of layers of the graph: levels run from 0 to 15.
pub const MAX_LEVELS: usize = 16;

/// A vertex of the graph: a point and its neighbour lists, one per level.
pub struct HNSWNode {
    /// The point this vertex stands for.
    pub point_id: u64,
    /// `neighbors[l]` lists the vertices linked from this one on level `l`.
    pub neighbors: [Vec<u64>; 16],
}

impl HNSWNode {
    /// A vertex for `point_id` with no links on any level.
    pub fn new(point_id: u64) -> (r: Self)
        ensures
            r.point_id == point_id,
            forall|l: int| 0 <= l < 16 ==> (#[trigger] r.neighbors@[l])@.len() == 0,
    {
        HNSWNode {
            point_id,
            neighbors: [
                Vec::new(), Vec::new(), Vec::new(), Vec::new(),
                Vec::new(), Vec::new(), Vec::new(), Vec::new(),
                Vec::new(), Vec::new(), Vec::new(), Vec::new(),
                Vec::new(), Vec::new(), Vec::new(), Vec::new(),
            ],
        }
    }
}

/// The vertices of a graph, by point identifier, in a hash map with the
/// rustc-hash hasher.
#[verifier::external_body]
pub struct NodeMap {
    inner: rustc_hash::FxHashMap<u64, HNSWNode>,
}

/// A graph without vertices.
pub open spec fn no_nodes() -> Map<u64, HNSWNode> {
    Map::empty()
}

/// The vertices that a `NodeMap` holds.
pub uninterp spec fn node_map(m: NodeMap) -> Map<u64, HNSWNode>;

impl View for NodeMap {
    type V = Map<u64, HNSWNode>;

    open spec fn view(&self) -> Map<u64, HNSWNode> {
        node_map(*self)
    }
}

impl NodeMap {
    /// Calls `FxHashMap::default`. Claimed: the map is empty.
    #[verifier::external_body]
    pub(crate) fn new() -> (r: NodeMap)
        ensures
            node_map(r) == no_nodes(),
    {
        NodeMap { inner: rustc_hash::FxHashMap::default() }
    }

    /// Calls `HashMap::get`. Claimed: the vertex filed under `id`, if any.
    #[verifier::external_body]
    pub(crate) fn get(&self, id: &u64) -> (r: Option<&HNSWNode>)
        ensures
            match r {
                Some(v) => node_map(*self).contains_key(*id) && *v == node_map(*self)[*id],
                None => !node_map(*self).contains_key(*id),
            },
    {
        self.inner.get(id)
    }

    /// Calls `HashMap::insert`. Claimed: `node` is filed under `id`, and what
    /// was filed there before is returned.
    #[verifier::external_body]
    pub(crate) fn insert(&mut self, id: u64, node: HNSWNode) -> (r: Option<HNSWNode>)
        ensures
            node_map(*final(self)) == node_map(*old(self)).insert(id, node),
            match r {
                Some(v) => node_map(*old(self)).contains_key(id) && v == node_map(*old(self))[id],
                None => !node_map(*old(self)).contains_key(id),
            },
    {
        self.inner.insert(id, node)
    }

    /// Calls `HashMap::remove`. Claimed: the vertex filed under `id`, if any,
    /// is taken out and returned.
    #[verifier::external_body]
    pub(crate) fn remove(&mut self, id: &u64) -> (r: Option<HNSWNode>)
        ensures
            node_map(*final(self)) == node_map(*old(self)).remove(*id),
            match r {
                Some(v) => node_map(*old(self)).contains_key(*id) && v == node_map(*old(self))[*id],
                None => !node_map(*old(self)).contains_key(*id),
            },
    {
        self.inner.remove(id)
    }

    /// Calls `HashMap::keys`, copying each key out. Claimed: every vertex
    /// identifier once, in the map's order.
    #[verifier::external_body]
    pub(crate) fn keys(&self) -> (r: Vec<u64>)
        ensures
            r@.to_set() == node_map(*self).dom(),
            r@.no_duplicates(),
    {
        self.inner.keys().copied().collect()
    }
}

/// The vertex filed under `id` in `nodes`, if any.
pub fn node_of(nodes: &NodeMap, id: u64) -> (r: Option<&HNSWNode>)
    ensures
        match r {
            Some(v) => nodes@.contains_key(id) && *v == nodes@[id],
            None => !nodes@.contains_key(id),
        },
{
    nodes.get(&id)
}

/// Files `node` under `id` in `nodes`, returning what was filed there.
pub fn file_node(nodes: &mut NodeMap, id: u64, node: HNSWNode) -> (r: Option<HNSWNode>)
    ensures
        final(nodes)@ == old(nodes)@.insert(id, node),
        match r {
            Some(v) => old(nodes)@.contains_key(id) && v == old(nodes)@[id],
            None => !old(nodes)@.contains_key(id),
        },
{
    nodes.insert(id, node)
}

/// The vertex identifiers of `nodes`, each once.
pub fn node_ids(nodes: &NodeMap) -> (r: Vec<u64>)
    ensures
        r@.to_set() == nodes@.dom(),
        r@.no_duplicates(),
{
    nodes.keys()
}

/// The neighbours of vertex `id` on `level` (none where the vertex or the
/// level does not exist).
pub open spec fn neighbors_at(nodes: Map<u64, HNSWNode>, id: u64, level: int) -> Seq<u64> {
    if nodes.contains_key(id) && 0 <= level < 16 {
        nodes[id].neighbors@[level]@
    } else {
        Seq::empty()
    }
}

/// The distance `dist` gives to point `id`, or the far key where no such
/// point is stored.
pub open spec fn point_distance<V, F: Fn(&V) -> u32>(
    dist: F,
    points: Map<u64, Point<V>>,
    id: u64,
) -> u32 {
    if points.contains_key(id) {
        measure::<V, u32, F>(dist, &points[id].vector)
    } else {
        FAR_KEY
    }
}

/// One step of a neighbour scan: an admitted neighbour strictly closer than
/// the current best becomes the best.
pub open spec fn scan_step<V, F: Fn(&V) -> u32>(
    dist: F,
    points: Map<u64, Point<V>>,
    filter: Option<&Filter>,
    deleted: Seq<bool>,
    best: (u64, u32),
    n: u64,
) -> (u64, u32) {
    if admitted(points, filter, deleted, n) && measure::<V, u32, F>(dist, &points[n].vector) < best.1 {
        (n, measure::<V, u32, F>(dist, &points[n].vector))
    } else {
        best
    }
}

/// The best `(vertex, distance)` after scanning the first `k` of `nbrs`
/// from `start`.
pub open spec fn scan<V, F: Fn(&V) -> u32>(
    dist: F,
    points: Map<u64, Point<V>>,
    filter: Option<&Filter>,
    deleted: Seq<bool>,
    nbrs: Seq<u64>,
    k: int,
    start: (u64, u32),
) -> (u64, u32)
    decreases k,
{
    if k <= 0 {
        start
    } else {
        scan_step(dist, points, filter, deleted, scan(dist, points, filter, deleted, nbrs, k - 1, start), nbrs[k - 1])
    }
}

/// Where the greedy walk on `level` ends from `best` at distance
/// `best_dist`: scan the neighbours of the current vertex in list order,
/// and repeat from the result while it got strictly closer.
pub open spec fn greedy<V, F: Fn(&V) -> u32>(
    nodes: Map<u64, HNSWNode>,
    level: int,
    dist: F,
    points: Map<u64, Point<V>>,
    filter: Option<&Filter>,
    deleted: Seq<bool>,
    best: u64,
    best_dist: u32,
) -> u64
    decreases best_dist,
{
    let nbrs = neighbors_at(nodes, best, level);
    let next = scan(dist, points, filter, deleted, nbrs, nbrs.len() as int, (best, best_dist));
    if next.1 < best_dist {
        greedy(nodes, level, dist, points, filter, deleted, next.0, next.1)
    } else {
        best
    }
}

/// The result of `search_layer` from `start` on `level`.
pub open spec fn layer_result<V, F: Fn(&V) -> u32>(
    nodes: Map<u64, HNSWNode>,
    level: int,
    dist: F,
    points: Map<u64, Point<V>>,
    filter: Option<&Filter>,
    deleted: Seq<bool>,
    start: u64,
) -> u64 {
    greedy(nodes, level, dist, points, filter, deleted, start, point_distance::<V, F>(dist, points, start))
}

/// A hierarchical navigable small-world graph over point identifiers.
pub struct HNSWIndex {
    /// The most links a vertex receives back from later insertions per level.
    pub m: usize,
    /// Candidate list size meant for construction.
    pub ef_construction: usize,
    /// The most hits a search keeps while it walks level 0.
    pub ef_search: usize,
    /// The vertex every search starts from; none while the graph is empty.
    pub enter_node: Option<u64>,
    /// The highest level any vertex reaches.
    pub max_current_level: usize,
    /// The vertices, by point identifier.
    pub nodes: NodeMap,
}

impl HNSWIndex {
    /// An empty graph with the given connection bound and list sizes.
    pub fn new(m: usize, ef_construction: usize, ef_search: usize) -> (r: Self)
        ensures
            r.m == m,
            r.ef_construction == ef_construction,
            r.ef_search == ef_search,
            r.enter_node is None,
            r.max_current_level == 0,
            r.nodes@ == Map::<u64, HNSWNode>::empty(),
    {
        HNSWIndex {
            m,
            ef_construction,
            ef_search,
            enter_node: None,
            max_current_level: 0,
            nodes: NodeMap::new(),
        }
    }

    /// Greedy walk on one level: starting from `curr_obj`, moves to any
    /// admitted neighbour that is strictly closer (by `dist`) until no
    /// neighbour of the current vertex is, and returns that vertex.
    ///
    /// The result is the start or an admitted point, is no farther than the
    /// start, and no admitted neighbour of it on `level` is strictly closer.
    pub fn search_layer<V, F: Fn(&V) -> u32>(
        &self,
        dist: &F,
        curr_obj: u64,
        level: usize,
        points: &HashMap<u64, Point<V>>,
        filter: Option<&Filter>,
        deleted_bits: &Vec<bool>,
    ) -> (r: u64)
        requires
            is_measure::<V, u32, F>(*dist),
        ensures
            r == layer_result::<V, F>(self.nodes@, level as int, *dist, points@, filter, deleted_bits@, curr_obj),
            r == curr_obj || admitted(points@, filter, deleted_bits@, r),
            point_distance::<V, F>(*dist, points@, r) <= point_distance::<V, F>(*dist, points@, curr_obj),
            forall|j: int|
                0 <= j < neighbors_at(self.nodes@, r, level as int).len() && admitted(
                    points@,
                    filter,
                    deleted_bits@,
                    #[trigger] neighbors_at(self.nodes@, r, level as int)[j],
                ) ==> point_distance::<V, F>(*dist, points@, neighbors_at(self.nodes@, r, level as int)[j])
                    >= point_distance::<V, F>(*dist, points@, r),
    {
        let ghost pts = points@;
        let ghost start_dist = point_distance::<V, F>(*dist, pts, curr_obj);
        let mut best_node = curr_obj;
        let mut best_dist = match points.get(&best_node) {
            Some(p) => apply_measure(dist, &p.vector),
            None => FAR_KEY,
        };
        let mut changed = true;
        while changed
            invariant
                is_measure::<V, u32, F>(*dist),
                points@ == pts,
                best_dist == point_distance::<V, F>(*dist, pts, best_node),
                best_dist <= start_dist,
                start_dist == point_distance::<V, F>(*dist, pts, curr_obj),
                best_node == curr_obj || admitted(pts, filter, deleted_bits@, best_node),
                changed ==> layer_result::<V, F>(self.nodes@, level as int, *dist, pts, filter, deleted_bits@, curr_obj)
                    == greedy::<V, F>(self.nodes@, level as int, *dist, pts, filter, deleted_bits@, best_node, best_dist),
                !changed ==> layer_result::<V, F>(self.nodes@, level as int, *dist, pts, filter, deleted_bits@, curr_obj)
                    == best_node,
                !changed ==> forall|j: int|
                    0 <= j < neighbors_at(self.nodes@, best_node, level as int).len() && admitted(
                        pts,
                        filter,
                        deleted_bits@,
                        #[trigger] neighbors_at(self.nodes@, best_node, level as int)[j],
                    ) ==> point_distance::<V, F>(*dist, pts, neighbors_at(self.nodes@, best_node, level as int)[j])
                        >= best_dist,
            decreases (if changed { best_dist + 1 } else { 0 }),
        {
            changed = false;
            let ghost scanned = best_node;
            let ghost scanned_dist = best_dist;
            match self.nodes.get(&best_node) {
                Some(node) => {
                    if level < MAX_LEVELS {
                        let neighbors = &node.neighbors[level];
                        assert(neighbors@ == neighbors_at(self.nodes@, scanned, level as int));
                        let mut i: usize = 0;
                        while i < neighbors.len()
                            invariant
                                is_measure::<V, u32, F>(*dist),
                                points@ == pts,
                                neighbors@ == neighbors_at(self.nodes@, scanned, level as int),
                                i <= neighbors@.len(),
                                best_dist == point_distance::<V, F>(*dist, pts, best_node),
                                best_dist <= scanned_dist,
                                scanned_dist <= start_dist,
                                best_node == curr_obj || admitted(pts, filter, deleted_bits@, best_node),
                                !changed ==> best_node == scanned && best_dist == scanned_dist,
                                changed ==> best_dist < scanned_dist,
                                (best_node, best_dist) == scan::<V, F>(*dist, pts, filter, deleted_bits@, neighbors@, i as int, (scanned, scanned_dist)),
                                forall|j: int|
                                    0 <= j < i && admitted(pts, filter, deleted_bits@, #[trigger] neighbors@[j])
                                        ==> point_distance::<V, F>(*dist, pts, neighbors@[j]) >= best_dist,
                            decreases neighbors@.len() - i,
                        {
                            let neighbor_id = neighbors[i];
                            if !is_tombstoned(deleted_bits, neighbor_id) {
                                match points.get(&neighbor_id) {
                                    Some(neighbor_point) => {
                                        if passes_filter(filter, &neighbor_point.payload) {
                                            let d = apply_measure(dist, &neighbor_point.vector);
                                            if d < best_dist {
                                                best_dist = d;
                                                best_node = neighbor_id;
                                                changed = true;
                                            }
                                        }
                                    },
                                    None => {},
                                }
                            }
                            i = i + 1;
                        }
                    }
                },
                None => {},
            }
        }
        best_node
    }
}

/// The neighbour list of an existing vertex `v` on level `l` after the
/// vertex `id` was linked, on the levels from `low` to `top`, to `link` (its
/// single neighbour on `l`): `id` is appended where `v` is that neighbour and
/// its list is shorter than `m`.
pub open spec fn backlinked(
    before: Seq<u64>,
    v: u64,
    l: int,
    low: int,
    top: int,
    link: u64,
    id: u64,
    m: usize,
) -> Seq<u64> {
    if low <= l <= top && v == link && before.len() < m {
        before.push(id)
    } else {
        before
    }
}

/// Where greedy walks on levels `from` down to `to` lead from `start`, each
/// level starting where the one above ended.
pub open spec fn descend<V, F: Fn(&V) -> u32>(
    nodes: Map<u64, HNSWNode>,
    dist: F,
    points: Map<u64, Point<V>>,
    filter: Option<&Filter>,
    deleted: Seq<bool>,
    from: int,
    to: int,
    start: u64,
) -> u64
    decreases from - to + 1,
{
    if from < to {
        start
    } else {
        descend(
            nodes,
            dist,
            points,
            filter,
            deleted,
            from - 1,
            to,
            layer_result(nodes, from, dist, points, filter, deleted, start),
        )
    }
}

proof fn lemma_descend_peel<V, F: Fn(&V) -> u32>(
    nodes: Map<u64, HNSWNode>,
    dist: F,
    points: Map<u64, Point<V>>,
    filter: Option<&Filter>,
    deleted: Seq<bool>,
    from: int,
    to: int,
    start: u64,
)
    requires
        to - 1 <= from,
    ensures
        descend(nodes, dist, points, filter, deleted, from, to - 1, start) == layer_result(
            nodes,
            to - 1,
            dist,
            points,
            filter,
            deleted,
            descend(nodes, dist, points, filter, deleted, from, to, start),
        ),
    decreases from - to + 1,
{
    let next = layer_result(nodes, from, dist, points, filter, deleted, start);
    assert(descend(nodes, dist, points, filter, deleted, from, to - 1, start) == descend(nodes, dist, points, filter, deleted, from - 1, to - 1, next));
    if from >= to {
        assert(descend(nodes, dist, points, filter, deleted, from, to, start) == descend(nodes, dist, points, filter, deleted, from - 1, to, next));
        lemma_descend_peel(nodes, dist, points, filter, deleted, from - 1, to, next);
    } else {
        assert(descend(nodes, dist, points, filter, deleted, from - 1, to - 1, next) == next);
        assert(descend(nodes, dist, points, filter, deleted, from, to, start) == start);
    }
}

proof fn lemma_greedy_same_level<V, F: Fn(&V) -> u32>(
    n1: Map<u64, HNSWNode>,
    n2: Map<u64, HNSWNode>,
    level: int,
    dist: F,
    points: Map<u64, Point<V>>,
    filter: Option<&Filter>,
    deleted: Seq<bool>,
    best: u64,
    best_dist: u32,
)
    requires
        forall|v: u64| #[trigger] neighbors_at(n1, v, level) == neighbors_at(n2, v, level),
    ensures
        greedy(n1, level, dist, points, filter, deleted, best, best_dist) == greedy(
            n2,
            level,
            dist,
            points,
            filter,
            deleted,
            best,
            best_dist,
        ),
    decreases best_dist,
{
    let nbrs = neighbors_at(n1, best, level);
    assert(nbrs == neighbors_at(n2, best, level));
    let next = scan(dist, points, filter, deleted, nbrs, nbrs.len() as int, (best, best_dist));
    if next.1 < best_dist {
        lemma_greedy_same_level(n1, n2, level, dist, points, filter, deleted, next.0, next.1);
    }
}

/// What linking the vertex of `point_id` at `insert_level` does to the
/// graph (see `HNSWIndex::insert`).
pub open spec fn insert_result<V, F: Fn(&V) -> u32>(
    before: HNSWIndex,
    after: HNSWIndex,
    point_id: u64,
    insert_level: usize,
    dist: F,
    points: Map<u64, Point<V>>,
) -> bool {
    &&& after.m == before.m
    &&& after.ef_construction == before.ef_construction
    &&& after.ef_search == before.ef_search
    &&& after.nodes@.dom() == before.nodes@.dom().insert(point_id)
    &&& after.nodes@[point_id].point_id == point_id
    &&& before.enter_node is None ==> {
                &&& after.enter_node == Some(point_id)
                &&& after.max_current_level == insert_level
                &&& forall|l: int| 0 <= l < 16 ==> (#[trigger] after.nodes@[point_id].neighbors@[l])@.len() == 0
                &&& forall|v: u64| v != point_id && #[trigger] before.nodes@.contains_key(v) ==>
                    after.nodes@[v] == before.nodes@[v]
            }
    &&& before.enter_node is Some ==> {
                let top = if insert_level <= before.max_current_level {
                    insert_level as int
                } else {
                    before.max_current_level as int
                };
                let fresh = after.nodes@[point_id];
                &&& after.max_current_level == (if insert_level > before.max_current_level {
                    insert_level
                } else {
                    before.max_current_level
                })
                &&& after.enter_node == (if insert_level > before.max_current_level {
                    Some(point_id)
                } else {
                    before.enter_node
                })
                &&& forall|l: int| 0 <= l < 16 ==> (#[trigger] fresh.neighbors@[l])@.len() == (if l <= top {
                    1int
                } else {
                    0int
                })
                &&& forall|l: int| 0 <= l <= top ==> {
                    let c = (#[trigger] fresh.neighbors@[l])@[0];
                    &&& c == before.enter_node->0 || points.contains_key(c)
                    &&& c == descend(before.nodes@, dist, points, None, Seq::empty(), before.max_current_level as int, l, before.enter_node->0)
                }
                &&& forall|v: u64| v != point_id && #[trigger] before.nodes@.contains_key(v) ==> {
                    &&& after.nodes@[v].point_id == before.nodes@[v].point_id
                    &&& forall|l: int| 0 <= l < 16 ==> (#[trigger] after.nodes@[v].neighbors@[l])@
                        == backlinked(
                        before.nodes@[v].neighbors@[l]@,
                        v,
                        l,
                        0,
                        top,
                        if l <= top { fresh.neighbors@[l]@[0] } else { 0 },
                        point_id,
                        before.m,
                    )
                }
            }
}

impl HNSWIndex {
    /// Links the vertex of `point_id` into the graph at levels
    /// `0..=insert_level`, the caller having drawn `insert_level`; `dist`
    /// measures the distance of an embedding to that of the new point.
    ///
    /// Into an empty graph the vertex goes alone and becomes the entry.
    /// Otherwise a greedy descent from the entry finds, on each level `l` up
    /// to `top = min(insert_level, max_current_level)`, one vertex `c_l`; the
    /// new vertex gets `[c_l]` as its list on level `l` (and empty lists
    /// above `top`), and `c_l` gets the new vertex appended to its own list
    /// on `l` if that list is shorter than `m`. A vertex that reaches a new
    /// highest level becomes the entry. A vertex already stored under
    /// `point_id` is replaced.
    pub fn insert<V, F: Fn(&V) -> u32>(
        &mut self,
        point_id: u64,
        insert_level: usize,
        dist: &F,
        points: &HashMap<u64, Point<V>>,
    )
        requires
            insert_level < MAX_LEVELS,
            is_measure::<V, u32, F>(*dist),
        ensures
            insert_result(*old(self), *final(self), point_id, insert_level, *dist, points@),
    {
        let mut new_node = HNSWNode::new(point_id);
        let curr_enter_node = match self.enter_node {
            Some(node) => node,
            None => {
                self.enter_node = Some(point_id);
                self.max_current_level = insert_level;
                self.nodes.insert(point_id, new_node);
                return;
            },
        };
        let ghost old_nodes = self.nodes@;
        let no_tombstones: Vec<bool> = Vec::new();
        let mut curr_obj = curr_enter_node;
        let top: usize = if insert_level <= self.max_current_level {
            insert_level
        } else {
            self.max_current_level
        };
        let mut level = self.max_current_level;
        while level > insert_level
            invariant
                level >= top,
                top == (if insert_level <= old(self).max_current_level {
                    insert_level
                } else {
                    old(self).max_current_level
                }),
                is_measure::<V, u32, F>(*dist),
                curr_obj == curr_enter_node || points@.contains_key(curr_obj),
                no_tombstones@ == Seq::<bool>::empty(),
                self.nodes@ == old_nodes,
                level <= old(self).max_current_level,
                self.max_current_level == old(self).max_current_level,
                Some(curr_enter_node) == old(self).enter_node,
                curr_obj == descend(old_nodes, *dist, points@, None, Seq::empty(), old(self).max_current_level as int, level + 1, curr_enter_node),
            decreases level,
        {
            proof {
                lemma_descend_peel(old_nodes, *dist, points@, None, Seq::empty(), old(self).max_current_level as int, level + 1, curr_enter_node);
            }
            curr_obj = self.search_layer(dist, curr_obj, level, points, None, &no_tombstones);
            level = level - 1;
        }
        let mut remaining: usize = top + 1;
        while remaining > 0
            invariant
                is_measure::<V, u32, F>(*dist),
                top < 16,
                remaining <= top + 1,
                curr_obj == curr_enter_node || points@.contains_key(curr_obj),
                self.m == old(self).m,
                self.ef_construction == old(self).ef_construction,
                self.ef_search == old(self).ef_search,
                self.enter_node == old(self).enter_node,
                self.max_current_level == old(self).max_current_level,
                self.nodes@.dom() == old_nodes.dom(),
                new_node.point_id == point_id,
                forall|l: int| 0 <= l < 16 ==> (#[trigger] new_node.neighbors@[l])@.len() == (if remaining
                    <= l <= top {
                    1int
                } else {
                    0int
                }),
                forall|l: int| remaining <= l <= top ==> {
                    let c = (#[trigger] new_node.neighbors@[l])@[0];
                    &&& c == curr_enter_node || points@.contains_key(c)
                    &&& c == descend(old_nodes, *dist, points@, None, Seq::empty(), old(self).max_current_level as int, l, curr_enter_node)
                },
                no_tombstones@ == Seq::<bool>::empty(),
                Some(curr_enter_node) == old(self).enter_node,
                top <= old(self).max_current_level,
                curr_obj == descend(old_nodes, *dist, points@, None, Seq::empty(), old(self).max_current_level as int, remaining as int, curr_enter_node),
                forall|v: u64, l: int|
                    #![trigger self.nodes@[v].neighbors@[l]]
                    old_nodes.contains_key(v) && 0 <= l < remaining ==> self.nodes@[v].neighbors@[l] == old_nodes[v].neighbors@[l],
                forall|v: u64| v != point_id && #[trigger] old_nodes.contains_key(v) ==> {
                    &&& self.nodes@[v].point_id == old_nodes[v].point_id
                    &&& forall|l: int| 0 <= l < 16 ==> (#[trigger] self.nodes@[v].neighbors@[l])@
                        == backlinked(
                        old_nodes[v].neighbors@[l]@,
                        v,
                        l,
                        remaining as int,
                        top as int,
                        if remaining <= l <= top { new_node.neighbors@[l]@[0] } else { 0 },
                        point_id,
                        old(self).m,
                    )
                },
            decreases remaining,
        {
            remaining = remaining - 1;
            let level = remaining;
            proof {
                lemma_descend_peel(old_nodes, *dist, points@, None, Seq::empty(), old(self).max_current_level as int, level + 1, curr_enter_node);
                assert forall|v: u64| #[trigger] neighbors_at(self.nodes@, v, level as int) == neighbors_at(old_nodes, v, level as int) by {
                    if old_nodes.contains_key(v) {
                        assert(self.nodes@[v].neighbors@[level as int] == old_nodes[v].neighbors@[level as int]);
                    }
                }
                lemma_greedy_same_level(
                    self.nodes@,
                    old_nodes,
                    level as int,
                    *dist,
                    points@,
                    None,
                    Seq::empty(),
                    curr_obj,
                    point_distance::<V, F>(*dist, points@, curr_obj),
                );
            }
            curr_obj = self.search_layer(dist, curr_obj, level, points, None, &no_tombstones);
            let ghost before_nodes = self.nodes@;
            match self.nodes.remove(&curr_obj) {
                Some(mut neighbor_node) => {
                    if neighbor_node.neighbors[level].len() < self.m {
                        neighbor_node.neighbors[level].push(point_id);
                    }
                    self.nodes.insert(curr_obj, neighbor_node);
                },
                None => {},
            }
            new_node.neighbors[level].push(curr_obj);
            proof {
                assert forall|v: u64| v != point_id && #[trigger] old_nodes.contains_key(v) implies {
                    &&& self.nodes@[v].point_id == old_nodes[v].point_id
                    &&& forall|l: int| 0 <= l < 16 ==> (#[trigger] self.nodes@[v].neighbors@[l])@
                        == backlinked(
                        old_nodes[v].neighbors@[l]@,
                        v,
                        l,
                        remaining as int,
                        top as int,
                        if remaining <= l <= top { new_node.neighbors@[l]@[0] } else { 0 },
                        point_id,
                        old(self).m,
                    )
                } by {
                    assert(before_nodes.contains_key(v));
                }
            }
        }
        if insert_level > self.max_current_level {
            self.max_current_level = insert_level;
            self.enter_node = Some(point_id);
        }
        self.nodes.insert(point_id, new_node);
    }
}

/// Inserting keeps the graph entered through one of its vertices, below
/// the top level: after any insert the graph has an entry, the entry and
/// the new vertex are vertices, and the highest level stays under 16.
pub proof fn law_insert_keeps_entry<V, F: Fn(&V) -> u32>(
    before: HNSWIndex,
    after: HNSWIndex,
    point_id: u64,
    insert_level: usize,
    dist: F,
    points: Map<u64, Point<V>>,
)
    requires
        insert_result(before, after, point_id, insert_level, dist, points),
        insert_level < MAX_LEVELS,
        before.max_current_level < MAX_LEVELS,
        before.enter_node matches Some(e) ==> before.nodes@.contains_key(e),
    ensures
        after.enter_node is Some,
        after.nodes@.contains_key(after.enter_node->0),
        after.nodes@.contains_key(point_id),
        after.max_current_level < MAX_LEVELS,
{
    assert(after.nodes@.dom().contains(point_id));
    if let Some(e) = before.enter_node {
        assert(after.nodes@.dom().contains(e));
    }
}

/// Inserting into a non-empty graph links both ways on every level it
/// links: on each level `l` up to `min(insert_level, max_current_level)`,
/// the new vertex lists exactly one vertex `c`, and a stored `c` other than
/// the new vertex gets the new vertex appended to its level-`l` list when
/// that list was shorter than `m`, keeping it unchanged otherwise.
pub proof fn law_insert_links_back<V, F: Fn(&V) -> u32>(
    before: HNSWIndex,
    after: HNSWIndex,
    point_id: u64,
    insert_level: usize,
    dist: F,
    points: Map<u64, Point<V>>,
    l: int,
)
    requires
        insert_result(before, after, point_id, insert_level, dist, points),
        before.enter_node is Some,
        insert_level < MAX_LEVELS,
        0 <= l <= insert_level,
        l <= before.max_current_level,
    ensures
        after.nodes@[point_id].neighbors@[l]@.len() == 1,
        ({
            let c = after.nodes@[point_id].neighbors@[l]@[0];
            c != point_id && before.nodes@.contains_key(c) ==> {
                &&& after.nodes@.contains_key(c)
                &&& before.nodes@[c].neighbors@[l]@.len() < before.m ==> after.nodes@[c].neighbors@[l]@
                    == before.nodes@[c].neighbors@[l]@.push(point_id)
                &&& before.nodes@[c].neighbors@[l]@.len() >= before.m ==> after.nodes@[c].neighbors@[l]@
                    == before.nodes@[c].neighbors@[l]@
            }
        }),
{
    let fresh = after.nodes@[point_id];
    assert(fresh.neighbors@[l]@.len() == 1);
    let c = fresh.neighbors@[l]@[0];
    if c != point_id && before.nodes@.contains_key(c) {
        assert(after.nodes@.dom().contains(c));
        assert(after.nodes@[c].neighbors@[l]@ == backlinked(
            before.nodes@[c].neighbors@[l]@,
            c,
            l,
            0,
            if insert_level <= before.max_current_level { insert_level as int } else { before.max_current_level as int },
            if l <= (if insert_level <= before.max_current_level { insert_level as int } else { before.max_current_level as int }) {
                fresh.neighbors@[l]@[0]
            } else {
                0
            },
            point_id,
            before.m,
        ));
    }
}

/// Number of unset marks in `s`.
pub open spec fn unvisited(s: Seq<bool>) -> nat
    decreases s.len(),
{
    if s.len() == 0 {
        0
    } else {
        unvisited(s.drop_last()) + if s.last() {
            0nat
        } else {
            1nat
        }
    }
}

proof fn lemma_unvisited_mark(s: Seq<bool>, i: int)
    requires
        0 <= i < s.len(),
    ensures
        unvisited(s.update(i, true)) == unvisited(s) - (if s[i] {
            0int
        } else {
            1int
        }),
        unvisited(s) <= s.len(),
    decreases s.len(),
{
    if i < s.len() - 1 {
        lemma_unvisited_mark(s.drop_last(), i);
        assert(s.update(i, true).drop_last() =~= s.drop_last().update(i, true));
    } else {
        assert(s.update(i, true).drop_last() =~= s.drop_last());
        lemma_unvisited_bound(s.drop_last());
    }
}

proof fn lemma_unvisited_bound(s: Seq<bool>)
    ensures
        unvisited(s) <= s.len(),
    decreases s.len(),
{
    if s.len() > 0 {
        lemma_unvisited_bound(s.drop_last());
    }
}

/// Is `hit` a report of an admitted point: its identifier, its score under
/// `score`, and a copy of its payload?
pub open spec fn is_hit_of<V, S: Fn(&V) -> u32>(
    score: S,
    points: Map<u64, Point<V>>,
    filter: Option<&Filter>,
    deleted: Seq<bool>,
    hit: SearchResult,
) -> bool {
    &&& admitted(points, filter, deleted, hit.0)
    &&& hit.1 == measure::<V, u32, S>(score, &points[hit.0].vector)
    &&& same_payload(hit.2, points[hit.0].payload)
}

/// Every stored point is filed under its own identifier.
pub open spec fn points_consistent<V>(points: Map<u64, Point<V>>) -> bool {
    forall|k: u64| #[trigger] points.contains_key(k) ==> points[k].id == k
}

/// The one-past-the-end slot of every vertex identifier still fits a `usize`.
pub open spec fn slots_addressable(nodes: Map<u64, HNSWNode>) -> bool {
    forall|k: u64| #[trigger] nodes.contains_key(k) ==> (k as usize) < usize::MAX
}

/// The largest key of a non-empty pool.
pub open spec fn max_key(pool: Seq<(u32, u64)>) -> u32
    decreases pool.len(),
{
    if pool.len() <= 1 {
        pool[0].0
    } else {
        let m = max_key(pool.drop_last());
        if pool.last().0 > m {
            pool.last().0
        } else {
            m
        }
    }
}

/// The largest key of a pool, or the far key for an empty pool.
pub open spec fn furthest(pool: Seq<(u32, u64)>) -> u32 {
    if pool.len() == 0 {
        FAR_KEY
    } else {
        max_key(pool)
    }
}

/// The threshold of a beam round is the farthest pooled distance: every
/// pooled key is at most `furthest(pool)`, a non-empty pool holds a key equal
/// to it, and an empty pool gives the far key.
pub proof fn law_furthest_is_largest(pool: Seq<(u32, u64)>)
    ensures
        forall|j: int| 0 <= j < pool.len() ==> (#[trigger] pool[j]).0 <= furthest(pool),
        pool.len() > 0 ==> exists|j: int| 0 <= j < pool.len() && (#[trigger] pool[j]).0 == furthest(pool),
        pool.len() == 0 ==> furthest(pool) == FAR_KEY,
    decreases pool.len(),
{
    if pool.len() > 1 {
        let d = pool.drop_last();
        law_furthest_is_largest(d);
        assert forall|j: int| 0 <= j < pool.len() implies (#[trigger] pool[j]).0 <= furthest(pool) by {
            if j < pool.len() - 1 {
                assert(pool[j] == d[j]);
            }
        }
        if pool.last().0 > max_key(d) {
            assert(pool[pool.len() - 1].0 == furthest(pool));
        } else {
            let j = choose|j: int| 0 <= j < d.len() && (#[trigger] d[j]).0 == furthest(d);
            assert(pool[j] == d[j]);
        }
    } else if pool.len() == 1 {
        assert(pool[0].0 == furthest(pool));
    }
}

/// A neighbour that a beam round meets, not tombstoned and not yet marked,
/// admitted by the filter and strictly closer than some pooled point, joins
/// the candidates (and the pool before it is trimmed back to `ef`).
pub proof fn law_beam_admits_closer<V, D: Fn(&V) -> u32>(
    route: D,
    points: Map<u64, Point<V>>,
    filter: Option<&Filter>,
    deleted: Seq<bool>,
    ef: usize,
    st: BeamState,
    nid: u64,
    j: int,
)
    requires
        admitted(points, filter, deleted, nid),
        slot(nid) < st.2.len(),
        !st.2[slot(nid)],
        0 <= j < st.1.len(),
        measure::<V, u32, D>(route, &points[nid].vector) < st.1[j].0,
    ensures
        ({
            let d = measure::<V, u32, D>(route, &points[nid].vector);
            let after = expand_one::<V, D>(route, points, filter, deleted, ef, furthest(st.1), st, nid);
            &&& after.0 == st.0.push((d, nid))
            &&& after.2 == st.2.update(slot(nid), true)
            &&& st.1.len() + 1 <= ef ==> after.1 == st.1.push((d, nid))
        }),
{
    law_furthest_is_largest(st.1);
    assert(st.1[j].0 <= furthest(st.1));
}

proof fn lemma_expand_keeps<V, D: Fn(&V) -> u32>(
    route: D,
    points: Map<u64, Point<V>>,
    filter: Option<&Filter>,
    deleted: Seq<bool>,
    ef: usize,
    far: u32,
    st: BeamState,
    nbrs: Seq<u64>,
    k: int,
    n: int,
    x: (u32, u64),
)
    requires
        0 <= k <= n,
        expand::<V, D>(route, points, filter, deleted, ef, far, st, nbrs, k).0.contains(x),
    ensures
        expand::<V, D>(route, points, filter, deleted, ef, far, st, nbrs, n).0.contains(x),
    decreases n - k,
{
    if n > k {
        lemma_expand_keeps(route, points, filter, deleted, ef, far, st, nbrs, k, n - 1, x);
        let prev = expand::<V, D>(route, points, filter, deleted, ef, far, st, nbrs, n - 1);
        let i = choose|i: int| 0 <= i < prev.0.len() && prev.0[i] == x;
        let next = expand::<V, D>(route, points, filter, deleted, ef, far, st, nbrs, n);
        assert(next.0[i] == x);
    }
}

proof fn lemma_expand_marks<V, D: Fn(&V) -> u32>(
    route: D,
    points: Map<u64, Point<V>>,
    filter: Option<&Filter>,
    deleted: Seq<bool>,
    ef: usize,
    far: u32,
    st: BeamState,
    nbrs: Seq<u64>,
    k: int,
    s: int,
)
    requires
        0 <= k <= nbrs.len(),
        forall|i: int| 0 <= i < k ==> slot(#[trigger] nbrs[i]) != s,
    ensures
        expand::<V, D>(route, points, filter, deleted, ef, far, st, nbrs, k).2.len() == st.2.len(),
        0 <= s < st.2.len() ==> expand::<V, D>(route, points, filter, deleted, ef, far, st, nbrs, k).2[s] == st.2[s],
    decreases k,
{
    if k > 0 {
        lemma_expand_marks(route, points, filter, deleted, ef, far, st, nbrs, k - 1, s);
        assert(slot(nbrs[k - 1]) != s);
    }
}

/// In a beam round, a neighbour of the expanded candidate that is admitted,
/// unmarked at the start of the round, not sharing its mark with an earlier
/// neighbour in the list, and strictly closer than some point pooled at the
/// start of the round becomes a candidate.
pub proof fn law_beam_round_admits_closer<V, D: Fn(&V) -> u32>(
    nodes: Map<u64, HNSWNode>,
    route: D,
    points: Map<u64, Point<V>>,
    filter: Option<&Filter>,
    deleted: Seq<bool>,
    ef: usize,
    st: BeamState,
    k: int,
    j: int,
)
    requires
        st.0.len() > 0,
        0 <= k < neighbors_at(nodes, stable_sorted(st.0, false)[0].1, 0).len(),
        ({
            let nbrs = neighbors_at(nodes, stable_sorted(st.0, false)[0].1, 0);
            &&& admitted(points, filter, deleted, nbrs[k])
            &&& slot(nbrs[k]) < st.2.len()
            &&& !st.2[slot(nbrs[k])]
            &&& forall|i: int| 0 <= i < k ==> slot(#[trigger] nbrs[i]) != slot(nbrs[k])
            &&& 0 <= j < st.1.len()
            &&& measure::<V, u32, D>(route, &points[nbrs[k]].vector) < st.1[j].0
        }),
    ensures
        ({
            let nbrs = neighbors_at(nodes, stable_sorted(st.0, false)[0].1, 0);
            beam_step::<V, D>(nodes, route, points, filter, deleted, ef, st).0.contains(
                (measure::<V, u32, D>(route, &points[nbrs[k]].vector), nbrs[k]),
            )
        }),
{
    let sorted = stable_sorted(st.0, false);
    let nbrs = neighbors_at(nodes, sorted[0].1, 0);
    let far = furthest(st.1);
    let start: BeamState = (sorted.remove(0), st.1, st.2);
    let nid = nbrs[k];
    let d = measure::<V, u32, D>(route, &points[nid].vector);
    law_furthest_is_largest(st.1);
    assert(st.1[j].0 <= far);
    lemma_expand_marks(route, points, filter, deleted, ef, far, start, nbrs, k, slot(nid));
    let before = expand::<V, D>(route, points, filter, deleted, ef, far, start, nbrs, k);
    let after = expand::<V, D>(route, points, filter, deleted, ef, far, start, nbrs, k + 1);
    assert(after == expand_one::<V, D>(route, points, filter, deleted, ef, far, before, nid));
    assert(after.0 == before.0.push((d, nid)));
    assert(after.0[before.0.len() as int] == (d, nid));
    lemma_expand_keeps(route, points, filter, deleted, ef, far, start, nbrs, k + 1, nbrs.len() as int, (d, nid));
}

/// The largest key in a candidate pool, or the far key for an empty pool.
fn furthest_distance(pool: &Vec<(u32, u64)>) -> (r: u32)
    ensures
        r == furthest(pool@),
        forall|j: int| 0 <= j < pool@.len() ==> (#[trigger] pool@[j]).0 <= r,
        pool@.len() > 0 ==> exists|j: int| 0 <= j < pool@.len() && (#[trigger] pool@[j]).0 == r,
        pool@.len() == 0 ==> r == FAR_KEY,
{
    proof {
        law_furthest_is_largest(pool@);
    }
    if pool.len() == 0 {
        return FAR_KEY;
    }
    let mut best = pool[0].0;
    let mut i: usize = 1;
    assert(pool@.take(1).len() == 1);
    while i < pool.len()
        invariant
            1 <= i <= pool@.len(),
            best == max_key(pool@.take(i as int)),
        decreases pool@.len() - i,
    {
        assert(pool@.take(i + 1).drop_last() =~= pool@.take(i as int));
        if pool[i].0 > best {
            best = pool[i].0;
        }
        i = i + 1;
    }
    assert(pool@.take(i as int) =~= pool@);
    best
}

/// Every pooled candidate is an admitted point, keyed by its distance.
pub open spec fn pool_ok<V, D: Fn(&V) -> u32>(
    route: D,
    points: Map<u64, Point<V>>,
    filter: Option<&Filter>,
    deleted: Seq<bool>,
    pool: Seq<(u32, u64)>,
) -> bool {
    forall|j: int|
        0 <= j < pool.len() ==> admitted(points, filter, deleted, (#[trigger] pool[j]).1) && pool[j].0
            == point_distance::<V, D>(route, points, pool[j].1)
}

/// Every pooled point whose slot lies among the marks is marked.
pub open spec fn pool_marked(pool: Seq<(u32, u64)>, visited: Seq<bool>) -> bool {
    forall|j: int|
        0 <= j < pool.len() && slot((#[trigger] pool[j]).1) < visited.len() ==> visited[slot(pool[j].1)]
}

/// The largest vertex identifier, or 0 for an empty graph.
pub open spec fn max_node_key(nodes: Map<u64, HNSWNode>) -> u64 {
    if exists|m: u64| nodes.contains_key(m) && forall|k: u64| #[trigger] nodes.contains_key(k) ==> k <= m {
        choose|m: u64| nodes.contains_key(m) && forall|k: u64| #[trigger] nodes.contains_key(k) ==> k <= m
    } else {
        0
    }
}

/// The state of a level-0 beam search: candidates still to expand, the pool
/// of closest admitted points found, and the visited marks.
pub type BeamState = (Seq<(u32, u64)>, Seq<(u32, u64)>, Seq<bool>);

/// The beam search meets neighbour `nid`: unless tombstoned, outside the
/// marks or already marked, it is marked; an admitted one closer than
/// `far`, or met while the pool is short of `ef`, joins the candidates and
/// the pool, and a pool grown past `ef` drops its farthest entry (the last
/// in stable distance order).
pub open spec fn expand_one<V, D: Fn(&V) -> u32>(
    route: D,
    points: Map<u64, Point<V>>,
    filter: Option<&Filter>,
    deleted: Seq<bool>,
    ef: usize,
    far: u32,
    st: BeamState,
    nid: u64,
) -> BeamState {
    let (c, p, v) = st;
    if tombstoned(deleted, nid) || !(slot(nid) < v.len() && !v[slot(nid)]) {
        st
    } else {
        let v2 = v.update(slot(nid), true);
        if points.contains_key(nid) && filter_admits(filter, points[nid].payload) {
            let d = measure::<V, u32, D>(route, &points[nid].vector);
            if d < far || p.len() < ef {
                let p2 = p.push((d, nid));
                (
                    c.push((d, nid)),
                    if p2.len() > ef {
                        stable_sorted(p2, false).drop_last()
                    } else {
                        p2
                    },
                    v2,
                )
            } else {
                (c, p, v2)
            }
        } else {
            (c, p, v2)
        }
    }
}

/// The state after meeting the first `k` of `nbrs`.
pub open spec fn expand<V, D: Fn(&V) -> u32>(
    route: D,
    points: Map<u64, Point<V>>,
    filter: Option<&Filter>,
    deleted: Seq<bool>,
    ef: usize,
    far: u32,
    st: BeamState,
    nbrs: Seq<u64>,
    k: int,
) -> BeamState
    decreases k,
{
    if k <= 0 {
        st
    } else {
        expand_one(
            route,
            points,
            filter,
            deleted,
            ef,
            far,
            expand(route, points, filter, deleted, ef, far, st, nbrs, k - 1),
            nbrs[k - 1],
        )
    }
}

/// One round of the beam search: take the nearest candidate (first in
/// stable distance order) and meet its level-0 neighbours, against the pool's
/// farthest distance at the start of the round.
pub open spec fn beam_step<V, D: Fn(&V) -> u32>(
    nodes: Map<u64, HNSWNode>,
    route: D,
    points: Map<u64, Point<V>>,
    filter: Option<&Filter>,
    deleted: Seq<bool>,
    ef: usize,
    st: BeamState,
) -> BeamState {
    let sorted = stable_sorted(st.0, false);
    let nbrs = neighbors_at(nodes, sorted[0].1, 0);
    expand(route, points, filter, deleted, ef, furthest(st.1), (sorted.remove(0), st.1, st.2), nbrs, nbrs.len() as int)
}

/// Rounds of the beam search until no candidate is left (or `fuel` rounds).
pub open spec fn beam<V, D: Fn(&V) -> u32>(
    nodes: Map<u64, HNSWNode>,
    route: D,
    points: Map<u64, Point<V>>,
    filter: Option<&Filter>,
    deleted: Seq<bool>,
    ef: usize,
    st: BeamState,
    fuel: nat,
) -> BeamState
    decreases fuel,
{
    if fuel == 0 || st.0.len() == 0 {
        st
    } else {
        beam(nodes, route, points, filter, deleted, ef, beam_step(nodes, route, points, filter, deleted, ef, st), (fuel - 1) as nat)
    }
}

/// The start of the beam search from `curr` with `vlen` unset marks: a
/// stored, untombstoned `curr` is the first candidate, and enters the pool
/// if the filter admits it; a stored `curr` is marked.
pub open spec fn beam_init<V, D: Fn(&V) -> u32>(
    route: D,
    points: Map<u64, Point<V>>,
    filter: Option<&Filter>,
    deleted: Seq<bool>,
    curr: u64,
    vlen: nat,
) -> BeamState {
    let v0 = Seq::new(vlen, |i: int| false);
    if points.contains_key(curr) {
        let d = measure::<V, u32, D>(route, &points[curr].vector);
        let v = if slot(curr) < vlen {
            v0.update(slot(curr), true)
        } else {
            v0
        };
        if tombstoned(deleted, curr) {
            (Seq::empty(), Seq::empty(), v)
        } else if filter_admits(filter, points[curr].payload) {
            (seq![(d, curr)], seq![(d, curr)], v)
        } else {
            (seq![(d, curr)], Seq::empty(), v)
        }
    } else {
        (Seq::empty(), Seq::empty(), v0)
    }
}

/// Enough rounds for the beam search to run out of candidates.
pub open spec fn beam_fuel(st: BeamState) -> nat {
    2 * unvisited(st.2) + st.0.len()
}

/// The pool a graph search ends with.
pub open spec fn search_pool<V, D: Fn(&V) -> u32>(
    index: HNSWIndex,
    route: D,
    points: Map<u64, Point<V>>,
    filter: Option<&Filter>,
    deleted: Seq<bool>,
) -> Seq<(u32, u64)> {
    match index.enter_node {
        None => Seq::empty(),
        Some(e) => {
            let curr = descend(index.nodes@, route, points, filter, deleted, index.max_current_level as int, 1, e);
            let vlen = ((max_node_key(index.nodes@) as usize) + 1) as nat;
            let init = beam_init(route, points, filter, deleted, curr, vlen);
            beam(index.nodes@, route, points, filter, deleted, index.ef_search, init, beam_fuel(init)).1
        },
    }
}

/// The `(score, key)` pairs of the first `k` pooled points (in pool order)
/// that are stored, until `limit` of them are collected.
pub open spec fn collect_hits<V, S: Fn(&V) -> u32>(
    score: S,
    points: Map<u64, Point<V>>,
    pool: Seq<(u32, u64)>,
    k: int,
    limit: usize,
) -> Seq<(u32, u64)>
    decreases k,
{
    if k <= 0 {
        Seq::empty()
    } else {
        let prev = collect_hits(score, points, pool, k - 1, limit);
        let id = pool[k - 1].1;
        if prev.len() >= limit {
            prev
        } else if points.contains_key(id) {
            prev.push((measure::<V, u32, S>(score, &points[id].vector), id))
        } else {
            prev
        }
    }
}

proof fn lemma_collect_saturated<V, S: Fn(&V) -> u32>(
    score: S,
    points: Map<u64, Point<V>>,
    pool: Seq<(u32, u64)>,
    k: int,
    n: int,
    limit: usize,
)
    requires
        0 <= k <= n,
        collect_hits(score, points, pool, k, limit).len() >= limit,
    ensures
        collect_hits(score, points, pool, n, limit) == collect_hits(score, points, pool, k, limit),
    decreases n - k,
{
    if n > k {
        lemma_collect_saturated(score, points, pool, k, n - 1, limit);
    }
}

/// The hits of a graph search, as `(score, key)` in reported order:
/// the pool in stable distance order, scored until the limit, then ranked
/// by score.
pub open spec fn ranked_hits<V, D: Fn(&V) -> u32, S: Fn(&V) -> u32>(
    index: HNSWIndex,
    route: D,
    score: S,
    limit: usize,
    metric: DistanceMetric,
    points: Map<u64, Point<V>>,
    filter: Option<&Filter>,
    deleted: Seq<bool>,
) -> Seq<(u32, u64)> {
    let pool = stable_sorted(search_pool(index, route, points, filter, deleted), false);
    stable_sorted(collect_hits(score, points, pool, pool.len() as int, limit), higher_is_closer_spec(metric))
}

impl HNSWIndex {
    /// The largest vertex identifier, or 0 for an empty graph.
    fn max_node_id(&self) -> (r: u64)
        ensures
            r == max_node_key(self.nodes@),
    {
        let mut max_id: u64 = 0;
        let mut any = false;
        let keys = self.nodes.keys();
        let ghost full: Seq<u64> = keys@;
        let ghost mut seen: Seq<u64> = Seq::empty();
        let mut i: usize = 0;
        while i < keys.len()
            invariant
                keys@ == full,
                i <= full.len(),
                full.to_set() == self.nodes@.dom(),
                seen == full.take(i as int),
                any <==> seen.len() > 0,
                !any ==> max_id == 0,
                any ==> seen.contains(max_id),
                forall|j: int| 0 <= j < seen.len() ==> #[trigger] seen[j] <= max_id,
            decreases full.len() - i,
        {
            let k = keys[i];
            if !any || k > max_id {
                max_id = k;
            }
            any = true;
            proof {
                let next = seen.push(k);
                assert(next =~= full.take(i + 1));
                assert(next[seen.len() as int] == k);
                assert forall|j: int| 0 <= j < next.len() implies #[trigger] next[j] <= max_id by {
                    if j < seen.len() {
                        assert(next[j] == seen[j]);
                    }
                }
                if seen.contains(max_id) {
                    let j = choose|j: int| 0 <= j < seen.len() && seen[j] == max_id;
                    assert(next[j] == max_id);
                }
                seen = next;
            }
            i = i + 1;
        }
        proof {
            assert(seen =~= full);
            if any {
                assert(full.to_set().contains(max_id));
                assert forall|k: u64| #[trigger] self.nodes@.contains_key(k) implies k <= max_id by {
                    assert(full.to_set().contains(k));
                    let j = choose|j: int| 0 <= j < full.len() && full[j] == k;
                    assert(seen[j] == k);
                }
                let m = choose|m: u64|
                    self.nodes@.contains_key(m) && forall|k: u64| #[trigger] self.nodes@.contains_key(k) ==> k <= m;
                assert(self.nodes@.contains_key(max_id) && forall|k: u64| #[trigger] self.nodes@.contains_key(k) ==> k <= max_id);
                assert(m <= max_id && max_id <= m);
            } else {
                assert forall|m: u64| !(self.nodes@.contains_key(m) && forall|k: u64| #[trigger] self.nodes@.contains_key(k) ==> k <= m) by {
                    if self.nodes@.contains_key(m) {
                        assert(full.to_set().contains(m));
                    }
                }
            }
        }
        max_id
    }
}

/// What a graph search returns: for each pair of `ranked_hits`, the
/// identifier of the point under its key, its score and a copy of the
/// point's payload; there are at most `limit` hits (none for a limit of 0),
/// at most `ef_search` (at least one), and none for an empty graph. Where
/// every point is filed under its own identifier, every hit is an admitted
/// point with its score, and no point is reported twice.
pub open spec fn beam_results<V, D: Fn(&V) -> u32, S: Fn(&V) -> u32>(
    index: HNSWIndex,
    route: D,
    score: S,
    limit: usize,
    metric: DistanceMetric,
    points: Map<u64, Point<V>>,
    filter: Option<&Filter>,
    deleted: Seq<bool>,
    r: Seq<SearchResult>,
) -> bool {
    let ranked = ranked_hits(index, route, score, limit, metric, points, filter, deleted);
    &&& r.len() == ranked.len()
    &&& forall|i: int|
        0 <= i < r.len() ==> (#[trigger] r[i]).0 == points[ranked[i].1].id && r[i].1 == ranked[i].0
            && same_payload(r[i].2, points[ranked[i].1].payload)
    &&& index.enter_node is None ==> r.len() == 0
    &&& points_consistent(points) ==> forall|i: int|
        0 <= i < r.len() ==> is_hit_of::<V, S>(score, points, filter, deleted, #[trigger] r[i])
    &&& is_ranked(r, higher_is_closer_spec(metric))
    &&& r.len() <= limit
    &&& r.len() <= (if index.ef_search > 0 { index.ef_search } else { 1 })
    &&& points_consistent(points) ==> forall|i: int, j: int|
        0 <= i < j < r.len() ==> (#[trigger] r[i]).0 != (#[trigger] r[j]).0
}

/// Meets the neighbours `nbrs` of an expanded candidate in list order (see
/// `expand_one`), against the pool's farthest distance `far`.
fn expand_neighbors<V, D: Fn(&V) -> u32>(
    route: &D,
    points: &HashMap<u64, Point<V>>,
    filter: Option<&Filter>,
    deleted_bits: &Vec<bool>,
    ef: usize,
    far: u32,
    nbrs: &Vec<u64>,
    candidates: &mut Vec<(u32, u64)>,
    pool: &mut Vec<(u32, u64)>,
    visited: &mut Vec<bool>,
)
    requires
        is_measure::<V, u32, D>(*route),
        pool_ok::<V, D>(*route, points@, filter, deleted_bits@, old(pool)@),
        old(pool)@.len() <= (if ef > 0 { ef as int } else { 1 }),
        distinct_ids(old(pool)@),
        pool_marked(old(pool)@, old(visited)@),
    ensures
        (final(candidates)@, final(pool)@, final(visited)@) == expand::<V, D>(
            *route,
            points@,
            filter,
            deleted_bits@,
            ef,
            far,
            (old(candidates)@, old(pool)@, old(visited)@),
            nbrs@,
            nbrs@.len() as int,
        ),
        final(visited)@.len() == old(visited)@.len(),
        2 * unvisited(final(visited)@) + final(candidates)@.len() <= 2 * unvisited(old(visited)@)
            + old(candidates)@.len(),
        pool_ok::<V, D>(*route, points@, filter, deleted_bits@, final(pool)@),
        final(pool)@.len() <= (if ef > 0 { ef as int } else { 1 }),
        distinct_ids(final(pool)@),
        pool_marked(final(pool)@, final(visited)@),
{
    let mut i: usize = 0;
    while i < nbrs.len()
        invariant
            is_measure::<V, u32, D>(*route),
            i <= nbrs@.len(),
            (candidates@, pool@, visited@) == expand::<V, D>(
                *route,
                points@,
                filter,
                deleted_bits@,
                ef,
                far,
                (old(candidates)@, old(pool)@, old(visited)@),
                nbrs@,
                i as int,
            ),
            visited@.len() == old(visited)@.len(),
            2 * unvisited(visited@) + candidates@.len() <= 2 * unvisited(old(visited)@) + old(candidates)@.len(),
            pool_ok::<V, D>(*route, points@, filter, deleted_bits@, pool@),
            pool@.len() <= (if ef > 0 { ef as int } else { 1 }),
            distinct_ids(pool@),
            pool_marked(pool@, visited@),
        decreases nbrs@.len() - i,
    {
        let nid = nbrs[i];
        let ghost c0 = candidates@;
        let ghost p0 = pool@;
        let ghost v0 = visited@;
        if !is_tombstoned(deleted_bits, nid) {
            let n_idx = nid as usize;
            if n_idx < visited.len() && !visited[n_idx] {
                visited[n_idx] = true;
                proof {
                    lemma_unvisited_mark(v0, n_idx as int);
                    assert forall|j: int| 0 <= j < p0.len() implies (#[trigger] p0[j]).1 != nid by {
                        if p0[j].1 == nid {
                            assert(v0[slot(p0[j].1)]);
                        }
                    }
                }
                match points.get(&nid) {
                    Some(np) => {
                        if passes_filter(filter, &np.payload) {
                            let d = apply_measure(route, &np.vector);
                            if d < far || pool.len() < ef {
                                candidates.push((d, nid));
                                pool.push((d, nid));
                                let ghost p2 = pool@;
                                proof {
                                    assert forall|a: int, b: int| 0 <= a < b < p2.len() implies (#[trigger] p2[a]).1
                                        != (#[trigger] p2[b]).1 by {
                                        if b < p0.len() {
                                            assert(p2[a] == p0[a] && p2[b] == p0[b]);
                                        } else {
                                            assert(p2[a] == p0[a]);
                                        }
                                    }
                                    assert forall|j: int|
                                        0 <= j < p2.len() && slot((#[trigger] p2[j]).1) < visited@.len() implies visited@[slot(
                                        p2[j].1,
                                    )] by {
                                        if j < p0.len() {
                                            assert(p2[j] == p0[j]);
                                        }
                                    }
                                }
                                if pool.len() > ef {
                                    stable_sort(pool, false);
                                    proof {
                                        lemma_sorted_members(p2, false);
                                        lemma_sorted_distinct(p2, false);
                                    }
                                    pool.pop();
                                    proof {
                                        assert forall|j: int| 0 <= j < pool@.len() implies admitted(
                                            points@,
                                            filter,
                                            deleted_bits@,
                                            (#[trigger] pool@[j]).1,
                                        ) && pool@[j].0 == point_distance::<V, D>(*route, points@, pool@[j].1)
                                            && (slot(pool@[j].1) < visited@.len() ==> visited@[slot(pool@[j].1)]) by {
                                            assert(pool@[j] == stable_sorted(p2, false)[j]);
                                            assert(p2.contains(pool@[j]));
                                        }
                                        let sp = stable_sorted(p2, false);
                                        assert forall|a: int, b: int| 0 <= a < b < pool@.len() implies (#[trigger] pool@[a]).1
                                            != (#[trigger] pool@[b]).1 by {
                                            assert(pool@[a] == sp[a] && pool@[b] == sp[b]);
                                        }
                                    }
                                }
                            }
                        }
                    },
                    None => {},
                }
            }
        }
        i = i + 1;
    }
}

impl HNSWIndex {
    /// Greedy walks from `enter`, on each level from the top down to 1
    /// starting where the level above ended.
    fn descend_levels<V, D: Fn(&V) -> u32>(
        &self,
        route: &D,
        enter: u64,
        points: &HashMap<u64, Point<V>>,
        filter: Option<&Filter>,
        deleted_bits: &Vec<bool>,
    ) -> (r: u64)
        requires
            is_measure::<V, u32, D>(*route),
        ensures
            r == descend::<V, D>(self.nodes@, *route, points@, filter, deleted_bits@, self.max_current_level as int, 1, enter),
    {
        let mut curr = enter;
        let mut level = self.max_current_level;
        while level >= 1
            invariant
                is_measure::<V, u32, D>(*route),
                level <= self.max_current_level,
                curr == descend::<V, D>(
                    self.nodes@,
                    *route,
                    points@,
                    filter,
                    deleted_bits@,
                    self.max_current_level as int,
                    level + 1,
                    enter,
                ),
            decreases level,
        {
            curr = self.search_layer(route, curr, level, points, filter, deleted_bits);
            proof {
                lemma_descend_peel::<V, D>(
                    self.nodes@,
                    *route,
                    points@,
                    filter,
                    deleted_bits@,
                    self.max_current_level as int,
                    level + 1,
                    enter,
                );
            }
            level = level - 1;
        }
        curr
    }

    /// The pool of the level-0 beam search from `curr` (see `beam`).
    fn beam_pool<V, D: Fn(&V) -> u32>(
        &self,
        route: &D,
        curr: u64,
        points: &HashMap<u64, Point<V>>,
        filter: Option<&Filter>,
        deleted_bits: &Vec<bool>,
    ) -> (r: Vec<(u32, u64)>)
        requires
            is_measure::<V, u32, D>(*route),
            slots_addressable(self.nodes@),
        ensures
            r@ == ({
                let init = beam_init::<V, D>(
                    *route,
                    points@,
                    filter,
                    deleted_bits@,
                    curr,
                    ((max_node_key(self.nodes@) as usize) + 1) as nat,
                );
                beam::<V, D>(self.nodes@, *route, points@, filter, deleted_bits@, self.ef_search, init, beam_fuel(init)).1
            }),
            forall|j: int| 0 <= j < r@.len() ==> admitted(points@, filter, deleted_bits@, (#[trigger] r@[j]).1),
            r@.len() <= (if self.ef_search > 0 { self.ef_search as int } else { 1 }),
            distinct_ids(r@),
    {
        let ghost nodes = self.nodes@;
        let max_id = self.max_node_id();
        proof {
            if exists|m: u64| nodes.contains_key(m) && forall|k: u64| #[trigger] nodes.contains_key(k) ==> k <= m {
                assert(nodes.contains_key(max_id));
            }
        }
        let vlen = (max_id as usize) + 1;
        let mut visited = vec![false; vlen];
        let ghost v0 = visited@;
        assert(v0 =~= Seq::new(vlen as nat, |i: int| false));
        let mut candidates: Vec<(u32, u64)> = Vec::new();
        let mut pool: Vec<(u32, u64)> = Vec::new();
        match points.get(&curr) {
            Some(p) => {
                let d = apply_measure(route, &p.vector);
                if !is_tombstoned(deleted_bits, curr) {
                    candidates.push((d, curr));
                    if passes_filter(filter, &p.payload) {
                        pool.push((d, curr));
                    }
                }
                let c_idx = curr as usize;
                if c_idx < visited.len() {
                    visited[c_idx] = true;
                }
            },
            None => {},
        }
        let ghost init: BeamState = (candidates@, pool@, visited@);
        assert(init == beam_init::<V, D>(*route, points@, filter, deleted_bits@, curr, vlen as nat));
        let ghost mut fuel: nat = beam_fuel(init);
        while candidates.len() > 0
            invariant
                is_measure::<V, u32, D>(*route),
                visited@.len() == vlen,
                beam::<V, D>(self.nodes@, *route, points@, filter, deleted_bits@, self.ef_search, init, beam_fuel(init))
                    == beam::<V, D>(
                    self.nodes@,
                    *route,
                    points@,
                    filter,
                    deleted_bits@,
                    self.ef_search,
                    (candidates@, pool@, visited@),
                    fuel,
                ),
                fuel >= 2 * unvisited(visited@) + candidates@.len(),
                pool_ok::<V, D>(*route, points@, filter, deleted_bits@, pool@),
                pool@.len() <= (if self.ef_search > 0 { self.ef_search as int } else { 1 }),
                distinct_ids(pool@),
                pool_marked(pool@, visited@),
            decreases 2 * unvisited(visited@) + candidates@.len(),
        {
            let ghost st: BeamState = (candidates@, pool@, visited@);
            stable_sort(&mut candidates, false);
            proof {
                lemma_stable_sorted(st.0, false);
            }
            let nearest = candidates.remove(0);
            let far = furthest_distance(&pool);
            match self.nodes.get(&nearest.1) {
                Some(node) => {
                    expand_neighbors(
                        route,
                        points,
                        filter,
                        deleted_bits,
                        self.ef_search,
                        far,
                        &node.neighbors[0],
                        &mut candidates,
                        &mut pool,
                        &mut visited,
                    );
                },
                None => {},
            }
            proof {
                assert((candidates@, pool@, visited@) == beam_step::<V, D>(
                    self.nodes@,
                    *route,
                    points@,
                    filter,
                    deleted_bits@,
                    self.ef_search,
                    st,
                ));
                fuel = (fuel - 1) as nat;
            }
        }
        pool
    }
}

/// The `(score, key)` pairs of the stored points of `pool`, in pool order,
/// until `limit` of them (see `collect_hits`).
fn collect_scored<V, S: Fn(&V) -> u32>(
    score: &S,
    limit: usize,
    points: &HashMap<u64, Point<V>>,
    filter: Option<&Filter>,
    deleted_bits: &Vec<bool>,
    pool: &Vec<(u32, u64)>,
) -> (picked: Vec<(u32, u64)>)
    requires
        is_measure::<V, u32, S>(*score),
        forall|j: int| 0 <= j < pool@.len() ==> admitted(points@, filter, deleted_bits@, (#[trigger] pool@[j]).1),
        distinct_ids(pool@),
    ensures
        picked@ == collect_hits::<V, S>(*score, points@, pool@, pool@.len() as int, limit),
        picked@.len() <= limit,
        picked@.len() <= pool@.len(),
        distinct_ids(picked@),
        forall|j: int|
            0 <= j < picked@.len() ==> admitted(points@, filter, deleted_bits@, (#[trigger] picked@[j]).1)
                && picked@[j].0 == measure::<V, u32, S>(*score, &points@[picked@[j].1].vector),
{
    let ghost sorted_pool = pool@;
        let mut picked: Vec<(u32, u64)> = Vec::new();
        let mut k: usize = 0;
        let mut done = limit == 0;
        while k < pool.len() && !done
            invariant
                is_measure::<V, u32, S>(*score),
                pool@ == sorted_pool,
                forall|j: int| 0 <= j < sorted_pool.len() ==> admitted(points@, filter, deleted_bits@, (#[trigger] sorted_pool[j]).1),
                k <= pool@.len(),
                picked@ == collect_hits::<V, S>(*score, points@, sorted_pool, k as int, limit),
                done <==> picked@.len() >= limit,
                picked@.len() <= limit,
                picked@.len() <= k,
                distinct_ids(sorted_pool),
                distinct_ids(picked@),
                forall|j: int, m: int|
                    0 <= j < picked@.len() && k <= m < sorted_pool.len() ==> (#[trigger] picked@[j]).1
                        != (#[trigger] sorted_pool[m]).1,
                forall|j: int|
                    0 <= j < picked@.len() ==> admitted(points@, filter, deleted_bits@, (#[trigger] picked@[j]).1)
                        && picked@[j].0 == measure::<V, u32, S>(*score, &points@[picked@[j].1].vector),
            decreases pool@.len() - k,
        {
            let id = pool[k].1;
            proof {
                assert(admitted(points@, filter, deleted_bits@, sorted_pool[k as int].1));
            }
            let ghost before = picked@;
            match points.get(&id) {
                Some(p) => {
                    let s = apply_measure(score, &p.vector);
                    picked.push((s, id));
                    proof {
                        assert(picked@[before.len() as int].1 == sorted_pool[k as int].1);
                        assert forall|a: int, b: int| 0 <= a < b < picked@.len() implies (#[trigger] picked@[a]).1
                            != (#[trigger] picked@[b]).1 by {
                            assert(picked@[a] == before[a]);
                            if b < before.len() {
                                assert(picked@[b] == before[b]);
                            }
                        }
                        assert forall|j: int, m: int|
                            0 <= j < picked@.len() && k + 1 <= m < sorted_pool.len() implies (#[trigger] picked@[j]).1
                                != (#[trigger] sorted_pool[m]).1 by {
                            if j < before.len() {
                                assert(picked@[j] == before[j]);
                            }
                        }
                    }
                    if picked.len() == limit {
                        done = true;
                    }
                },
                None => {},
            }
            k = k + 1;
        }
        proof {
            if done {
                lemma_collect_saturated::<V, S>(*score, points@, sorted_pool, k as int, sorted_pool.len() as int, limit);
            }
        }
    picked
}

/// The hits for ranked `(score, key)` pairs of admitted keys: the
/// identifier of the point under each key, its score, and a copy of its
/// payload.
fn report_hits<V, S: Fn(&V) -> u32>(
    score: &S,
    points: &HashMap<u64, Point<V>>,
    filter: Option<&Filter>,
    deleted_bits: &Vec<bool>,
    picked: &Vec<(u32, u64)>,
) -> (results: Vec<SearchResult>)
    requires
        forall|j: int|
            0 <= j < picked@.len() ==> admitted(points@, filter, deleted_bits@, (#[trigger] picked@[j]).1)
                && picked@[j].0 == measure::<V, u32, S>(*score, &points@[picked@[j].1].vector),
    ensures
        results@.len() == picked@.len(),
        forall|j: int|
            0 <= j < results@.len() ==> (#[trigger] results@[j]).0 == points@[picked@[j].1].id && results@[j].1
                == picked@[j].0 && same_payload(results@[j].2, points@[picked@[j].1].payload),
{
        let mut results: Vec<SearchResult> = Vec::new();
        let mut t: usize = 0;
        while t < picked.len()
            invariant
                t <= picked@.len(),
                results@.len() == t,
                forall|j: int|
                    0 <= j < picked@.len() ==> admitted(points@, filter, deleted_bits@, (#[trigger] picked@[j]).1)
                        && picked@[j].0 == measure::<V, u32, S>(*score, &points@[picked@[j].1].vector),
                forall|j: int|
                    0 <= j < t ==> (#[trigger] results@[j]).0 == points@[picked@[j].1].id && results@[j].1
                        == picked@[j].0 && same_payload(results@[j].2, points@[picked@[j].1].payload),
            decreases picked@.len() - t,
        {
            let (s, id) = picked[t];
            proof {
                assert(admitted(points@, filter, deleted_bits@, picked@[t as int].1));
            }
            match points.get(&id) {
                Some(p) => {
                    results.push((p.id, s, clone_payload(&p.payload)));
                },
                None => {},
            }
            t = t + 1;
        }
    results
}

impl HNSWIndex {
    /// Graph search: greedy walks from the entry vertex down to level 1, then
    /// a beam search on level 0 that keeps at most `ef_search` of the closest
    /// admitted points by `route`; those are scored by `score` in order of
    /// distance until `limit` hits (none for a limit of 0), and ranked by
    /// score for `metric`. An empty graph gives no hits.
    pub fn search<V, D: Fn(&V) -> u32, S: Fn(&V) -> u32>(
        &self,
        route: &D,
        score: &S,
        limit: usize,
        metric: DistanceMetric,
        points: &HashMap<u64, Point<V>>,
        filter: Option<&Filter>,
        deleted_bits: &Vec<bool>,
    ) -> (r: Vec<SearchResult>)
        requires
            is_measure::<V, u32, D>(*route),
            is_measure::<V, u32, S>(*score),
            slots_addressable(self.nodes@),
        ensures
            beam_results::<V, D, S>(*self, *route, *score, limit, metric, points@, filter, deleted_bits@, r@),
    {
        let enter = match self.enter_node {
            Some(e) => e,
            None => {
                let r: Vec<SearchResult> = Vec::new();
                proof {
                    let pool = stable_sorted(search_pool(*self, *route, points@, filter, deleted_bits@), false);
                    assert(pool.len() == 0);
                    assert(collect_hits(*score, points@, pool, 0, limit).len() == 0);
                }
                return r;
            },
        };
        let curr = self.descend_levels(route, enter, points, filter, deleted_bits);
        let mut pool = self.beam_pool(route, curr, points, filter, deleted_bits);
        proof {
            assert(pool@ == search_pool::<V, D>(*self, *route, points@, filter, deleted_bits@));
        }
        let ghost found = pool@;
        stable_sort(&mut pool, false);
        proof {
            lemma_sorted_members(found, false);
            lemma_sorted_distinct(found, false);
            assert forall|j: int| 0 <= j < pool@.len() implies admitted(points@, filter, deleted_bits@, (#[trigger] pool@[j]).1) by {
                assert(found.contains(pool@[j]));
            }
        }
        let mut picked = collect_scored(score, limit, points, filter, deleted_bits, &pool);
        let ghost unranked = picked@;
        let descending = metric.higher_is_closer();
        stable_sort(&mut picked, descending);
        proof {
            lemma_sorted_members(unranked, descending);
            lemma_sorted_distinct(unranked, descending);
            assert forall|j: int|
                0 <= j < picked@.len() implies admitted(points@, filter, deleted_bits@, (#[trigger] picked@[j]).1)
                    && picked@[j].0 == measure::<V, u32, S>(*score, &points@[picked@[j].1].vector) by {
                assert(unranked.contains(picked@[j]));
            }
        }
        let results = report_hits(score, points, filter, deleted_bits, &picked);
        proof {
            let ranked = ranked_hits::<V, D, S>(*self, *route, *score, limit, metric, points@, filter, deleted_bits@);
            assert(ranked == picked@);
            assert forall|i: int, j: int| 0 <= i < j < results@.len() implies !precedes(
                #[trigger] results@[j].rank_of(),
                #[trigger] results@[i].rank_of(),
                descending,
            ) by {
                assert(!precedes(picked@[j].rank_of(), picked@[i].rank_of(), descending));
            }
            if points_consistent(points@) {
                assert forall|i: int, j: int| 0 <= i < j < results@.len() implies (#[trigger] results@[i]).0
                    != (#[trigger] results@[j]).0 by {
                    assert(results@[i].0 == picked@[i].1 && results@[j].0 == picked@[j].1);
                }
                assert forall|i: int| 0 <= i < results@.len() implies is_hit_of::<V, S>(
                    *score,
                    points@,
                    filter,
                    deleted_bits@,
                    #[trigger] results@[i],
                ) by {
                    assert(results@[i].0 == picked@[i].1);
                }
            }
        }
        results
    }
}

/// Tenant isolation of the graph search: with a filter for tenant `t` (and
/// every point filed under its own identifier), every hit is a live point
/// whose payload, as reported, names `t` under `tenant_id`.
pub proof fn law_graph_hits_name_tenant<V, D: Fn(&V) -> u32, S: Fn(&V) -> u32>(
    index: HNSWIndex,
    route: D,
    score: S,
    limit: usize,
    metric: DistanceMetric,
    points: Map<u64, Point<V>>,
    f: &Filter,
    deleted: Seq<bool>,
    r: Seq<SearchResult>,
)
    requires
        beam_results::<V, D, S>(index, route, score, limit, metric, points, Some(f), deleted, r),
        points_consistent(points),
    ensures
        forall|i: int|
            0 <= i < r.len() ==> points.contains_key((#[trigger] r[i]).0) && !tombstoned(deleted, r[i].0)
                && names_tenant(r[i].2, f.tenant_id@),
{
    assert forall|i: int| 0 <= i < r.len() implies points.contains_key((#[trigger] r[i]).0) && !tombstoned(
        deleted,
        r[i].0,
    ) && names_tenant(r[i].2, f.tenant_id@) by {
        assert(is_hit_of::<V, S>(score, points, Some(f), deleted, r[i]));
        let p = points[r[i].0].payload;
        law_filter_admits_named_tenant(f, p);
        law_filter_admits_named_tenant(f, r[i].2);
        if r[i].2 is Some {
            assert(r[i].2->0@ == p->0@);
        }
    }
}

/// Does the one-past-the-end slot of every vertex of `index` fit a `usize`?
pub fn all_slots_addressable(index: &HNSWIndex) -> (r: bool)
    ensures
        r == slots_addressable(index.nodes@),
{
    let mut ok = true;
    let keys = index.nodes.keys();
    let ghost full: Seq<u64> = keys@;
    let ghost mut seen: Seq<u64> = Seq::empty();
    let mut i: usize = 0;
    while i < keys.len()
        invariant
            keys@ == full,
            i <= full.len(),
            full.to_set() == index.nodes@.dom(),
            seen == full.take(i as int),
            ok == forall|j: int| 0 <= j < seen.len() ==> (#[trigger] seen[j] as usize) < usize::MAX,
        decreases full.len() - i,
    {
        let k = keys[i];
        if (k as usize) == usize::MAX {
            ok = false;
        }
        proof {
            let next = seen.push(k);
            assert(next =~= full.take(i + 1));
            assert forall|j: int| 0 <= j < seen.len() implies next[j] == seen[j] by {}
            assert(next[seen.len() as int] == k);
            if ok {
                assert forall|j: int| 0 <= j < next.len() implies (#[trigger] next[j] as usize) < usize::MAX by {
                    if j < seen.len() {
                        assert(next[j] == seen[j]);
                    }
                }
            } else if (k as usize) == usize::MAX {
                assert(!((next[seen.len() as int] as usize) < usize::MAX));
            } else {
                let j0 = choose|j: int| 0 <= j < seen.len() && !((#[trigger] seen[j] as usize) < usize::MAX);
                assert(next[j0] == seen[j0]);
                assert(!((next[j0] as usize) < usize::MAX));
            }
            seen = next;
        }
        i = i + 1;
    }
    proof {
        assert(seen =~= full);
        if ok {
            assert forall|key: u64| #[trigger] index.nodes@.contains_key(key) implies (key as usize) < usize::MAX by {
                assert(full.to_set().contains(key));
                let j = choose|j: int| 0 <= j < full.len() && full[j] == key;
                assert(seen[j] == key);
            }
        } else {
            let j = choose|j: int| 0 <= j < seen.len() && !((#[trigger] seen[j] as usize) < usize::MAX);
            assert(full.to_set().contains(full[j]));
        }
    }
    ok
}

} // verus!
