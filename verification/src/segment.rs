use vstd::prelude::*;
use std::collections::HashMap;
use crate::exact::{search_exact_knn, exact_results};
use crate::filter::Filter;
use crate::hnsw::{HNSWIndex, MAX_LEVELS, all_slots_addressable, beam_results, insert_result, points_consistent, slots_addressable};
use crate::metric::DistanceMetric;
use crate::payload::{Payload, payload_tenant, tenant_of};
use crate::point::{Point, admitted, is_measure, is_tombstoned, slot, tombstoned};
use crate::ranking::SearchResult;

verus! {

broadcast use vstd::std_specs::hash::group_hash_axioms;

/// Below this many stored points a search scans them all exactly; from this
/// many on it walks the graph.
pub const EXACT_SEARCH_LIMIT: usize = 500;

/// Per-tenant point counts, in a hash map with the rustc-hash hasher.
#[verifier::external_body]
pub struct TenantCounts {
    inner: rustc_hash::FxHashMap<String, usize>,
}

/// No counts at all.
pub open spec fn no_counts() -> Map<Seq<char>, usize> {
    Map::empty()
}

/// The counts that a `TenantCounts` holds, by the text of the tenant.
pub uninterp spec fn tenant_count_map(m: TenantCounts) -> Map<Seq<char>, usize>;

impl View for TenantCounts {
    type V = Map<Seq<char>, usize>;

    open spec fn view(&self) -> Map<Seq<char>, usize> {
        tenant_count_map(*self)
    }
}

impl TenantCounts {
    /// Calls `FxHashMap::default`. Claimed: no tenant has a count.
    #[verifier::external_body]
    fn empty() -> (r: TenantCounts)
        ensures
            tenant_count_map(r) == no_counts(),
    {
        TenantCounts { inner: rustc_hash::FxHashMap::default() }
    }

    /// Calls `HashMap::get` with a text key. Claimed: the count kept for a
    /// tenant of the same text, if any.
    #[verifier::external_body]
    fn lookup(&self, tenant: &str) -> (r: Option<usize>)
        ensures
            match r {
                Some(c) => tenant_count_map(*self).contains_key(tenant@) && c == tenant_count_map(*self)[tenant@],
                None => !tenant_count_map(*self).contains_key(tenant@),
            },
    {
        self.inner.get(tenant).copied()
    }

    /// Calls `HashMap::insert`. Claimed: `count` is kept for the text of
    /// `tenant`, replacing what was kept for it.
    #[verifier::external_body]
    fn store(&mut self, tenant: String, count: usize)
        ensures
            tenant_count_map(*final(self)) == tenant_count_map(*old(self)).insert(tenant@, count),
    {
        self.inner.insert(tenant, count);
    }
}

/// The stored points of tenant `t`.
pub open spec fn tenant_ids<V>(points: Map<u64, Point<V>>, t: Seq<char>) -> Set<u64> {
    points.dom().filter(|k: u64| tenant_of(points[k].payload) == Some(t))
}

/// The count kept in `counts` for tenant `t`, 0 where none is kept.
pub open spec fn count_of(counts: Map<Seq<char>, usize>, t: Seq<char>) -> int {
    if counts.contains_key(t) {
        counts[t] as int
    } else {
        0
    }
}

/// Do the counts give, for every tenant, the number of its stored points?
pub open spec fn counts_match<V>(counts: Map<Seq<char>, usize>, points: Map<u64, Point<V>>) -> bool {
    forall|t: Seq<char>| #[trigger] count_of(counts, t) == tenant_ids(points, t).len()
}

/// Is every stored identifier its own tombstone slot?
pub open spec fn stored_addressed<V>(points: Map<u64, Point<V>>) -> bool {
    forall|k: u64| #[trigger] points.contains_key(k) ==> slot(k) == k
}

/// Storing `p` under `id` takes `id` out of the tenant of the point it
/// replaces and puts it into the tenant of `p`.
proof fn lemma_tenant_ids_insert<V>(points: Map<u64, Point<V>>, id: u64, p: Point<V>, t: Seq<char>)
    requires
        points.dom().finite(),
    ensures
        tenant_ids(points.insert(id, p), t).finite(),
        tenant_ids(points.insert(id, p), t).len() == tenant_ids(points, t).len() - (if points.contains_key(id)
            && tenant_of(points[id].payload) == Some(t) {
            1int
        } else {
            0int
        }) + (if tenant_of(p.payload) == Some(t) {
            1int
        } else {
            0int
        }),
{
    let a = tenant_ids(points, t);
    let after = points.insert(id, p);
    let b = tenant_ids(after, t);
    points.dom().lemma_len_filter(|k: u64| tenant_of(points[k].payload) == Some(t));
    assert(a.remove(id).finite());
    if tenant_of(p.payload) == Some(t) {
        assert(b =~= a.remove(id).insert(id));
    } else {
        assert(b =~= a.remove(id));
    }
    if a.contains(id) {
        assert(a.remove(id).len() == a.len() - 1);
    } else {
        assert(a.remove(id) =~= a);
    }
}

/// Removing `id` takes it out of the tenant of the point stored there.
proof fn lemma_tenant_ids_remove<V>(points: Map<u64, Point<V>>, id: u64, t: Seq<char>)
    requires
        points.dom().finite(),
    ensures
        tenant_ids(points.remove(id), t).len() == tenant_ids(points, t).len() - (if points.contains_key(id)
            && tenant_of(points[id].payload) == Some(t) {
            1int
        } else {
            0int
        }),
{
    let a = tenant_ids(points, t);
    points.dom().lemma_len_filter(|k: u64| tenant_of(points[k].payload) == Some(t));
    assert(tenant_ids(points.remove(id), t) =~= a.remove(id));
    if !a.contains(id) {
        assert(a.remove(id) =~= a);
    }
}

/// No tenant has more points than are stored.
proof fn lemma_tenant_ids_bound<V>(points: Map<u64, Point<V>>, t: Seq<char>)
    requires
        points.dom().finite(),
    ensures
        tenant_ids(points, t).len() <= points.dom().len(),
{
    points.dom().lemma_len_filter(|k: u64| tenant_of(points[k].payload) == Some(t));
}

/// The tombstones after setting the one at `s`, growing the list with unset
/// tombstones where it is too short.
pub open spec fn tombstone_set(deleted: Seq<bool>, s: int) -> Seq<bool> {
    if s < deleted.len() {
        deleted.update(s, true)
    } else {
        (deleted + Seq::new((s + 1 - deleted.len()) as nat, |i: int| false)).update(s, true)
    }
}

/// The tombstones after clearing the one at `s`, if it is within the list.
pub open spec fn tombstone_cleared(deleted: Seq<bool>, s: int) -> Seq<bool> {
    if s < deleted.len() {
        deleted.update(s, false)
    } else {
        deleted
    }
}

/// A storage segment: the points, a graph index over them, tombstones of
/// deleted points and per-tenant counts.
pub struct Segment<V> {
    points: HashMap<u64, Point<V>>,
    hnsw_index: HNSWIndex,
    deleted_bits: Vec<bool>,
    tenant_counters: TenantCounts,
    global_counter: usize,
    searchable: bool,
}

impl<V> Segment<V> {
    #[verifier::type_invariant]
    spec fn inv(self) -> bool {
        &&& self.global_counter == self.points@.len()
        &&& self.searchable ==> slots_addressable(self.hnsw_index.nodes@)
        &&& stored_addressed(self.points@)
        &&& counts_match(self.tenant_counters@, self.points@)
    }

    /// The stored points, by identifier.
    pub closed spec fn points_view(&self) -> Map<u64, Point<V>> {
        self.points@
    }

    /// The tombstones, indexed by the slot of a point identifier.
    pub closed spec fn tombstones(&self) -> Seq<bool> {
        self.deleted_bits@
    }

    /// The graph index.
    pub closed spec fn index_view(&self) -> HNSWIndex {
        self.hnsw_index
    }

    /// Can a graph search run: does the one-past-the-end slot of every vertex
    /// fit a `usize`?
    pub closed spec fn search_ready(&self) -> bool {
        self.searchable
    }

    /// Is `id` stored and not tombstoned?
    pub open spec fn is_live(&self, id: u64) -> bool {
        self.points_view().contains_key(id) && !tombstoned(self.tombstones(), id)
    }

    /// Is every stored point live (its tombstone unset)? Upserts and deletes
    /// keep this; only a snapshot can bring in a stored point whose tombstone
    /// is set.
    pub open spec fn stored_live(&self) -> bool {
        forall|k: u64| #[trigger] self.points_view().contains_key(k) ==> self.is_live(k)
    }

    /// Is every point filed under its own identifier? Upserts and deletes keep
    /// this; only a snapshot can file a point under another key.
    pub open spec fn well_filed(&self) -> bool {
        points_consistent(self.points_view())
    }

    /// Is every stored identifier its own tombstone slot (as every segment's
    /// is)?
    pub open spec fn addressed(&self) -> bool {
        stored_addressed(self.points_view())
    }

    /// The live identifiers.
    pub open spec fn live_ids(&self) -> Set<u64> {
        Set::new(|k: u64| self.is_live(k))
    }

    /// An empty segment, with a graph of connection bound 16, construction
    /// list size 64 and search list size 32.
    pub fn new() -> (r: Self)
        ensures
            r.points_view() == Map::<u64, Point<V>>::empty(),
            r.tombstones() == Seq::<bool>::empty(),
            r.stored_live(),
            r.well_filed(),
            r.index_view().m == 16,
            r.index_view().ef_construction == 64,
            r.index_view().ef_search == 32,
            r.index_view().enter_node is None,
            r.index_view().nodes@ == Map::<u64, crate::hnsw::HNSWNode>::empty(),
            r.search_ready(),
    {
        let points: HashMap<u64, Point<V>> = HashMap::new();
        assert(points@.len() == 0);
        let tenant_counters = TenantCounts::empty();
        assert forall|t: Seq<char>| #[trigger] count_of(tenant_counters@, t) == tenant_ids(points@, t).len() by {
            assert(tenant_ids(points@, t) =~= Set::<u64>::empty());
        }
        Segment {
            points,
            hnsw_index: HNSWIndex::new(16, 64, 32),
            deleted_bits: Vec::new(),
            tenant_counters,
            global_counter: 0,
            searchable: true,
        }
    }

    /// Is the point `point_id` stored and not tombstoned?
    pub fn point_exists(&self, point_id: u64) -> (r: bool)
        ensures
            r == self.is_live(point_id),
            self.stored_live() ==> r == self.points_view().contains_key(point_id),
    {
        if is_tombstoned(&self.deleted_bits, point_id) {
            return false;
        }
        self.points.contains_key(&point_id)
    }

    /// Is a point filed under `point_id`, tombstoned or not?
    pub fn stores(&self, point_id: u64) -> (r: bool)
        ensures
            r == self.points_view().contains_key(point_id),
    {
        self.points.contains_key(&point_id)
    }

    /// Number of stored points (`None`), or of the stored points of a
    /// tenant: those whose payload names it under `tenant_id` (0 for a tenant
    /// with none). Where every stored point is live (see `stored_live`),
    /// these are the live points.
    pub fn count(&self, tenant_id: Option<&str>) -> (r: usize)
        ensures
            self.points_view().dom().finite(),
            self.addressed(),
            self.stored_live() ==> self.live_ids() == self.points_view().dom(),
            match tenant_id {
                Some(t) => r == tenant_ids(self.points_view(), t@).len(),
                None => r == self.points_view().len() && (self.stored_live() ==> r == self.live_ids().len()),
            },
    {
        proof {
            use_type_invariant(self);
            if self.stored_live() {
                assert(self.live_ids() =~= self.points_view().dom());
            }
            match tenant_id {
                Some(t) => assert(count_of(self.tenant_counters@, t@) == tenant_ids(self.points@, t@).len()),
                None => {},
            }
        }
        match tenant_id {
            Some(tid) => match self.tenant_counters.lookup(tid) {
                Some(counter) => counter,
                None => 0,
            },
            None => self.global_counter,
        }
    }
}

/// What `delete(point_id)` does, having returned `r`: the point is removed
/// and its tombstone set where it was stored; nothing changes otherwise. The
/// tenant counts follow the stored points (see `count`).
pub open spec fn deleted<V>(before: Segment<V>, after: Segment<V>, point_id: u64, r: bool) -> bool {
    &&& before.addressed()
    &&& after.addressed()
    &&& before.stored_live() ==> after.stored_live()
    &&& before.well_filed() ==> after.well_filed()
    &&& r == before.points_view().contains_key(point_id)
    &&& before.stored_live() ==> r == before.is_live(point_id)
    &&& r ==> after.points_view() =~= before.points_view().remove(point_id)
    &&& r ==> after.tombstones() =~= tombstone_set(before.tombstones(), slot(point_id))
    &&& !r ==> after.points_view() =~= before.points_view()
    &&& !r ==> after.tombstones() =~= before.tombstones()
    &&& after.index_view() == before.index_view()
    &&& after.search_ready() == before.search_ready()
}

/// What `upsert(point, insert_level, ..)` does. The tenant counts follow
/// the stored points (see `count`).
pub open spec fn upserted<V, F: Fn(&V) -> u32>(
    before: Segment<V>,
    after: Segment<V>,
    point: Point<V>,
    insert_level: usize,
    route_to_new: F,
) -> bool {
    &&& before.addressed()
    &&& after.addressed()
    &&& slot(point.id) == point.id
    &&& before.stored_live() ==> after.stored_live()
    &&& before.well_filed() ==> after.well_filed()
    &&& after.points_view() =~= before.points_view().insert(point.id, point)
    &&& after.tombstones() =~= tombstone_cleared(before.tombstones(), slot(point.id))
    &&& insert_result::<V, F>(
                before.index_view(),
                after.index_view(),
                point.id,
                insert_level,
                route_to_new,
                after.points_view(),
            )
    &&& after.search_ready() == (before.search_ready() && slot(point.id) < usize::MAX)
}

/// Adds one to the count of tenant `tid`.
fn count_in(counts: &mut TenantCounts, tid: String)
    requires
        count_of(old(counts)@, tid@) < usize::MAX,
    ensures
        final(counts)@ == old(counts)@.insert(tid@, (count_of(old(counts)@, tid@) + 1) as usize),
{
    let current = match counts.lookup(tid.as_str()) {
        Some(c) => c,
        None => 0,
    };
    counts.store(tid, current + 1);
}

/// Takes one from the count of tenant `tid`.
fn count_out(counts: &mut TenantCounts, tid: String)
    requires
        count_of(old(counts)@, tid@) > 0,
    ensures
        final(counts)@ == old(counts)@.insert(tid@, (count_of(old(counts)@, tid@) - 1) as usize),
{
    let current = match counts.lookup(tid.as_str()) {
        Some(c) => c,
        None => 0,
    };
    counts.store(tid, current - 1);
}

/// The tenant of an optional payload, copied out.
fn tenant_copy(payload: &Option<Payload>) -> (r: Option<String>)
    ensures
        match r {
            Some(s) => tenant_of(*payload) == Some(s@),
            None => tenant_of(*payload) is None,
        },
{
    match payload_tenant(payload) {
        Some(s) => Some(s.clone()),
        None => None,
    }
}

/// Files `point` under `key`, moving it in the tenant counts out
/// of the tenant of the point it replaces and into its own.
fn file_point<V>(points: &mut HashMap<u64, Point<V>>, counts: &mut TenantCounts, key: u64, point: Point<V>) -> (was_stored: bool)
    requires
        counts_match(old(counts)@, old(points)@),
    ensures
        final(points)@ == old(points)@.insert(key, point),
        counts_match(final(counts)@, final(points)@),
        was_stored == old(points)@.contains_key(key),
{
    let ghost before = points@;
    let ghost c0 = counts@;
    let id = key;
    let new_tenant = tenant_copy(&point.payload);
    let previous = points.insert(id, point);
    let ghost after = points@;
    let ghost old_tenant: Option<Seq<char>> = if before.contains_key(id) {
        tenant_of(before[id].payload)
    } else {
        None
    };
    assert(after.len() == vstd::std_specs::hash::spec_hash_map_len(points));
    proof {
        assert forall|t: Seq<char>| #[trigger] tenant_ids(after, t).len() == tenant_ids(before, t).len() - (if old_tenant == Some(t) {
            1int
        } else {
            0int
        }) + (if tenant_of(after[id].payload) == Some(t) {
            1int
        } else {
            0int
        }) by {
            lemma_tenant_ids_insert(before, id, after[id], t);
            assert(before.insert(id, after[id]) =~= after);
        }
    }
    let was_stored = match previous {
        Some(old_point) => {
            match tenant_copy(&old_point.payload) {
                Some(t) => {
                    proof {
                        let a = tenant_ids(before, t@);
                        before.dom().lemma_len_filter(|k: u64| tenant_of(before[k].payload) == Some(t@));
                        assert(a.contains(id));
                        assert(a.remove(id).len() == a.len() - 1);
                        assert(count_of(c0, t@) == a.len());
                    }
                    count_out(counts, t);
                },
                None => {},
            }
            true
        },
        None => false,
    };
    let ghost c1 = counts@;
    assert forall|t: Seq<char>| #[trigger] count_of(c1, t) == count_of(c0, t) - (if old_tenant == Some(t) {
        1int
    } else {
        0int
    }) by {}
    match new_tenant {
        Some(t) => {
            proof {
                lemma_tenant_ids_bound(after, t@);
                assert(count_of(c1, t@) + 1 == tenant_ids(after, t@).len());
            }
            count_in(counts, t);
        },
        None => {},
    }
    assert forall|t: Seq<char>| #[trigger] count_of(counts@, t) == tenant_ids(after, t).len() by {
        assert(count_of(c0, t) == tenant_ids(before, t).len());
        assert(tenant_ids(after, t).len() == tenant_ids(before, t).len() - (if old_tenant == Some(t) {
            1int
        } else {
            0int
        }) + (if tenant_of(after[id].payload) == Some(t) {
            1int
        } else {
            0int
        }));
    }
    was_stored
}

impl<V> Segment<V> {
    /// Deletes the point `point_id`: removes it, uncounts it (globally and
    /// for its tenant) and sets its tombstone, growing the tombstone list as
    /// needed. Returns whether a point was stored under that identifier;
    /// otherwise nothing changes.
    pub fn delete(&mut self, point_id: u64) -> (r: bool)
        requires
            old(self).points_view().contains_key(point_id) ==> slot(point_id) < usize::MAX,
        ensures
            deleted(*old(self), *final(self), point_id, r),
            !final(self).is_live(point_id),
    {
        proof {
            use_type_invariant(&*self);
        }
        let mut taken: Segment<V> = Segment::new();
        std::mem::swap(&mut taken, self);
        proof {
            use_type_invariant(&taken);
        }
        let Segment { mut points, hnsw_index, mut deleted_bits, mut tenant_counters, mut global_counter, searchable } = taken;
        let ghost old_points = points@;
        let ghost c0 = tenant_counters@;
        let removed = points.remove(&point_id);
        let result = match removed {
            Some(point) => {
                assert(old_points.contains_key(point_id));
                assert(points@.len() == old_points.len() - 1);
                global_counter = global_counter - 1;
                proof {
                    assert forall|t: Seq<char>| #[trigger] tenant_ids(points@, t).len() == tenant_ids(old_points, t).len() - (
                    if tenant_of(point.payload) == Some(t) {
                        1int
                    } else {
                        0int
                    }) by {
                        lemma_tenant_ids_remove(old_points, point_id, t);
                    }
                }
                match tenant_copy(&point.payload) {
                    Some(tid) => {
                        proof {
                            let a = tenant_ids(old_points, tid@);
                            old_points.dom().lemma_len_filter(|k: u64| tenant_of(old_points[k].payload) == Some(tid@));
                            assert(a.contains(point_id));
                            assert(a.remove(point_id).len() == a.len() - 1);
                            assert(count_of(c0, tid@) == a.len());
                        }
                        count_out(&mut tenant_counters, tid);
                    },
                    None => {},
                }
                assert(forall|t: Seq<char>| #[trigger] count_of(tenant_counters@, t) == count_of(c0, t) - (if tenant_of(point.payload)
                    == Some(t) {
                    1int
                } else {
                    0int
                }));
                proof {
                    assert forall|t: Seq<char>| #[trigger] count_of(tenant_counters@, t) == tenant_ids(points@, t).len() by {
                        assert(count_of(c0, t) == tenant_ids(old_points, t).len());
                        assert(tenant_ids(points@, t).len() == tenant_ids(old_points, t).len() - (if tenant_of(point.payload) == Some(t) {
                            1int
                        } else {
                            0int
                        }));
                    }
                }
                let idx = point_id as usize;
                let ghost before_bits = deleted_bits@;
                if idx >= deleted_bits.len() {
                    deleted_bits.resize(idx + 1, false);
                    assert(deleted_bits@ =~= before_bits + Seq::new(
                        (idx + 1 - before_bits.len()) as nat,
                        |i: int| false,
                    ));
                }
                deleted_bits.set(idx, true);
                proof {
                    assert forall|k: u64| #[trigger] points@.contains_key(k) implies slot(k) == k && tombstoned(
                        deleted_bits@,
                        k,
                    ) == tombstoned(before_bits, k) by {
                        assert(old_points.contains_key(k));
                        assert(k != point_id);
                        assert(slot(k) != slot(point_id));
                        if slot(k) < before_bits.len() {
                            assert(deleted_bits@[slot(k)] == before_bits[slot(k)]);
                        }
                    }
                    if old(self).stored_live() {
                        assert forall|k: u64| #[trigger] points@.contains_key(k) implies !tombstoned(deleted_bits@, k) by {
                            assert(old_points.contains_key(k));
                            assert(old(self).points_view() == old_points);
                            assert(old(self).tombstones() == before_bits);
                            assert(old(self).points_view().contains_key(k));
                            assert(old(self).is_live(k));
                        }
                    }
                }
                true
            },
            None => {
                assert(points@ =~= old_points);
                false
            },
        };
        *self = Segment { points, hnsw_index, deleted_bits, tenant_counters, global_counter, searchable };
        proof {
            use_type_invariant(&*self);
        }
        result
    }

    /// Inserts `point`, or replaces the point stored under its identifier:
    /// clears its tombstone, counts it globally when it is new, moves it in
    /// the tenant counts from the tenant of the point it replaces to its own,
    /// and links it into the graph at `insert_level` (drawn by the caller);
    /// `route_to_new` measures the distance of an embedding to the new
    /// point's. The identifier must be addressable as a tombstone slot.
    pub fn upsert<F: Fn(&V) -> u32>(&mut self, point: Point<V>, insert_level: usize, route_to_new: &F)
        requires
            insert_level < MAX_LEVELS,
            is_measure::<V, u32, F>(*route_to_new),
            slot(point.id) == point.id,
        ensures
            upserted(*old(self), *final(self), point, insert_level, *route_to_new),
            final(self).is_live(point.id),
    {
        proof {
            use_type_invariant(&*self);
        }
        let mut taken: Segment<V> = Segment::new();
        std::mem::swap(&mut taken, self);
        proof {
            use_type_invariant(&taken);
        }
        let Segment { mut points, mut hnsw_index, mut deleted_bits, mut tenant_counters, mut global_counter, searchable } = taken;
        let point_id = point.id;
        let idx = point_id as usize;
        let ghost before_bits = deleted_bits@;
        if idx < deleted_bits.len() && deleted_bits[idx] {
            deleted_bits.set(idx, false);
        }
        assert(deleted_bits@ =~= tombstone_cleared(before_bits, slot(point_id)));
        let ghost old_points = points@;
        let is_update = file_point(&mut points, &mut tenant_counters, point_id, point);
        if !is_update {
            assert(points@.len() == old_points.len() + 1);
            assert(vstd::std_specs::hash::spec_hash_map_len(&points) == points@.len());
            global_counter = global_counter + 1;
        }
        proof {
            assert forall|k: u64| #[trigger] points@.contains_key(k) implies slot(k) == k && (k != point_id ==> tombstoned(
                deleted_bits@,
                k,
            ) == tombstoned(before_bits, k)) && (k == point_id ==> !tombstoned(deleted_bits@, k)) by {
                if k != point_id {
                    assert(old_points.contains_key(k));
                    assert(slot(k) != slot(point_id));
                    if slot(k) < before_bits.len() {
                        assert(deleted_bits@[slot(k)] == before_bits[slot(k)]);
                    }
                }
            }
            assert(old(self).points_view() == old_points);
            assert(old(self).tombstones() == before_bits);
            if old(self).stored_live() {
                assert forall|k: u64| #[trigger] points@.contains_key(k) implies !tombstoned(deleted_bits@, k) by {
                    if k != point_id {
                        assert(old(self).points_view().contains_key(k));
                        assert(old(self).is_live(k));
                    }
                }
            }
            if old(self).well_filed() {
                assert forall|k: u64| #[trigger] points@.contains_key(k) implies points@[k].id == k by {
                    if k != point_id {
                        assert(old(self).points_view().contains_key(k));
                    }
                }
            }
        }
        hnsw_index.insert(point_id, insert_level, route_to_new, &points);
        let searchable = searchable && idx < usize::MAX;
        *self = Segment { points, hnsw_index, deleted_bits, tenant_counters, global_counter, searchable };
        proof {
            use_type_invariant(&*self);
        }
    }
}

/// The map that a snapshot's `(identifier, point)` entries load into: later
/// entries replace earlier ones with the same identifier.
pub open spec fn loaded_points<V>(entries: Seq<(u64, Point<V>)>) -> Map<u64, Point<V>>
    decreases entries.len(),
{
    if entries.len() == 0 {
        Map::empty()
    } else {
        loaded_points(entries.drop_last()).insert(entries.last().0, entries.last().1)
    }
}

impl<V> Segment<V> {
    /// Can a graph search run (see `search_ready`)?
    pub fn can_walk_graph(&self) -> (r: bool)
        ensures
            r == self.search_ready(),
    {
        self.searchable
    }

    /// Searches the segment: with fewer than 500 stored points an exact scan
    /// scored by `exact_score`, otherwise a graph walk guided by `route` and
    /// scored by `score` (see `search_exact_knn` and `HNSWIndex::search`).
    /// Where every point is filed under its own identifier, tombstoned
    /// points, and with a filter the points of other tenants, are never
    /// reported.
    pub fn search<E: Fn(&V) -> Option<u32>, D: Fn(&V) -> u32, S: Fn(&V) -> u32>(
        &self,
        exact_score: &E,
        route: &D,
        score: &S,
        limit: usize,
        metric: DistanceMetric,
        filter: Option<&Filter>,
    ) -> (r: Vec<SearchResult>)
        requires
            is_measure::<V, Option<u32>, E>(*exact_score),
            is_measure::<V, u32, D>(*route),
            is_measure::<V, u32, S>(*score),
            self.points_view().len() >= EXACT_SEARCH_LIMIT ==> self.search_ready(),
        ensures
            self.points_view().len() < EXACT_SEARCH_LIMIT ==> exact_results(
                *exact_score,
                limit,
                metric,
                self.points_view(),
                filter,
                self.tombstones(),
                r@,
            ),
            self.points_view().len() >= EXACT_SEARCH_LIMIT ==> beam_results(
                self.index_view(),
                *route,
                *score,
                limit,
                metric,
                self.points_view(),
                filter,
                self.tombstones(),
                r@,
            ),
            self.well_filed() ==> forall|i: int|
                0 <= i < r@.len() ==> admitted(self.points_view(), filter, self.tombstones(), (#[trigger] r@[i]).0),
    {
        proof {
            use_type_invariant(self);
        }
        let total_points = self.points.len();
        if total_points < EXACT_SEARCH_LIMIT {
            search_exact_knn(exact_score, limit, metric, &self.points, filter, &self.deleted_bits)
        } else {
            self.hnsw_index.search(route, score, limit, metric, &self.points, filter, &self.deleted_bits)
        }
    }

    /// The stored points, for taking a snapshot.
    pub fn points(&self) -> (r: &HashMap<u64, Point<V>>)
        ensures
            r@ == self.points_view(),
    {
        &self.points
    }

    /// The graph index, for taking a snapshot.
    pub fn index(&self) -> (r: &HNSWIndex)
        ensures
            *r == self.index_view(),
    {
        &self.hnsw_index
    }

    /// The tombstones, for taking a snapshot.
    pub fn deleted_bits(&self) -> (r: &Vec<bool>)
        ensures
            r@ == self.tombstones(),
    {
        &self.deleted_bits
    }

    /// Replaces the points, graph and tombstones with those of a snapshot,
    /// and recounts the stored points, in all and per tenant. Every entry is
    /// loaded as it stands, later entries replacing earlier ones under the
    /// same key; the snapshot's own consistency is not checked. Every key must
    /// be addressable as a tombstone slot.
    pub fn restore(&mut self, entries: Vec<(u64, Point<V>)>, index: HNSWIndex, deleted_bits: Vec<bool>)
        requires
            forall|i: int| 0 <= i < entries@.len() ==> slot((#[trigger] entries@[i]).0) == entries@[i].0,
        ensures
            final(self).points_view() == loaded_points(entries@),
            final(self).index_view() == index,
            final(self).tombstones() == deleted_bits@,
            final(self).addressed(),
            final(self).search_ready() == slots_addressable(index.nodes@),
    {
        let ghost all = entries@;
        let mut points: HashMap<u64, Point<V>> = HashMap::new();
        let mut tenant_counters = TenantCounts::empty();
        proof {
            assert forall|t: Seq<char>| #[trigger] count_of(tenant_counters@, t) == tenant_ids(points@, t).len() by {
                assert(tenant_ids(points@, t) =~= Set::<u64>::empty());
            }
        }
        let ghost mut seen: Seq<(u64, Point<V>)> = Seq::empty();
        for e in it: entries
            invariant
                it.seq() == all,
                seen == all.take(it.index()),
                points@ == loaded_points(seen),
                counts_match(tenant_counters@, points@),
                stored_addressed(points@),
                forall|j: int| 0 <= j < all.len() ==> slot((#[trigger] all[j]).0) == all[j].0,
        {
            proof {
                assert(all[it.index()] == e);
            }
            let (key, point) = e;
            file_point(&mut points, &mut tenant_counters, key, point);
            proof {
                let next = seen.push(e);
                assert(next =~= all.take(it.index() + 1));
                assert(next.drop_last() =~= seen);
                seen = next;
            }
        }
        proof {
            assert(seen =~= all);
        }
        let searchable = all_slots_addressable(&index);
        let global_counter = points.len();
        let mut taken: Segment<V> = Segment::new();
        std::mem::swap(&mut taken, self);
        *self = Segment { points, hnsw_index: index, deleted_bits, tenant_counters, global_counter, searchable };
        proof {
            use_type_invariant(&*self);
        }
    }
}

/// An upserted point is live: stored and not tombstoned.
pub proof fn law_upsert_then_exists<V, F: Fn(&V) -> u32>(
    before: Segment<V>,
    after: Segment<V>,
    point: Point<V>,
    insert_level: usize,
    route: F,
)
    requires
        upserted(before, after, point, insert_level, route),
    ensures
        after.is_live(point.id),
        after.points_view()[point.id] == point,
{
}

/// After a delete the point is neither stored nor live, whatever was
/// reported.
pub proof fn law_delete_then_gone<V>(before: Segment<V>, after: Segment<V>, point_id: u64, r: bool)
    requires
        deleted(before, after, point_id, r),
    ensures
        !after.points_view().contains_key(point_id),
        !after.is_live(point_id),
{
    if r {
        assert(tombstoned(after.tombstones(), point_id));
    }
}

/// A deleted point is not admitted to any search of the segment, with or
/// without a filter, so no hit can report it.
pub proof fn law_deleted_never_reported<V>(
    before: Segment<V>,
    after: Segment<V>,
    point_id: u64,
    r: bool,
    filter: Option<&Filter>,
)
    requires
        deleted(before, after, point_id, r),
    ensures
        !admitted(after.points_view(), filter, after.tombstones(), point_id),
{
    law_delete_then_gone(before, after, point_id, r);
}

/// Deleting a point twice: the second delete reports that nothing was there
/// and changes nothing.
pub proof fn law_delete_twice<V>(
    s0: Segment<V>,
    s1: Segment<V>,
    s2: Segment<V>,
    point_id: u64,
    r1: bool,
    r2: bool,
)
    requires
        deleted(s0, s1, point_id, r1),
        deleted(s1, s2, point_id, r2),
    ensures
        !r2,
        s2.points_view() == s1.points_view(),
        s2.tombstones() == s1.tombstones(),
{
}

/// Upserting a point and then deleting it: the delete reports it, and the
/// stored points are those from before the upsert, less that identifier.
pub proof fn law_upsert_then_delete<V, F: Fn(&V) -> u32>(
    s0: Segment<V>,
    s1: Segment<V>,
    s2: Segment<V>,
    point: Point<V>,
    insert_level: usize,
    route: F,
    r: bool,
)
    requires
        upserted(s0, s1, point, insert_level, route),
        deleted(s1, s2, point.id, r),
    ensures
        r,
        s2.points_view() == s0.points_view().remove(point.id),
        !s2.is_live(point.id),
{
    assert(s2.points_view() =~= s0.points_view().remove(point.id));
    law_delete_then_gone(s1, s2, point.id, r);
}

/// The number of stored points (what `count(None)` reports) grows by one
/// with the upsert of an identifier that was not live and stays with that
/// of a live one (every stored point being live).
pub proof fn law_upsert_counts<V, F: Fn(&V) -> u32>(
    before: Segment<V>,
    after: Segment<V>,
    point: Point<V>,
    insert_level: usize,
    route: F,
)
    requires
        upserted(before, after, point, insert_level, route),
        before.points_view().dom().finite(),
        before.stored_live(),
    ensures
        after.points_view().len() == before.points_view().len() + (if before.is_live(point.id) {
            0int
        } else {
            1int
        }),
        after.live_ids().len() == after.points_view().len(),
{
    assert(after.points_view().dom() =~= before.points_view().dom().insert(point.id));
    law_count_is_live(after);
}

/// The number of stored points drops by one with each delete that reports a
/// point.
pub proof fn law_delete_counts<V>(before: Segment<V>, after: Segment<V>, point_id: u64, r: bool)
    requires
        deleted(before, after, point_id, r),
        before.points_view().dom().finite(),
        before.stored_live(),
    ensures
        after.points_view().len() == before.points_view().len() - (if r {
            1int
        } else {
            0int
        }),
        r == before.is_live(point_id),
        after.live_ids().len() == after.points_view().len(),
{
    if r {
        assert(after.points_view().dom() =~= before.points_view().dom().remove(point_id));
    } else {
        assert(after.points_view().dom() =~= before.points_view().dom());
    }
    law_count_is_live(after);
}

/// An upsert moves its identifier, in the per-tenant populations, out of
/// the tenant of the point it replaces and into the tenant of the new point;
/// re-upserting a point under another tenant moves it across.
pub proof fn law_upsert_tenant_counts<V, F: Fn(&V) -> u32>(
    before: Segment<V>,
    after: Segment<V>,
    point: Point<V>,
    insert_level: usize,
    route: F,
    t: Seq<char>,
)
    requires
        upserted(before, after, point, insert_level, route),
        before.points_view().dom().finite(),
    ensures
        tenant_ids(after.points_view(), t).len() == tenant_ids(before.points_view(), t).len() - (
        if before.points_view().contains_key(point.id) && tenant_of(before.points_view()[point.id].payload)
            == Some(t) {
            1int
        } else {
            0int
        }) + (if tenant_of(point.payload) == Some(t) {
            1int
        } else {
            0int
        }),
{
    lemma_tenant_ids_insert(before.points_view(), point.id, point, t);
}

/// A delete that reports a point takes it out of its tenant's population;
/// one that reports nothing changes no population.
pub proof fn law_delete_tenant_counts<V>(before: Segment<V>, after: Segment<V>, point_id: u64, r: bool, t: Seq<char>)
    requires
        deleted(before, after, point_id, r),
        before.points_view().dom().finite(),
    ensures
        tenant_ids(after.points_view(), t).len() == tenant_ids(before.points_view(), t).len() - (if r
            && tenant_of(before.points_view()[point_id].payload) == Some(t) {
            1int
        } else {
            0int
        }),
{
    lemma_tenant_ids_remove(before.points_view(), point_id, t);
}

/// One step of a history over the live identifiers: `(true, id)` makes
/// `id` live, `(false, id)` makes it not live, and no other identifier
/// changes.
pub open spec fn live_step<V>(before: Segment<V>, after: Segment<V>, op: (bool, u64)) -> bool {
    &&& after.is_live(op.1) == op.0
    &&& forall|j: u64| j != op.1 ==> #[trigger] after.is_live(j) == before.is_live(j)
}

/// Whether `id` is live after the steps `ops`, starting from `start`: as
/// the last step that names it left it, or as it started.
pub open spec fn replay(start: bool, ops: Seq<(bool, u64)>, id: u64) -> bool
    decreases ops.len(),
{
    if ops.len() == 0 {
        start
    } else if ops.last().1 == id {
        ops.last().0
    } else {
        replay(start, ops.drop_last(), id)
    }
}

/// An upsert is the history step `(true, point.id)`.
pub proof fn law_upsert_step<V, F: Fn(&V) -> u32>(
    before: Segment<V>,
    after: Segment<V>,
    point: Point<V>,
    insert_level: usize,
    route: F,
)
    requires
        upserted(before, after, point, insert_level, route),
    ensures
        live_step(before, after, (true, point.id)),
{
    assert forall|j: u64| j != point.id implies #[trigger] after.is_live(j) == before.is_live(j) by {
        assert(after.points_view().contains_key(j) == before.points_view().contains_key(j));
    }
}

/// A delete, whatever it reports, is the history step `(false, point_id)`.
pub proof fn law_delete_step<V>(before: Segment<V>, after: Segment<V>, point_id: u64, r: bool)
    requires
        deleted(before, after, point_id, r),
    ensures
        live_step(before, after, (false, point_id)),
{
    law_delete_then_gone(before, after, point_id, r);
    assert forall|j: u64| j != point_id implies #[trigger] after.is_live(j) == before.is_live(j) by {
        assert(after.points_view().contains_key(j) == before.points_view().contains_key(j));
    }
}

/// Over any history of upserts and deletes, an identifier is live exactly
/// when the last step that names it was an upsert (or, where none names it,
/// when it was live at the start; a new segment holds nothing).
pub proof fn law_live_history<V>(ss: Seq<Segment<V>>, ops: Seq<(bool, u64)>, id: u64)
    requires
        ss.len() == ops.len() + 1,
        forall|i: int| 0 <= i < ops.len() ==> live_step(ss[i], ss[i + 1], #[trigger] ops[i]),
    ensures
        ss.last().is_live(id) == replay(ss[0].is_live(id), ops, id),
    decreases ops.len(),
{
    if ops.len() > 0 {
        let n = ops.len() - 1;
        let ss2 = ss.drop_last();
        let ops2 = ops.drop_last();
        assert forall|i: int| 0 <= i < ops2.len() implies live_step(ss2[i], ss2[i + 1], #[trigger] ops2[i]) by {
            assert(ops2[i] == ops[i]);
            assert(live_step(ss[i], ss[i + 1], ops[i]));
        }
        law_live_history(ss2, ops2, id);
        assert(live_step(ss[n], ss[n + 1], ops[n]));
        assert(ss2.last() == ss[n]);
    }
}

/// A point that a history leaves not live (deleted after its last upsert,
/// say) is admitted to no search at its end, so no later search reports it.
pub proof fn law_unreported_after_history<V>(
    ss: Seq<Segment<V>>,
    ops: Seq<(bool, u64)>,
    id: u64,
    filter: Option<&Filter>,
)
    requires
        ss.len() == ops.len() + 1,
        forall|i: int| 0 <= i < ops.len() ==> live_step(ss[i], ss[i + 1], #[trigger] ops[i]),
        !replay(ss[0].is_live(id), ops, id),
    ensures
        !admitted(ss.last().points_view(), filter, ss.last().tombstones(), id),
{
    law_live_history(ss, ops, id);
}

/// The number of stored points of a segment whose stored points are all
/// live is the number of its live identifiers.
pub proof fn law_count_is_live<V>(s: Segment<V>)
    requires
        s.stored_live(),
        s.points_view().dom().finite(),
    ensures
        s.live_ids() == s.points_view().dom(),
        s.live_ids().len() == s.points_view().len(),
{
    assert(s.live_ids() =~= s.points_view().dom());
}

/// Loading a snapshot of a point map, taken as one `(identifier, point)`
/// entry per stored identifier, gives back that map.
pub proof fn law_snapshot_round_trip<V>(m: Map<u64, Point<V>>, entries: Seq<(u64, Point<V>)>)
    requires
        m.dom().finite(),
        entries.map_values(|e: (u64, Point<V>)| e.0).no_duplicates(),
        entries.map_values(|e: (u64, Point<V>)| e.0).to_set() == m.dom(),
        forall|i: int| 0 <= i < entries.len() ==> (#[trigger] entries[i]).1 == m[entries[i].0],
    ensures
        loaded_points(entries) == m,
    decreases entries.len(),
{
    let keys = entries.map_values(|e: (u64, Point<V>)| e.0);
    if entries.len() == 0 {
        assert forall|k: u64| !m.dom().contains(k) by {
            if m.dom().contains(k) {
                assert(keys.to_set().contains(k));
            }
        }
        assert(loaded_points(entries) =~= m);
    } else {
        let last = entries.last();
        let rest = entries.drop_last();
        let rest_keys = rest.map_values(|e: (u64, Point<V>)| e.0);
        assert(rest_keys =~= keys.drop_last());
        assert(keys.last() == last.0);
        let m2 = m.remove(last.0);
        assert(rest_keys.no_duplicates()) by {
            assert forall|i: int, j: int| 0 <= i < rest_keys.len() && 0 <= j < rest_keys.len() && i != j
                implies rest_keys[i] != rest_keys[j] by {
                assert(rest_keys[i] == keys[i] && rest_keys[j] == keys[j]);
            }
        }
        assert(rest_keys.to_set() =~= m2.dom()) by {
            assert forall|k: u64| rest_keys.to_set().contains(k) <==> m2.dom().contains(k) by {
                if rest_keys.to_set().contains(k) {
                    let i = choose|i: int| 0 <= i < rest_keys.len() && rest_keys[i] == k;
                    assert(keys[i] == k);
                    assert(keys.to_set().contains(k));
                    assert(k != last.0) by {
                        assert(keys[keys.len() - 1] == last.0);
                    }
                }
                if m2.dom().contains(k) {
                    assert(keys.to_set().contains(k));
                    let i = choose|i: int| 0 <= i < keys.len() && keys[i] == k;
                    assert(i != keys.len() - 1);
                    assert(rest_keys[i] == k);
                }
            }
        }
        assert forall|i: int| 0 <= i < rest.len() implies (#[trigger] rest[i]).1 == m2[rest[i].0] by {
            assert(rest[i] == entries[i]);
            assert(keys[i] != keys[keys.len() - 1]);
        }
        law_snapshot_round_trip(m2, rest);
        assert(keys.to_set().contains(last.0));
        assert(entries[entries.len() - 1].1 == m[last.0]);
        assert(loaded_points(entries) =~= m);
    }
}

} // verus!
