use vstd::prelude::*;
use vstd::std_specs::iter::IteratorSpec;
use std::collections::HashMap;
use crate::filter::Filter;
use crate::metric::{DistanceMetric, higher_is_closer_spec};
use crate::payload::{clone_payload, same_payload};
use crate::point::{Point, admitted, apply_measure, is_measure, is_tombstoned, law_filter_admits_named_tenant, measure, names_tenant, passes_filter, reportable};
use crate::ranking::{Ranked, SearchResult, distinct_ids, is_ranked, lemma_sorted_distinct, lemma_sorted_members, lemma_stable_sorted, precedes, stable_sort, stable_sorted};
use crate::hnsw::points_consistent;

verus! {

broadcast use vstd::std_specs::hash::group_hash_axioms;

/// The reportable points under the keys of `order` that `score` can score,
/// as `(score key, map key)` pairs, in the order of `order`.
pub open spec fn scored_candidates<V, S: Fn(&V) -> Option<u32>>(
    score: S,
    points: Map<u64, Point<V>>,
    filter: Option<&Filter>,
    deleted: Seq<bool>,
    order: Seq<u64>,
) -> Seq<(u32, u64)>
    decreases order.len(),
{
    if order.len() == 0 {
        Seq::empty()
    } else {
        let rest = scored_candidates(score, points, filter, deleted, order.drop_last());
        let k = order.last();
        if reportable(points, filter, deleted, k) && measure::<V, Option<u32>, S>(
            score,
            &points[k].vector,
        ) is Some {
            rest.push((measure::<V, Option<u32>, S>(score, &points[k].vector)->0, k))
        } else {
            rest
        }
    }
}

/// Does `order` list every key of `keys` once?
pub open spec fn is_enumeration(order: Seq<u64>, keys: Set<u64>) -> bool {
    order.to_set() == keys && order.no_duplicates()
}

/// Are `hits` the first `limit` of the ranked candidates, each with the
/// identifier and a copy of the payload of the point under its key?
pub open spec fn reports_ranked<V>(
    hits: Seq<SearchResult>,
    ranked: Seq<(u32, u64)>,
    limit: usize,
    points: Map<u64, Point<V>>,
) -> bool {
    &&& hits.len() == (if limit < ranked.len() { limit as int } else { ranked.len() as int })
    &&& forall|i: int|
        0 <= i < hits.len() ==> (#[trigger] hits[i]).0 == points[ranked[i].1].id && hits[i].1 == ranked[i].0
            && same_payload(hits[i].2, points[ranked[i].1].payload)
}

proof fn lemma_candidates_admitted<V, S: Fn(&V) -> Option<u32>>(
    score: S,
    points: Map<u64, Point<V>>,
    filter: Option<&Filter>,
    deleted: Seq<bool>,
    order: Seq<u64>,
)
    ensures
        forall|i: int|
            0 <= i < scored_candidates(score, points, filter, deleted, order).len() ==> {
                let c = #[trigger] scored_candidates(score, points, filter, deleted, order)[i];
                &&& reportable(points, filter, deleted, c.1)
                &&& order.contains(c.1)
                &&& measure::<V, Option<u32>, S>(score, &points[c.1].vector) == Some(c.0)
            },
    decreases order.len(),
{
    if order.len() > 0 {
        let d = order.drop_last();
        lemma_candidates_admitted(score, points, filter, deleted, d);
        let rest = scored_candidates(score, points, filter, deleted, d);
        let c = scored_candidates(score, points, filter, deleted, order);
        assert forall|i: int| 0 <= i < c.len() implies order.contains((#[trigger] c[i]).1) by {
            if i < rest.len() {
                assert(c[i] == rest[i]);
                let m = choose|m: int| 0 <= m < d.len() && d[m] == rest[i].1;
                assert(order[m] == d[m]);
            } else {
                assert(order[order.len() - 1] == c[i].1);
            }
        }
    }
}

/// What an exact search returns: the first `limit` of the scored reportable
/// points in stable order of score, for some scan order of the map, each
/// with its identifier and a copy of its payload. Where every point is
/// filed under its own identifier, every hit is an admitted point with its
/// score and payload, and no point is reported twice.
pub open spec fn exact_results<V, S: Fn(&V) -> Option<u32>>(
    score: S,
    limit: usize,
    metric: DistanceMetric,
    points: Map<u64, Point<V>>,
    filter: Option<&Filter>,
    deleted: Seq<bool>,
    r: Seq<SearchResult>,
) -> bool {
    &&& exists|order: Seq<u64>|
        is_enumeration(order, points.dom()) && #[trigger] reports_ranked(
            r,
            stable_sorted(
                scored_candidates(score, points, filter, deleted, order),
                higher_is_closer_spec(metric),
            ),
            limit,
            points,
        )
    &&& points_consistent(points) ==> forall|i: int|
        0 <= i < r.len() ==> {
            &&& admitted(points, filter, deleted, (#[trigger] r[i]).0)
            &&& measure::<V, Option<u32>, S>(score, &points[r[i].0].vector) == Some(r[i].1)
            &&& same_payload(r[i].2, points[r[i].0].payload)
        }
    &&& is_ranked(r, higher_is_closer_spec(metric))
    &&& r.len() <= limit
    &&& points_consistent(points) ==> forall|i: int, j: int|
        0 <= i < j < r.len() ==> (#[trigger] r[i]).0 != (#[trigger] r[j]).0
}

/// Exact search: scans every stored point, drops tombstoned points, points
/// the filter rejects and points `score` cannot score, ranks the rest by
/// score (descending for dot product and cosine, ascending for the
/// euclidean distance; ties keep the scan order of the map) and reports the
/// first `limit`.
pub fn search_exact_knn<V, S: Fn(&V) -> Option<u32>>(
    score: &S,
    limit: usize,
    metric: DistanceMetric,
    points: &HashMap<u64, Point<V>>,
    filter: Option<&Filter>,
    deleted_bits: &Vec<bool>,
) -> (r: Vec<SearchResult>)
    requires
        is_measure::<V, Option<u32>, S>(*score),
    ensures
        exact_results(*score, limit, metric, points@, filter, deleted_bits@, r@),
{
    let ghost pts = points@;
    let ghost del = deleted_bits@;
    let mut scored: Vec<(u32, u64)> = Vec::new();
    let ghost mut order: Seq<u64> = Seq::empty();
    let ghost full: Seq<u64> = vstd::std_specs::hash::spec_keys_iter(points).remaining().unref();
    for key in it: points.keys()
        invariant
            is_measure::<V, Option<u32>, S>(*score),
            points@ == pts,
            deleted_bits@ == del,
            it.seq().unref() == full,
            full.to_set() == pts.dom(),
            full.no_duplicates(),
            order == it.seq().unref().take(it.index()),
            scored@ == scored_candidates(*score, pts, filter, del, order),
            distinct_ids(scored@),
            forall|j: int| 0 <= j < scored@.len() ==> order.contains((#[trigger] scored@[j]).1),
    {
        proof {
            assert(it.seq().unref()[it.index()] == *key);
            assert(it.seq().unref().to_set().contains(*key));
            if order.contains(*key) {
                let m = choose|m: int| 0 <= m < order.len() && order[m] == *key;
                assert(full[m] == full[it.index() as int]);
            }
        }
        let ghost before = scored@;
        match points.get(key) {
            Some(point) => {
                if !is_tombstoned(deleted_bits, point.id) && passes_filter(filter, &point.payload) {
                    match apply_measure(score, &point.vector) {
                        Some(s) => {
                            scored.push((s, *key));
                        },
                        None => {},
                    }
                }
            },
            None => {},
        }
        proof {
            let next = order.push(*key);
            assert forall|j: int| 0 <= j < scored@.len() implies next.contains((#[trigger] scored@[j]).1) by {
                if j < before.len() {
                    assert(scored@[j] == before[j]);
                    let m = choose|m: int| 0 <= m < order.len() && order[m] == before[j].1;
                    assert(next[m] == order[m]);
                } else {
                    assert(next[order.len() as int] == *key);
                }
            }
            assert(next.drop_last() =~= order);
            assert(next =~= it.seq().unref().take(it.index() + 1));
            order = next;
        }
    }
    proof {
        assert(order =~= full);
    }
    let ghost unsorted = scored@;
    let descending = metric.higher_is_closer();
    stable_sort(&mut scored, descending);
    proof {
        lemma_sorted_members(unsorted, descending);
        lemma_sorted_distinct(unsorted, descending);
        lemma_candidates_admitted(*score, pts, filter, del, order);
    }
    let mut r: Vec<SearchResult> = Vec::new();
    let mut i: usize = 0;
    while i < scored.len() && i < limit
        invariant
            points@ == pts,
            i <= scored@.len(),
            i <= limit,
            r@.len() == i,
            scored@ == stable_sorted(unsorted, descending),
            distinct_ids(scored@),
            forall|j: int| 0 <= j < scored@.len() ==> unsorted.contains(#[trigger] scored@[j]),
            forall|j: int| 0 <= j < unsorted.len() ==> pts.contains_key((#[trigger] unsorted[j]).1),
            forall|j: int|
                0 <= j < i ==> (#[trigger] r@[j]).0 == pts[scored@[j].1].id && r@[j].1 == scored@[j].0
                    && same_payload(r@[j].2, pts[scored@[j].1].payload),
        decreases scored@.len() - i,
    {
        let (s, key) = scored[i];
        proof {
            let j = choose|j: int| 0 <= j < unsorted.len() && unsorted[j] == scored@[i as int];
            assert(unsorted[j] == scored@[i as int]);
        }
        match points.get(&key) {
            Some(point) => {
                r.push((point.id, s, clone_payload(&point.payload)));
            },
            None => {},
        }
        i = i + 1;
    }
    proof {
        assert(reports_ranked(r@, stable_sorted(unsorted, descending), limit, pts));
        assert forall|a: int, b: int| 0 <= a < b < r@.len() implies !crate::ranking::precedes(
            #[trigger] r@[b].1,
            #[trigger] r@[a].1,
            descending,
        ) by {
            assert(r@[b].1 == scored@[b].0 && r@[a].1 == scored@[a].0);
            assert(is_ranked(scored@, descending));
            assert(!crate::ranking::precedes(scored@[b].rank_of(), scored@[a].rank_of(), descending));
        }
        if points_consistent(pts) {
            assert forall|a: int, b: int| 0 <= a < b < r@.len() implies (#[trigger] r@[a]).0 != (#[trigger] r@[b]).0 by {
                assert(pts.contains_key(scored@[a].1)) by {
                    let j = choose|j: int| 0 <= j < unsorted.len() && unsorted[j] == scored@[a];
                }
                assert(pts.contains_key(scored@[b].1)) by {
                    let j = choose|j: int| 0 <= j < unsorted.len() && unsorted[j] == scored@[b];
                }
                assert(r@[a].0 == scored@[a].1 && r@[b].0 == scored@[b].1);
            }
            assert forall|k: int| 0 <= k < r@.len() implies {
                &&& admitted(pts, filter, del, (#[trigger] r@[k]).0)
                &&& measure::<V, Option<u32>, S>(*score, &pts[r@[k].0].vector) == Some(r@[k].1)
                &&& same_payload(r@[k].2, pts[r@[k].0].payload)
            } by {
                let j = choose|j: int| 0 <= j < unsorted.len() && unsorted[j] == scored@[k];
                assert(unsorted[j] == scored@[k]);
            }
        }
    }
    r
}

proof fn lemma_candidate_present<V, S: Fn(&V) -> Option<u32>>(
    score: S,
    points: Map<u64, Point<V>>,
    filter: Option<&Filter>,
    deleted: Seq<bool>,
    order: Seq<u64>,
    m: int,
)
    requires
        0 <= m < order.len(),
        reportable(points, filter, deleted, order[m]),
        measure::<V, Option<u32>, S>(score, &points[order[m]].vector) is Some,
    ensures
        scored_candidates(score, points, filter, deleted, order).contains(
            (measure::<V, Option<u32>, S>(score, &points[order[m]].vector)->0, order[m]),
        ),
    decreases order.len(),
{
    let c = scored_candidates(score, points, filter, deleted, order);
    let x = (measure::<V, Option<u32>, S>(score, &points[order[m]].vector)->0, order[m]);
    if m == order.len() - 1 {
        assert(c.last() == x);
    } else {
        let d = order.drop_last();
        assert(d[m] == order[m]);
        lemma_candidate_present(score, points, filter, deleted, d, m);
        let rest = scored_candidates(score, points, filter, deleted, d);
        let j = choose|j: int| 0 <= j < rest.len() && rest[j] == x;
        assert(c[j] == x);
    }
}

/// The k-nearest law of the exact search: where every point is filed under
/// its own identifier, an admitted point that the score function can score
/// and that the search left out ranks no better than any reported hit, and
/// then the search reported a full `limit` of hits.
pub proof fn law_exact_search_top_k<V, S: Fn(&V) -> Option<u32>>(
    score: S,
    limit: usize,
    metric: DistanceMetric,
    points: Map<u64, Point<V>>,
    filter: Option<&Filter>,
    deleted: Seq<bool>,
    r: Seq<SearchResult>,
    id: u64,
    s: u32,
)
    requires
        exact_results(score, limit, metric, points, filter, deleted, r),
        points_consistent(points),
        admitted(points, filter, deleted, id),
        measure::<V, Option<u32>, S>(score, &points[id].vector) == Some(s),
        forall|i: int| 0 <= i < r.len() ==> (#[trigger] r[i]).0 != id,
    ensures
        r.len() == limit,
        forall|i: int| 0 <= i < r.len() ==> !precedes(s, (#[trigger] r[i]).1, higher_is_closer_spec(metric)),
{
    broadcast use vstd::seq_lib::group_to_multiset_ensures;

    let descending = higher_is_closer_spec(metric);
    let order = choose|order: Seq<u64>|
        is_enumeration(order, points.dom()) && #[trigger] reports_ranked(
            r,
            stable_sorted(scored_candidates(score, points, filter, deleted, order), descending),
            limit,
            points,
        );
    let c = scored_candidates(score, points, filter, deleted, order);
    let sorted = stable_sorted(c, descending);
    assert(order.to_set().contains(id));
    let m = choose|m: int| 0 <= m < order.len() && order[m] == id;
    lemma_candidate_present(score, points, filter, deleted, order, m);
    lemma_stable_sorted(c, descending);
    assert(c.to_multiset().count((s, id)) > 0);
    assert(sorted.contains((s, id)));
    let p = choose|p: int| 0 <= p < sorted.len() && sorted[p] == (s, id);
    if p < r.len() {
        assert(r[p].0 == points[sorted[p].1].id);
    }
    assert forall|i: int| 0 <= i < r.len() implies !precedes(s, (#[trigger] r[i]).1, descending) by {
        assert(r[i].1 == sorted[i].0);
        assert(!precedes(sorted[p].rank_of(), sorted[i].rank_of(), descending));
    }
}

/// Tenant isolation of the exact search: with a filter for tenant `t` (and
/// every point filed under its own identifier), every hit is a live point
/// whose payload, as reported, names `t` under `tenant_id`.
pub proof fn law_exact_hits_name_tenant<V, S: Fn(&V) -> Option<u32>>(
    score: S,
    limit: usize,
    metric: DistanceMetric,
    points: Map<u64, Point<V>>,
    f: &Filter,
    deleted: Seq<bool>,
    r: Seq<SearchResult>,
)
    requires
        exact_results(score, limit, metric, points, Some(f), deleted, r),
        points_consistent(points),
    ensures
        forall|i: int|
            0 <= i < r.len() ==> points.contains_key((#[trigger] r[i]).0) && !crate::point::tombstoned(deleted, r[i].0)
                && names_tenant(r[i].2, f.tenant_id@),
{
    assert forall|i: int| 0 <= i < r.len() implies points.contains_key((#[trigger] r[i]).0) && !crate::point::tombstoned(
        deleted,
        r[i].0,
    ) && names_tenant(r[i].2, f.tenant_id@) by {
        let p = points[r[i].0].payload;
        law_filter_admits_named_tenant(f, p);
        law_filter_admits_named_tenant(f, r[i].2);
        if r[i].2 is Some {
            assert(r[i].2->0@ == p->0@);
        }
    }
}

} // verus!
