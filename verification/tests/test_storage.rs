use fastvect::filter::Filter;
use fastvect::metric::DistanceMetric;
use fastvect::payload::{Payload, PayloadValue};
use fastvect::point::Point;
use fastvect::ranking::SearchResult;
use fastvect::score::{bits_of_key, order_key};
use fastvect::segment::Segment;

fn key(x: f32) -> u32 {
    order_key(x.to_bits())
}

fn score_of(hit: &SearchResult) -> f32 {
    f32::from_bits(bits_of_key(hit.1))
}

fn dot(a: &[f32], b: &[f32]) -> Option<f32> {
    if a.len() != b.len() {
        return None;
    }
    Some(a.iter().zip(b.iter()).map(|(&x, &y)| x * y).sum())
}

fn cosine(a: &[f32], b: &[f32]) -> Option<f32> {
    let d = dot(a, b)?;
    let na = a.iter().map(|&x| x * x).sum::<f32>().sqrt();
    let nb = b.iter().map(|&x| x * x).sum::<f32>().sqrt();
    if na == 0.0 || nb == 0.0 {
        return None;
    }
    Some(d / (na * nb))
}

fn euclid(a: &[f32], b: &[f32]) -> Option<f32> {
    if a.len() != b.len() {
        return None;
    }
    let s: f32 = a
        .iter()
        .zip(b.iter())
        .map(|(&x, &y)| {
            let d = x - y;
            d * d
        })
        .sum();
    Some(s.sqrt())
}

fn route_distance(a: &[f32], b: &[f32]) -> f32 {
    match cosine(a, b) {
        Some(sim) => 1.0 - sim,
        None => f32::MAX,
    }
}

fn random_level(m: usize) -> usize {
    let r: f64 = rand::random::<f64>();
    let factor = 1.0 / (m as f64).ln();
    if r == 0.0 {
        return 15;
    }
    let level = (-r.ln() * factor) as usize;
    std::cmp::min(level, 15)
}

fn upsert(segment: &mut Segment<Vec<f32>>, point: Point<Vec<f32>>) {
    let v = point.vector.clone();
    segment.upsert(point, random_level(16), &|w: &Vec<f32>| key(route_distance(&v, w)));
}

fn search(
    segment: &Segment<Vec<f32>>,
    query: &[f32],
    limit: usize,
    metric: DistanceMetric,
    filter: Option<&Filter>,
) -> Vec<SearchResult> {
    assert!(segment.can_walk_graph());
    let exact = |w: &Vec<f32>| {
        let s = match metric {
            DistanceMetric::DotProduct => dot(query, w),
            DistanceMetric::Cosine => cosine(query, w),
            DistanceMetric::HighPrecisionEuclidean => euclid(query, w),
        };
        s.map(key)
    };
    let route = |w: &Vec<f32>| key(route_distance(query, w));
    let score = |w: &Vec<f32>| {
        key(match metric {
            DistanceMetric::DotProduct => dot(query, w).unwrap_or(0.0),
            DistanceMetric::Cosine => 1.0 - route_distance(query, w),
            DistanceMetric::HighPrecisionEuclidean => euclid(query, w).unwrap_or(f32::MAX),
        })
    };
    segment.search(&exact, &route, &score, limit, metric, filter)
}

fn tenant(name: &str) -> Option<Payload> {
    let mut payload = Payload::new();
    payload.insert("tenant_id".to_string(), PayloadValue::Keyword(name.to_string()));
    Some(payload)
}

/// Fewer than 500 points: the exact scan serves the query.
#[test]
fn test_storage_dynamic_routing_exact_knn() {
    let mut segment = Segment::new();
    let mut metadata = Payload::new();
    metadata.insert(
        "category".to_string(),
        PayloadValue::Keyword("semantic_cache".to_string()),
    );

    upsert(&mut segment, Point { id: 42, vector: vec![0.1, 0.2, 0.3], payload: Some(metadata) });
    upsert(&mut segment, Point { id: 99, vector: vec![-0.1, -0.2, -0.3], payload: None });

    let query = vec![0.11, 0.19, 0.31];
    let hits = search(&segment, &query, 1, DistanceMetric::Cosine, None);

    assert_eq!(hits.len(), 1);
    assert_eq!(
        hits[0].0, 42,
        "The storage router failed to steer target workflows cleanly into precise KNN processing pipelines"
    );
    assert!(
        score_of(&hits[0]) > 0.95,
        "Calculated vector metric boundaries dropped below target similarity margins"
    );

    let payload = hits[0].2.as_ref().unwrap();
    assert_eq!(
        payload.get("category").unwrap(),
        &PayloadValue::Keyword("semantic_cache".to_string())
    );
}

/// 501 points: the graph walk serves the query.
#[test]
fn test_storage_dynamic_routing_hnsw_fallback_stub() {
    let mut segment = Segment::new();

    for i in 0..501u64 {
        upsert(&mut segment, Point { id: i, vector: vec![i as f32 * 0.001, 0.5, 0.5], payload: None });
    }

    let query = vec![0.5, 0.5, 0.5];
    let hits = search(&segment, &query, 5, DistanceMetric::HighPrecisionEuclidean, None);

    assert_eq!(
        hits.len(),
        5,
        "The search orchestrator failed to extract the requested total match count depth boundary"
    );

    assert_eq!(
        hits[0].0, 500,
        "The search routing pipeline failed to resolve the optimal neighbor presenting minimum geometric variance"
    );
}

/// Tenant filtering on the exact path.
#[test]
fn test_storage_single_stage_tenancy_filtration() {
    let mut segment = Segment::new();

    upsert(&mut segment, Point { id: 1, vector: vec![0.1, 0.1, 0.1], payload: tenant("tenant_alpha") });
    upsert(&mut segment, Point { id: 2, vector: vec![0.9, 0.9, 0.9], payload: tenant("tenant_beta") });

    let query = vec![0.12, 0.12, 0.12];

    let filter_alpha = Filter::new("tenant_alpha".to_string());
    let hits_alpha = search(&segment, &query, 2, DistanceMetric::Cosine, Some(&filter_alpha));

    assert_eq!(
        hits_alpha.len(),
        1,
        "Filtration wall should drop tenant_beta completely from results"
    );
    assert_eq!(
        hits_alpha[0].0, 1,
        "The engine returned the incorrect entity key under tenant filtering"
    );

    let filter_beta = Filter::new("tenant_beta".to_string());
    let hits_beta = search(&segment, &query, 2, DistanceMetric::Cosine, Some(&filter_beta));

    assert_eq!(hits_beta.len(), 1);
    assert_eq!(
        hits_beta[0].0, 2,
        "The gatekeeper failed to safely expose isolation regions for tenant_beta"
    );
}

/// A filter on a tenant with no points gives no hits.
#[test]
fn test_storage_filtration_with_non_existent_tenant() {
    let mut segment = Segment::new();
    upsert(&mut segment, Point { id: 100, vector: vec![0.1, 0.2, 0.3], payload: tenant("tenant_alpha") });

    let query = vec![0.1, 0.2, 0.3];
    let filter_omega = Filter::new("tenant_omega".to_string());

    let hits = search(&segment, &query, 5, DistanceMetric::Cosine, Some(&filter_omega));

    assert!(
        hits.is_empty(),
        "The filtering gatekeeper failed to short-circuit and return an empty payload vector on missing tenant contexts"
    );
}

/// Tenant filtering on the graph path: no point of another tenant leaks.
#[test]
fn test_storage_hnsw_graph_navigational_tenancy_filtration() {
    let mut segment = Segment::new();

    for i in 0..600u64 {
        let tenant_name = if i % 2 == 0 { "tenant_alpha" } else { "tenant_beta" };
        upsert(&mut segment, Point { id: i, vector: vec![i as f32 * 0.001, 0.5, 0.5], payload: tenant(tenant_name) });
    }

    let query = vec![0.5, 0.5, 0.5];
    let filter_alpha = Filter::new("tenant_alpha".to_string());

    let hits = search(
        &segment,
        &query,
        10,
        DistanceMetric::HighPrecisionEuclidean,
        Some(&filter_alpha),
    );

    assert!(
        !hits.is_empty(),
        "Graph routing paths collapsed under filtered cluster navigation passes"
    );

    for hit in hits {
        let point_id = hit.0;
        assert_eq!(
            point_id % 2,
            0,
            "TOPOLOGICAL LEAKAGE DETECTED: Node {} (tenant_beta) leaked into tenant_alpha HNSW search tracks!",
            point_id
        );
    }
}

/// Points without a payload never pass a tenant filter.
#[test]
fn test_storage_filtration_handles_missing_payloads_safely() {
    let mut segment = Segment::new();
    upsert(&mut segment, Point { id: 777, vector: vec![0.1, 0.2, 0.3], payload: None });

    let query = vec![0.1, 0.2, 0.3];
    let filter_alpha = Filter::new("tenant_alpha".to_string());
    let hits = search(&segment, &query, 1, DistanceMetric::Cosine, Some(&filter_alpha));

    assert!(
        hits.is_empty(),
        "The evaluation engine cross-contaminated search records by letting blank payloads pass validation checkpoints"
    );
}

#[test]
fn upsert_exists_delete_lifecycle() {
    let mut segment = Segment::new();
    assert!(!segment.point_exists(5));
    upsert(&mut segment, Point { id: 5, vector: vec![1.0, 0.0], payload: tenant("a") });
    assert!(segment.point_exists(5));
    assert!(segment.stores(5));
    assert_eq!(segment.count(None), 1);
    assert_eq!(segment.count(Some("a")), 1);
    assert_eq!(segment.count(Some("b")), 0);
    assert!(segment.delete(5));
    assert!(!segment.point_exists(5));
    assert!(!segment.stores(5));
    assert_eq!(segment.count(None), 0);
    assert_eq!(segment.count(Some("a")), 0);
    // a second delete finds nothing
    assert!(!segment.delete(5));
    assert_eq!(segment.deleted_bits().len(), 6);
    assert!(segment.deleted_bits()[5]);
    // upserting again clears the tombstone
    upsert(&mut segment, Point { id: 5, vector: vec![1.0, 0.0], payload: None });
    assert!(segment.point_exists(5));
    assert!(!segment.deleted_bits()[5]);
}

#[test]
fn update_counts_once() {
    let mut segment = Segment::new();
    upsert(&mut segment, Point { id: 1, vector: vec![1.0, 0.0], payload: tenant("a") });
    upsert(&mut segment, Point { id: 1, vector: vec![0.0, 1.0], payload: tenant("a") });
    assert_eq!(segment.count(None), 1);
    assert_eq!(segment.count(Some("a")), 1);
    upsert(&mut segment, Point { id: 2, vector: vec![0.0, 1.0], payload: tenant("a") });
    assert_eq!(segment.count(Some("a")), 2);
}

#[test]
fn retenanted_point_moves_between_tenant_counts() {
    // An update that names another tenant moves the point's count across;
    // its delete then takes it from the new tenant.
    let mut segment = Segment::new();
    upsert(&mut segment, Point { id: 1, vector: vec![1.0, 0.0], payload: tenant("a") });
    upsert(&mut segment, Point { id: 1, vector: vec![1.0, 0.0], payload: tenant("b") });
    assert_eq!(segment.count(None), 1);
    assert_eq!(segment.count(Some("a")), 0);
    assert_eq!(segment.count(Some("b")), 1);
    // an update that drops the payload leaves no tenant counting it
    upsert(&mut segment, Point { id: 1, vector: vec![1.0, 0.0], payload: None });
    assert_eq!(segment.count(Some("b")), 0);
    upsert(&mut segment, Point { id: 1, vector: vec![1.0, 0.0], payload: tenant("b") });
    assert!(segment.delete(1));
    assert_eq!(segment.count(Some("a")), 0);
    assert_eq!(segment.count(Some("b")), 0);
    assert_eq!(segment.count(None), 0);
}

#[test]
fn deleted_points_are_not_found() {
    let mut segment = Segment::new();
    upsert(&mut segment, Point { id: 1, vector: vec![1.0, 0.0], payload: None });
    upsert(&mut segment, Point { id: 2, vector: vec![0.9, 0.1], payload: None });
    assert!(segment.delete(1));
    let hits = search(&segment, &[1.0, 0.0], 5, DistanceMetric::Cosine, None);
    assert_eq!(hits.len(), 1);
    assert_eq!(hits[0].0, 2);
}

#[test]
fn exact_ranking_by_metric() {
    let mut segment = Segment::new();
    upsert(&mut segment, Point { id: 1, vector: vec![1.0, 0.0], payload: None });
    upsert(&mut segment, Point { id: 2, vector: vec![2.0, 0.0], payload: None });
    upsert(&mut segment, Point { id: 3, vector: vec![3.0, 0.0], payload: None });
    upsert(&mut segment, Point { id: 4, vector: vec![1.0, 0.0, 0.0], payload: None });
    let hits = search(&segment, &[1.0, 0.0], 10, DistanceMetric::DotProduct, None);
    // the point of another dimension cannot be scored and is left out
    assert_eq!(hits.iter().map(|h| h.0).collect::<Vec<_>>(), vec![3, 2, 1]);
    assert_eq!(score_of(&hits[0]), 3.0);
    let hits = search(&segment, &[2.1, 0.0], 2, DistanceMetric::HighPrecisionEuclidean, None);
    assert_eq!(hits.iter().map(|h| h.0).collect::<Vec<_>>(), vec![2, 3]);
    let hits = search(&segment, &[2.1, 0.0], 0, DistanceMetric::HighPrecisionEuclidean, None);
    assert!(hits.is_empty());
}

#[test]
fn snapshot_round_trip_in_memory() {
    let mut source = Segment::new();
    upsert(&mut source, Point { id: 1337, vector: vec![0.1, 0.2, 0.3, 0.4], payload: tenant("t") });
    upsert(&mut source, Point { id: 7, vector: vec![0.4, 0.3, 0.2, 0.1], payload: None });
    assert!(source.delete(7));

    let entries: Vec<(u64, Point<Vec<f32>>)> = source
        .points()
        .iter()
        .map(|(k, p)| {
            (*k, Point { id: p.id, vector: p.vector.clone(), payload: fastvect::payload::clone_payload(&p.payload) })
        })
        .collect();
    let mut index = fastvect::hnsw::HNSWIndex::new(16, 64, 32);
    let src_index = source.index();
    index.enter_node = src_index.enter_node;
    index.max_current_level = src_index.max_current_level;
    for k in fastvect::hnsw::node_ids(&src_index.nodes) {
        let n = fastvect::hnsw::node_of(&src_index.nodes, k).unwrap();
        let mut node = fastvect::hnsw::HNSWNode::new(n.point_id);
        for l in 0..16 {
            node.neighbors[l] = n.neighbors[l].clone();
        }
        fastvect::hnsw::file_node(&mut index.nodes, k, node);
    }
    let bits = source.deleted_bits().clone();

    let mut restored = Segment::new();
    // what the target held before is gone, its tenant counts too
    upsert(&mut restored, Point { id: 9, vector: vec![0.0, 1.0, 0.0, 0.0], payload: tenant("x") });
    assert_eq!(restored.count(Some("x")), 1);
    restored.restore(entries, index, bits);
    assert_eq!(restored.count(None), 1);
    assert_eq!(restored.count(Some("x")), 0);
    assert_eq!(restored.count(Some("t")), 1);
    assert!(!restored.point_exists(9));
    assert!(restored.point_exists(1337));
    assert!(!restored.point_exists(7));
    let hits = search(&restored, &[0.1, 0.2, 0.3, 0.4], 1, DistanceMetric::Cosine, None);
    assert_eq!(hits.len(), 1);
    assert_eq!(hits[0].0, 1337);
    assert!(score_of(&hits[0]) > 0.99);
}

#[test]
fn snapshot_with_misfiled_point_loads_as_it_stands() {
    let mut segment: Segment<Vec<f32>> = Segment::new();
    upsert(&mut segment, Point { id: 3, vector: vec![1.0], payload: None });
    let entries = vec![(4u64, Point { id: 5, vector: vec![1.0f32], payload: None })];
    segment.restore(entries, fastvect::hnsw::HNSWIndex::new(16, 64, 32), Vec::new());
    assert!(!segment.point_exists(3));
    assert!(segment.point_exists(4));
    assert!(!segment.point_exists(5));
    assert_eq!(segment.count(None), 1);
    // the scan reports the identifier the point carries
    let hits = search(&segment, &[1.0], 5, DistanceMetric::DotProduct, None);
    assert_eq!(hits.iter().map(|h| h.0).collect::<Vec<_>>(), vec![5]);
}

#[test]
fn snapshot_with_tombstoned_point_loads_as_it_stands() {
    let mut segment: Segment<Vec<f32>> = Segment::new();
    upsert(&mut segment, Point { id: 3, vector: vec![1.0], payload: tenant("x") });
    let entries = vec![
        (1u64, Point { id: 1, vector: vec![1.0f32], payload: None }),
        (2u64, Point { id: 2, vector: vec![1.0f32], payload: None }),
    ];
    segment.restore(entries, fastvect::hnsw::HNSWIndex::new(16, 64, 32), vec![false, false, true]);
    assert!(segment.point_exists(1));
    assert!(!segment.point_exists(2));
    assert!(!segment.point_exists(3));
    // the count is of stored points, the tombstoned one among them
    assert_eq!(segment.count(None), 2);
    assert_eq!(segment.count(Some("x")), 0);
    let hits = search(&segment, &[1.0], 5, DistanceMetric::DotProduct, None);
    assert_eq!(hits.iter().map(|h| h.0).collect::<Vec<_>>(), vec![1]);
}

#[test]
fn restoring_an_empty_snapshot_clears_the_counts() {
    let mut segment: Segment<Vec<f32>> = Segment::new();
    upsert(&mut segment, Point { id: 3, vector: vec![1.0], payload: tenant("x") });
    segment.restore(Vec::new(), fastvect::hnsw::HNSWIndex::new(16, 64, 32), Vec::new());
    assert_eq!(segment.count(None), 0);
    assert_eq!(segment.count(Some("x")), 0);
}

#[test]
fn history_of_upserts_and_deletes() {
    let mut segment = Segment::new();
    upsert(&mut segment, Point { id: 1, vector: vec![1.0, 0.0], payload: tenant("a") });
    upsert(&mut segment, Point { id: 2, vector: vec![0.0, 1.0], payload: tenant("a") });
    assert!(segment.delete(1));
    upsert(&mut segment, Point { id: 3, vector: vec![1.0, 1.0], payload: None });
    assert!(!segment.delete(1));
    assert!(!segment.point_exists(1));
    assert!(segment.point_exists(2));
    assert!(segment.point_exists(3));
    assert_eq!(segment.count(None), 2);
    assert_eq!(segment.count(Some("a")), 1);
    for limit in [0usize, 1, 5] {
        let hits = search(&segment, &[1.0, 0.0], limit, DistanceMetric::Cosine, None);
        assert!(hits.iter().all(|h| h.0 != 1));
        assert!(hits.len() <= limit);
    }
    upsert(&mut segment, Point { id: 1, vector: vec![1.0, 0.0], payload: None });
    assert!(segment.point_exists(1));
    assert_eq!(segment.count(None), 3);
}

#[test]
fn exact_search_leaves_out_only_worse_points() {
    let mut points = std::collections::HashMap::new();
    for id in 1..=8u64 {
        points.insert(id, Point { id, vector: (id * 3) % 8, payload: None });
    }
    for q in 0..9u64 {
        for limit in 0..10usize {
            let score = |v: &u64| Some(v.abs_diff(q) as u32);
            let hits = fastvect::exact::search_exact_knn(
                &score,
                limit,
                DistanceMetric::HighPrecisionEuclidean,
                &points,
                None,
                &Vec::new(),
            );
            assert_eq!(hits.len(), limit.min(8));
            let worst = hits.iter().map(|h| h.1).max();
            for (id, p) in points.iter() {
                if !hits.iter().any(|h| h.0 == *id) {
                    assert_eq!(hits.len(), limit);
                    assert!(p.vector.abs_diff(q) as u32 >= worst.unwrap_or(0));
                }
            }
            for w in hits.windows(2) {
                assert!(w[0].1 <= w[1].1);
            }
        }
    }
}
