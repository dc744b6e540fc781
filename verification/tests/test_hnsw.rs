use fastvect::hnsw::{node_of, HNSWIndex};
use fastvect::point::Point;
use fastvect::score::order_key;
use std::collections::HashMap;

fn cosine_distance_key(a: &[f32], b: &[f32]) -> u32 {
    let d = if a.len() != b.len() {
        f32::MAX
    } else {
        let dot: f32 = a.iter().zip(b.iter()).map(|(&x, &y)| x * y).sum();
        let na = a.iter().map(|&x| x * x).sum::<f32>().sqrt();
        let nb = b.iter().map(|&x| x * x).sum::<f32>().sqrt();
        if na == 0.0 || nb == 0.0 {
            f32::MAX
        } else {
            1.0 - dot / (na * nb)
        }
    };
    order_key(d.to_bits())
}

/// Graph construction: entry point on cold start, and the second vertex
/// stored and linked.
#[test]
fn test_hnsw_index_dynamic_insertion_flow() {
    let mut index = HNSWIndex::new(4, 16, 16);
    let mut points_ref = HashMap::new();

    let p1 = Point {
        id: 1,
        vector: vec![1.0f32, 0.0],
        payload: None,
    };
    let p2 = Point {
        id: 2,
        vector: vec![0.0f32, 1.0],
        payload: None,
    };

    points_ref.insert(1, p1);
    points_ref.insert(2, p2);

    let v1 = points_ref.get(&1).unwrap().vector.clone();
    index.insert(1, 0, &|v: &Vec<f32>| cosine_distance_key(&v1, v), &points_ref);
    assert_eq!(
        index.enter_node,
        Some(1),
        "Cold-start graph deployment must declare the primary vector index as the global entry point link"
    );

    let v2 = points_ref.get(&2).unwrap().vector.clone();
    index.insert(2, 0, &|v: &Vec<f32>| cosine_distance_key(&v2, v), &points_ref);
    assert!(
        node_of(&index.nodes, 2).is_some(),
        "The relational graph adjacency registry must store and track the secondary coordinate point"
    );

    let inserted_node = node_of(&index.nodes, 2).unwrap();
    assert_eq!(inserted_node.point_id, 2);
    // the new vertex links to the entry on level 0, and the entry links back
    assert_eq!(inserted_node.neighbors[0], vec![1]);
    assert_eq!(node_of(&index.nodes, 1).unwrap().neighbors[0], vec![2]);
}

#[test]
fn insert_raises_entry_on_higher_level() {
    let mut index = HNSWIndex::new(2, 16, 16);
    let mut points = HashMap::new();
    for id in 1..=3u64 {
        points.insert(id, Point { id, vector: vec![id as f32, 1.0f32], payload: None });
    }
    let v = points.get(&1).unwrap().vector.clone();
    index.insert(1, 0, &|w: &Vec<f32>| cosine_distance_key(&v, w), &points);
    let v = points.get(&2).unwrap().vector.clone();
    index.insert(2, 3, &|w: &Vec<f32>| cosine_distance_key(&v, w), &points);
    assert_eq!(index.enter_node, Some(2));
    assert_eq!(index.max_current_level, 3);
    // linked on level 0 only (the old top), nothing above
    let n2 = node_of(&index.nodes, 2).unwrap();
    assert_eq!(n2.neighbors[0], vec![1]);
    assert!(n2.neighbors[1].is_empty());
    let v = points.get(&3).unwrap().vector.clone();
    index.insert(3, 1, &|w: &Vec<f32>| cosine_distance_key(&v, w), &points);
    let n3 = node_of(&index.nodes, 3).unwrap();
    assert_eq!(n3.neighbors[1].len(), 1);
    assert_eq!(n3.neighbors[0].len(), 1);
    assert!(n3.neighbors[2].is_empty());
    assert_eq!(index.enter_node, Some(2));
}

#[test]
fn search_on_empty_graph_is_empty() {
    let index = HNSWIndex::new(4, 16, 16);
    let points: HashMap<u64, Point<Vec<f32>>> = HashMap::new();
    let hits = index.search(
        &|_v: &Vec<f32>| 0u32,
        &|_v: &Vec<f32>| 0u32,
        5,
        fastvect::metric::DistanceMetric::Cosine,
        &points,
        None,
        &Vec::new(),
    );
    assert!(hits.is_empty());
}

/// Points on a line at 1..=5, inserted on level 0 in order: the graph is the
/// chain 1-2-3-4-5 with vertex 1 as entry.
fn chain(ef_search: usize, tenants: bool) -> (HNSWIndex, HashMap<u64, Point<u32>>) {
    let mut index = HNSWIndex::new(4, 16, ef_search);
    let mut points = HashMap::new();
    for id in 1..=5u64 {
        let payload = if tenants {
            let mut p = fastvect::payload::Payload::new();
            let name = if id % 2 == 1 { "odd" } else { "even" };
            p.insert(
                "tenant_id".to_string(),
                fastvect::payload::PayloadValue::Keyword(name.to_string()),
            );
            Some(p)
        } else {
            None
        };
        points.insert(id, Point { id, vector: id as u32, payload });
    }
    for id in 1..=5u64 {
        let x = id as u32;
        index.insert(id, 0, &|w: &u32| x.abs_diff(*w), &points);
    }
    (index, points)
}

fn line_search(
    index: &HNSWIndex,
    points: &HashMap<u64, Point<u32>>,
    q: u32,
    limit: usize,
    filter: Option<&fastvect::filter::Filter>,
) -> Vec<(u64, u32)> {
    index
        .search(
            &|w: &u32| q.abs_diff(*w),
            &|w: &u32| q.abs_diff(*w),
            limit,
            fastvect::metric::DistanceMetric::HighPrecisionEuclidean,
            points,
            filter,
            &Vec::new(),
        )
        .into_iter()
        .map(|(id, s, _)| (id, s))
        .collect()
}

#[test]
fn chain_graph_links_each_point_to_its_predecessor() {
    let (index, _) = chain(16, false);
    assert_eq!(index.enter_node, Some(1));
    assert_eq!(node_of(&index.nodes, 1).unwrap().neighbors[0], vec![2]);
    assert_eq!(node_of(&index.nodes, 3).unwrap().neighbors[0], vec![2, 4]);
    assert_eq!(node_of(&index.nodes, 5).unwrap().neighbors[0], vec![4]);
}

#[test]
fn graph_search_ranks_nearest_first_and_stops_at_limit() {
    let (index, points) = chain(16, false);
    assert_eq!(line_search(&index, &points, 3, 2, None), vec![(3, 0), (2, 1)]);
    // a limit past the pool keeps every pooled point; ties keep the pool's order
    assert_eq!(
        line_search(&index, &points, 3, 10, None),
        vec![(3, 0), (2, 1), (4, 1), (1, 2), (5, 2)]
    );
    // a limit of 0 asks for no hits
    assert!(line_search(&index, &points, 3, 0, None).is_empty());
}

#[test]
fn graph_search_keeps_at_most_ef_search_points() {
    let (index, points) = chain(2, false);
    assert_eq!(line_search(&index, &points, 3, 10, None), vec![(3, 0), (2, 1)]);
}

#[test]
fn graph_search_reports_no_point_twice() {
    let (index, points) = chain(16, false);
    for q in 0..8u32 {
        let hits = line_search(&index, &points, q, 10, None);
        let mut ids: Vec<u64> = hits.iter().map(|h| h.0).collect();
        ids.sort();
        ids.dedup();
        assert_eq!(ids.len(), hits.len());
    }
}

#[test]
fn graph_search_with_filter_reports_only_the_tenant() {
    let (index, points) = chain(16, true);
    let odd = fastvect::filter::Filter::new("odd".to_string());
    // routing stops at vertices the filter rejects: from the entry 1 the walk
    // meets only 2, which is rejected
    assert_eq!(line_search(&index, &points, 3, 10, Some(&odd)), vec![(1, 2)]);
    let even = fastvect::filter::Filter::new("even".to_string());
    // the entry is rejected but still expanded; 2 is admitted, and beyond it
    // the walk meets only rejected 3
    assert_eq!(line_search(&index, &points, 3, 10, Some(&even)), vec![(2, 1)]);
}
