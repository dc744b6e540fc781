use fastvect::payload::{Payload, PayloadValue};
use fastvect::point::Point;

/// The unstructured payload carries polymorphic values for a semantic cache.
#[test]
fn test_semantic_cache_payload_structure() {
    let mut cache_payload = Payload::new();

    cache_payload.insert(
        "cached_response".to_string(),
        PayloadValue::Text(
            "{\"result\": \"Successfully generated completions API response.\"}".to_string(),
        ),
    );
    cache_payload.insert("status_code".to_string(), PayloadValue::Integer(200));

    let cache_point = Point {
        id: 1,
        vector: vec![0.15f32, 0.22, 0.88],
        payload: Some(cache_payload),
    };

    assert_eq!(cache_point.id, 1);
    if let Some(payload) = cache_point.payload {
        match payload.get("cached_response").unwrap() {
            PayloadValue::Text(text) => assert!(text.contains("Successfully generated")),
            _ => panic!(
                "Type assertion error: Payload data must resolve exactly to PayloadValue::Text"
            ),
        }
    }
}
