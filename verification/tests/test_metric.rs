use fastvect::metric::{metric_for_lowercase_name, parse_metric, text_eq, DistanceMetric};

#[test]
fn parse_metric_names() {
    assert_eq!(parse_metric("dot_product"), Some(DistanceMetric::DotProduct));
    assert_eq!(parse_metric("dot"), Some(DistanceMetric::DotProduct));
    assert_eq!(parse_metric("cosine"), Some(DistanceMetric::Cosine));
    assert_eq!(parse_metric("euclidean"), Some(DistanceMetric::HighPrecisionEuclidean));
    assert_eq!(parse_metric("l2"), Some(DistanceMetric::HighPrecisionEuclidean));
    assert_eq!(parse_metric("manhattan"), None);
    assert_eq!(parse_metric(""), None);
}

#[test]
fn parse_metric_ignores_letter_case() {
    // Would fail if the lower-casing handed its argument back unchanged.
    assert_eq!(parse_metric("COSINE"), Some(DistanceMetric::Cosine));
    assert_eq!(parse_metric("Dot_Product"), Some(DistanceMetric::DotProduct));
    assert_eq!(parse_metric("L2"), Some(DistanceMetric::HighPrecisionEuclidean));
}

#[test]
fn lowercase_table_is_exact() {
    assert_eq!(metric_for_lowercase_name("COSINE"), None);
    assert_eq!(metric_for_lowercase_name("cosine "), None);
    assert_eq!(metric_for_lowercase_name("cos"), None);
}

#[test]
fn metric_direction() {
    assert!(DistanceMetric::DotProduct.higher_is_closer());
    assert!(DistanceMetric::Cosine.higher_is_closer());
    assert!(!DistanceMetric::HighPrecisionEuclidean.higher_is_closer());
}

#[test]
fn text_equality() {
    assert!(text_eq("tenant", "tenant"));
    assert!(!text_eq("tenant", "tenants"));
    assert!(text_eq("", ""));
    assert!(text_eq("é", "é"));
    assert!(!text_eq("é", "e"));
}
