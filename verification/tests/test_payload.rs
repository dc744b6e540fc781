use fastvect::filter::Filter;
use fastvect::payload::{clone_payload, payload_tenant, Payload, PayloadValue, KEYWORD_MAX_CHARS};

fn tenant_payload(value: PayloadValue) -> Option<Payload> {
    let mut p = Payload::new();
    p.insert("tenant_id".to_string(), value);
    Some(p)
}

#[test]
fn payload_insert_get_and_replace() {
    let mut p = Payload::new();
    assert!(p.get("a").is_none());
    assert_eq!(p.insert("a".to_string(), PayloadValue::Integer(1)), None);
    assert_eq!(p.insert("b".to_string(), PayloadValue::Integer(2)), None);
    assert_eq!(p.get("a"), Some(&PayloadValue::Integer(1)));
    // read after write on the same key gives the new value back
    assert_eq!(
        p.insert("a".to_string(), PayloadValue::Float(1.5f64.to_bits())),
        Some(PayloadValue::Integer(1))
    );
    assert_eq!(p.get("a"), Some(&PayloadValue::Float(1.5f64.to_bits())));
    assert_eq!(p.get("b"), Some(&PayloadValue::Integer(2)));
    assert_eq!(p.entries().len(), 2);
}

#[test]
fn payload_clone_keeps_entries() {
    let p = tenant_payload(PayloadValue::Keyword("alpha".to_string()));
    let q = clone_payload(&p);
    assert_eq!(
        q.as_ref().unwrap().get("tenant_id"),
        Some(&PayloadValue::Keyword("alpha".to_string()))
    );
    assert!(clone_payload(&None).is_none());
}

#[test]
fn string_values_are_filed_by_length() {
    let short = "x".repeat(KEYWORD_MAX_CHARS);
    let long = "x".repeat(KEYWORD_MAX_CHARS + 1);
    assert_eq!(PayloadValue::from_string(short.clone()), PayloadValue::Keyword(short));
    assert_eq!(PayloadValue::from_string(long.clone()), PayloadValue::Text(long));
    // the limit counts characters, not bytes: 64 two-byte characters are a
    // keyword, 65 of them text.
    let wide = "é".repeat(64);
    assert_eq!(PayloadValue::from_string(wide.clone()), PayloadValue::Keyword(wide));
    let wider = "é".repeat(65);
    assert_eq!(PayloadValue::from_string(wider.clone()), PayloadValue::Text(wider));
}

#[test]
fn tenant_of_keyword_and_text() {
    let k = tenant_payload(PayloadValue::Keyword("alpha".to_string()));
    let t = tenant_payload(PayloadValue::Text("beta".to_string()));
    let i = tenant_payload(PayloadValue::Integer(7));
    assert_eq!(payload_tenant(&k).map(|s| s.as_str()), Some("alpha"));
    assert_eq!(payload_tenant(&t).map(|s| s.as_str()), Some("beta"));
    assert_eq!(payload_tenant(&i), None);
    assert_eq!(payload_tenant(&None), None);
    assert_eq!(payload_tenant(&Some(Payload::new())), None);
}

#[test]
fn filter_matches_tenant() {
    let alpha = Filter::new("alpha".to_string());
    assert_eq!(alpha.tenant_id, "alpha");
    assert!(alpha.matches(&tenant_payload(PayloadValue::Keyword("alpha".to_string()))));
    assert!(alpha.matches(&tenant_payload(PayloadValue::Text("alpha".to_string()))));
    assert!(!alpha.matches(&tenant_payload(PayloadValue::Keyword("beta".to_string()))));
    assert!(!alpha.matches(&tenant_payload(PayloadValue::Integer(1))));
    assert!(!alpha.matches(&None));
    let mut other_key = Payload::new();
    other_key.insert("tenant".to_string(), PayloadValue::Keyword("alpha".to_string()));
    assert!(!alpha.matches(&Some(other_key)));
}
