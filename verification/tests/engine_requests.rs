use loaded::checksum::Checksum;
use loaded::engine::{S3Engine, SimpleEngine};
use loaded::stream::PerpetualByteStreamSupplier;
use loaded::traffic::TrafficPattern;
use loaded::uri::UriProvider;

fn provider() -> UriProvider {
    UriProvider::new(
        "http://stub".to_string(),
        "b".to_string(),
        "p".to_string(),
        0,
        2,
        0,
    )
}

#[test]
fn simple_engine_declared_size() {
    let with_body = SimpleEngine {
        method: "POST".to_string(),
        headers: vec![("X-Key".to_string(), "v".to_string())],
        body: Some(b"hi".to_vec()),
    };
    assert_eq!(with_body.declared_size(), 2);
    assert_eq!(with_body.name(), "simple");

    let without_body = SimpleEngine {
        method: "GET".to_string(),
        headers: Vec::new(),
        body: None,
    };
    assert_eq!(without_body.declared_size(), 0);
}

#[test]
fn s3_put_carries_checksum_and_length_headers() {
    let supplier = PerpetualByteStreamSupplier::new_with_stride(b"abc".to_vec(), 0, 3, 3);
    let mut engine = S3Engine::new(supplier, provider(), 3, Some(Checksum::Md5), TrafficPattern::Put);
    assert_eq!(engine.name(), "s3");

    let plan = engine.request("20240101T000000Z".to_string(), "agent/1".to_string());
    assert!(plan.is_put);
    assert_eq!(plan.uri, "http://stub/b/p0");
    assert_eq!(plan.declared_size, 3);
    assert_eq!(
        plan.headers,
        vec![
            (
                "Content-MD5".to_string(),
                "900150983cd24fb0d6963f7d28e17f72".to_string()
            ),
            ("User-Agent".to_string(), "agent/1".to_string()),
            (
                "Content-Type".to_string(),
                "application/octet-stream".to_string()
            ),
            ("Content-Length".to_string(), "3".to_string()),
            ("X-Amz-Date".to_string(), "20240101T000000Z".to_string()),
        ]
    );
    let mut body = plan.body.expect("a PUT carries a body stream");
    assert_eq!(body.collect_remaining(), b"abc".to_vec());
}

#[test]
fn s3_get_requests_are_bodiless() {
    let supplier = PerpetualByteStreamSupplier::new_with_stride(b"abc".to_vec(), 0, 3, 3);
    let mut engine = S3Engine::new(supplier, provider(), 3, None, TrafficPattern::Get);

    let plan = engine.request("20240101T000000Z".to_string(), "agent/1".to_string());
    assert!(!plan.is_put);
    assert_eq!(plan.declared_size, 0);
    assert!(plan.body.is_none());
    assert_eq!(
        plan.headers,
        vec![(
            "Accept".to_string(),
            "application/octet-stream".to_string()
        )]
    );
}

#[test]
fn s3_both_pattern_alternates_and_reuses_uri() {
    let supplier = PerpetualByteStreamSupplier::new_with_stride(b"abc".to_vec(), 0, 3, 3);
    let mut engine = S3Engine::new(supplier, provider(), 3, None, TrafficPattern::Both);

    let date = "20240101T000000Z".to_string();
    let ua = "agent/1".to_string();
    let p1 = engine.request(date.clone(), ua.clone());
    let p2 = engine.request(date.clone(), ua.clone());
    let p3 = engine.request(date.clone(), ua.clone());
    let p4 = engine.request(date.clone(), ua.clone());

    assert!(p1.is_put && !p2.is_put && p3.is_put && !p4.is_put);
    assert_eq!(p1.uri, "http://stub/b/p0");
    assert_eq!(p2.uri, "http://stub/b/p0");
    assert_eq!(p3.uri, "http://stub/b/p1");
    assert_eq!(p4.uri, "http://stub/b/p1");
}

#[test]
fn s3_size_mismatch_warning_for_short_get_only() {
    let supplier = PerpetualByteStreamSupplier::new_with_stride(b"abc".to_vec(), 0, 3, 3);
    let mut engine = S3Engine::new(supplier, provider(), 3, None, TrafficPattern::Get);
    let date = "20240101T000000Z".to_string();
    let ua = "agent/1".to_string();

    let _ = engine.request(date.clone(), ua.clone());
    assert!(engine.response_size_mismatch(true, 2));
    assert!(!engine.response_size_mismatch(true, 3));
    assert!(!engine.response_size_mismatch(false, 2));

    let supplier = PerpetualByteStreamSupplier::new_with_stride(b"abc".to_vec(), 0, 3, 3);
    let mut put_engine = S3Engine::new(supplier, provider(), 3, None, TrafficPattern::Put);
    let _ = put_engine.request(date, ua);
    assert!(!put_engine.response_size_mismatch(true, 2));
}
