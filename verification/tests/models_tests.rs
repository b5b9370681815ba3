use catchhook::codec::{decode_record, encode_record};
use catchhook::models::{LatestResponse, StoredRequest};

fn roundtrip(request: &StoredRequest) -> StoredRequest {
    let encoded = encode_record(request);
    decode_record(&encoded).expect("an encoded record must decode")
}

#[test]
fn test_stored_request_serialization() {
    let request = StoredRequest {
        id: 1,
        ts_ms: 1234567890,
        method: "POST".to_string(),
        path: "/webhook".to_string(),
        headers: vec![("content-type".to_string(), "application/json".to_string())],
        body: b"test data".to_vec(),
    };

    let deserialized = roundtrip(&request);

    assert_eq!(request.id, deserialized.id);
    assert_eq!(request.method, deserialized.method);
    assert_eq!(request.path, deserialized.path);
    assert_eq!(request.body, deserialized.body);
}

#[test]
fn test_latest_response_creation() {
    let requests = vec![
        StoredRequest {
            id: 1,
            ts_ms: 1234567890,
            method: "GET".to_string(),
            path: "/test".to_string(),
            headers: vec![],
            body: vec![],
        },
        StoredRequest {
            id: 2,
            ts_ms: 1234567891,
            method: "POST".to_string(),
            path: "/webhook".to_string(),
            headers: vec![],
            body: vec![],
        },
    ];

    let response = LatestResponse {
        count: requests.len(),
        items: requests.clone(),
    };

    assert_eq!(response.count, 2);
    assert_eq!(response.items.len(), 2);
    assert_eq!(response.items[0].id, 1);
    assert_eq!(response.items[1].id, 2);
}

#[test]
fn test_roundtrip_empty_body_and_headers() {
    let request = StoredRequest {
        id: 7,
        ts_ms: -42,
        method: "GET".to_string(),
        path: "".to_string(),
        headers: vec![],
        body: vec![],
    };

    let deserialized = roundtrip(&request);
    assert_eq!(deserialized.id, 7);
    assert_eq!(deserialized.ts_ms, -42);
    assert_eq!(deserialized.method, "GET");
    assert_eq!(deserialized.path, "");
    assert!(deserialized.headers.is_empty());
    assert!(deserialized.body.is_empty());
}

#[test]
fn test_roundtrip_null_bytes_and_repeated_headers() {
    let request = StoredRequest {
        id: u64::MAX,
        ts_ms: i64::MIN,
        method: "PÖST✓".to_string(),
        path: "/päth?q=ü".to_string(),
        headers: vec![
            ("x-dup".to_string(), "one".to_string()),
            ("x-dup".to_string(), "two".to_string()),
            ("empty".to_string(), "".to_string()),
        ],
        body: vec![0, 255, 0, 1, 2, 0],
    };

    let deserialized = roundtrip(&request);
    assert_eq!(deserialized.id, u64::MAX);
    assert_eq!(deserialized.ts_ms, i64::MIN);
    assert_eq!(deserialized.method, "PÖST✓");
    assert_eq!(deserialized.path, "/päth?q=ü");
    assert_eq!(
        deserialized.headers,
        vec![
            ("x-dup".to_string(), "one".to_string()),
            ("x-dup".to_string(), "two".to_string()),
            ("empty".to_string(), "".to_string()),
        ]
    );
    assert_eq!(deserialized.body, vec![0, 255, 0, 1, 2, 0]);
}

#[test]
fn test_encoding_exact_bytes() {
    let request = StoredRequest {
        id: 1,
        ts_ms: 2,
        method: "A".to_string(),
        path: "".to_string(),
        headers: vec![],
        body: vec![0xff],
    };

    let mut expected: Vec<u8> = Vec::new();
    expected.extend_from_slice(&1u64.to_le_bytes());
    expected.extend_from_slice(&2u64.to_le_bytes());
    expected.extend_from_slice(&1u64.to_le_bytes());
    expected.push(b'A');
    expected.extend_from_slice(&0u64.to_le_bytes());
    expected.extend_from_slice(&0u64.to_le_bytes());
    expected.extend_from_slice(&1u64.to_le_bytes());
    expected.push(0xff);

    assert_eq!(encode_record(&request), expected);
}

#[test]
fn test_decode_rejects_garbage() {
    assert!(decode_record(&vec![]).is_none());
    assert!(decode_record(&vec![1, 2, 3]).is_none());
    let short = vec![0u8; 16];
    assert!(decode_record(&short).is_none());

    let request = StoredRequest {
        id: 3,
        ts_ms: 4,
        method: "PUT".to_string(),
        path: "/x".to_string(),
        headers: vec![("a".to_string(), "b".to_string())],
        body: vec![9, 9],
    };
    let mut encoded = encode_record(&request);
    encoded.pop();
    assert!(decode_record(&encoded).is_none());

    let mut trailing = encode_record(&request);
    trailing.push(0);
    assert!(decode_record(&trailing).is_none());
}

#[test]
fn test_decode_rejects_invalid_utf8() {
    let request = StoredRequest {
        id: 3,
        ts_ms: 4,
        method: "GET".to_string(),
        path: "/x".to_string(),
        headers: vec![],
        body: vec![],
    };
    let mut encoded = encode_record(&request);
    // The method chunk's bytes sit right after the two 8-byte fields and the
    // 8-byte length prefix; 0xff alone is never valid UTF-8.
    encoded[24] = 0xff;
    assert!(decode_record(&encoded).is_none());
}

#[test]
fn test_latest_response_of() {
    let items = vec![StoredRequest {
        id: 1,
        ts_ms: 0,
        method: "GET".to_string(),
        path: "/".to_string(),
        headers: vec![],
        body: vec![],
    }];
    let response = LatestResponse::of(items);
    assert_eq!(response.count, 1);
    assert_eq!(response.items.len(), 1);
}
