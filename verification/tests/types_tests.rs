use omnikv::types::{GetResponse, KeyValue, PutRequest, PutResponse};

#[test]
fn key_values_compare_by_contents() {
    let a = KeyValue { key: "k".to_string(), value: "v".to_string() };
    let b = KeyValue { key: "k".to_string(), value: "v".to_string() };
    let c = KeyValue { key: "k".to_string(), value: "w".to_string() };
    assert!(a == b);
    assert!(a != c);
    assert!(a.clone() == a);
}

#[test]
fn request_and_response_shapes_round_trip_through_clone() {
    let req = PutRequest {
        key: "k".to_string(),
        value: "v".to_string(),
        lease: 0,
        prev_kv: true,
        ignore_value: false,
        ignore_lease: false,
    };
    let req2 = req.clone();
    assert_eq!(req2.key, "k");
    assert_eq!(req2.value, "v");
    assert!(req2.prev_kv);

    let resp = PutResponse { prev_kv: Some(KeyValue { key: "k".to_string(), value: "v".to_string() }) };
    let resp2 = resp.clone();
    assert!(resp2.prev_kv.unwrap() == KeyValue { key: "k".to_string(), value: "v".to_string() });

    let get = GetResponse { key: "k".to_string(), value: None };
    let get2 = get.clone();
    assert_eq!(get2.key, "k");
    assert_eq!(get2.value, None);
}
