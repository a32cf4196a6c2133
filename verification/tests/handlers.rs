//! Handler tests: exact response bodies for the three supported APIs and
//! the dispatcher's framing.

use kafka_broker::cluster::{parse_metadata_cluster, Cluster};
use kafka_broker::handlers::{api_version, describe_topic_partitions, fetch};
use kafka_broker::protocol::{Request, Response};
use kafka_broker::server::{dispatch, ServeError};

fn uvarint(mut v: u64) -> Vec<u8> {
    let mut out = Vec::new();
    while v >= 0x80 {
        out.push(((v & 0x7F) | 0x80) as u8);
        v >>= 7;
    }
    out.push(v as u8);
    out
}

fn svarint(v: i64) -> Vec<u8> {
    uvarint(((v << 1) ^ (v >> 63)) as u64)
}

fn make_request(api_key: u16, api_version: u16, body: &[u8]) -> Request {
    let mut p: Vec<u8> = Vec::new();
    p.extend_from_slice(&api_key.to_be_bytes());
    p.extend_from_slice(&api_version.to_be_bytes());
    p.extend_from_slice(&7u32.to_be_bytes());
    p.extend_from_slice(&0u16.to_be_bytes()); // empty client id
    p.push(0); // tagged-fields terminator
    p.extend_from_slice(body);
    let size = p.len() as u32;
    Request::new(size, p).unwrap()
}

fn describe_request_body(names: &[&[u8]]) -> Vec<u8> {
    let mut b = uvarint(names.len() as u64 + 1);
    for name in names {
        b.extend_from_slice(&uvarint(name.len() as u64 + 1));
        b.extend_from_slice(name);
        b.push(0); // per-topic tagged fields
    }
    b.extend_from_slice(&100u32.to_be_bytes()); // response partition limit
    b.push(0xFF); // null cursor
    b.push(0); // tagged fields
    b
}

fn fetch_request_body(topic_ids: &[u128]) -> Vec<u8> {
    let mut b = Vec::new();
    b.extend_from_slice(&500i32.to_be_bytes()); // max wait
    b.extend_from_slice(&1i32.to_be_bytes()); // min bytes
    b.extend_from_slice(&0x100000i32.to_be_bytes()); // max bytes
    b.push(0); // isolation level
    b.extend_from_slice(&0i32.to_be_bytes()); // session id
    b.extend_from_slice(&0i32.to_be_bytes()); // session epoch
    b.extend_from_slice(&uvarint(topic_ids.len() as u64 + 1));
    for id in topic_ids {
        b.extend_from_slice(&id.to_be_bytes());
        // One requested partition, as a real client sends.
        b.extend_from_slice(&uvarint(2));
        b.extend_from_slice(&0i32.to_be_bytes()); // partition
        b.extend_from_slice(&(-1i32).to_be_bytes()); // current leader epoch
        b.extend_from_slice(&0i64.to_be_bytes()); // fetch offset
        b.extend_from_slice(&(-1i32).to_be_bytes()); // last fetched epoch
        b.extend_from_slice(&(-1i64).to_be_bytes()); // log start offset
        b.extend_from_slice(&0x100000i32.to_be_bytes()); // partition max bytes
        b.push(0); // partition tagged fields
        b.push(0); // topic tagged fields
    }
    b.extend_from_slice(&uvarint(1)); // no forgotten topics
    b.extend_from_slice(&uvarint(1)); // empty rack id
    b.push(0); // tagged fields
    b
}

const UUID: u128 = 0xa0e9ccc66e0a47e581d4f12d9342cc7e;

fn known_topic_cluster() -> Cluster {
    // One batch holding one topic record and one partition record.
    let mut topic_value = vec![1u8, 2, 0];
    topic_value.extend_from_slice(&uvarint(4));
    topic_value.extend_from_slice(b"foo");
    topic_value.extend_from_slice(&UUID.to_be_bytes());
    topic_value.extend_from_slice(&uvarint(0));
    let mut partition_value = vec![1u8, 3, 0];
    partition_value.extend_from_slice(&7u32.to_be_bytes());
    partition_value.extend_from_slice(&UUID.to_be_bytes());
    partition_value.extend_from_slice(&uvarint(3)); // two replicas
    partition_value.extend_from_slice(&1u32.to_be_bytes());
    partition_value.extend_from_slice(&2u32.to_be_bytes());
    partition_value.extend_from_slice(&uvarint(2)); // one in-sync replica
    partition_value.extend_from_slice(&1u32.to_be_bytes());
    partition_value.extend_from_slice(&uvarint(1));
    partition_value.extend_from_slice(&uvarint(1));
    partition_value.extend_from_slice(&5u32.to_be_bytes()); // leader id
    partition_value.extend_from_slice(&9u32.to_be_bytes()); // leader epoch
    partition_value.extend_from_slice(&1u32.to_be_bytes()); // partition epoch
    partition_value.extend_from_slice(&uvarint(1));
    partition_value.extend_from_slice(&uvarint(0));
    let mut records = Vec::new();
    for value in [topic_value, partition_value] {
        let mut body = vec![0u8];
        body.extend_from_slice(&svarint(0));
        body.extend_from_slice(&svarint(0));
        body.extend_from_slice(&svarint(-1));
        body.extend_from_slice(&svarint(value.len() as i64));
        body.extend_from_slice(&value);
        body.extend_from_slice(&uvarint(0));
        records.push(body);
    }
    let mut batch_body = Vec::new();
    batch_body.extend_from_slice(&0u32.to_be_bytes());
    batch_body.push(2);
    batch_body.extend_from_slice(&0u32.to_be_bytes());
    batch_body.extend_from_slice(&0u16.to_be_bytes());
    batch_body.extend_from_slice(&0u32.to_be_bytes());
    batch_body.extend_from_slice(&0u64.to_be_bytes());
    batch_body.extend_from_slice(&0u64.to_be_bytes());
    batch_body.extend_from_slice(&(-1i64).to_be_bytes());
    batch_body.extend_from_slice(&(-1i16).to_be_bytes());
    batch_body.extend_from_slice(&(-1i32).to_be_bytes());
    batch_body.extend_from_slice(&2u32.to_be_bytes());
    for r in &records {
        batch_body.extend_from_slice(&svarint(r.len() as i64));
        batch_body.extend_from_slice(r);
    }
    let mut log = Vec::new();
    log.extend_from_slice(&0u64.to_be_bytes());
    log.extend_from_slice(&(batch_body.len() as u32).to_be_bytes());
    log.extend_from_slice(&batch_body);
    parse_metadata_cluster(log).unwrap()
}

#[test]
fn api_versions_v4_exact_body() {
    let req = make_request(18, 4, &[]);
    let mut res = Response::build_from_request(&req);
    api_version::handle(&req, &mut res);
    let expected: Vec<u8> = vec![
        0x00, 0x00, // error code
        0x04, // three entries plus one
        0x00, 0x12, 0x00, 0x00, 0x00, 0x04, 0x00, // api versions
        0x00, 0x4B, 0x00, 0x00, 0x00, 0x04, 0x00, // describe topic partitions
        0x00, 0x01, 0x00, 0x00, 0x00, 0x10, 0x00, // fetch
        0x00, 0x00, 0x00, 0x00, // throttle time
        0x00, // tagged fields
    ];
    assert_eq!(res.body, expected);
}

#[test]
fn api_versions_v99_is_error_35() {
    let req = make_request(18, 99, &[]);
    let mut res = Response::build_from_request(&req);
    api_version::handle(&req, &mut res);
    assert_eq!(res.body, vec![0x00, 0x23]);
}

#[test]
fn describe_unknown_topic_foo() {
    let cluster: Cluster = Vec::new();
    let req = make_request(75, 0, &describe_request_body(&[b"foo"]));
    let mut res = Response::build_from_request(&req);
    describe_topic_partitions::handle(&req, &mut res, &cluster).unwrap();
    let mut expected: Vec<u8> = vec![0, 0, 0, 0]; // throttle time
    expected.push(2); // one topic plus one
    expected.extend_from_slice(&[0x00, 0x03]); // unknown topic or partition
    expected.push(4); // name length plus one
    expected.extend_from_slice(b"foo");
    expected.extend_from_slice(&[0u8; 16]); // zero topic id
    expected.push(0); // is internal
    expected.push(1); // absent partition list
    expected.extend_from_slice(&[0x00, 0x00, 0x0D, 0xF8]); // authorized operations
    expected.push(0); // tagged fields
    expected.push(0xFF); // null next cursor
    expected.push(0); // tagged fields
    assert_eq!(res.body, expected);
}

#[test]
fn describe_known_topic_lists_partitions() {
    let cluster = known_topic_cluster();
    let req = make_request(75, 0, &describe_request_body(&[b"foo"]));
    let mut res = Response::build_from_request(&req);
    describe_topic_partitions::handle(&req, &mut res, &cluster).unwrap();
    let mut expected: Vec<u8> = vec![0, 0, 0, 0];
    expected.push(2);
    expected.extend_from_slice(&[0x00, 0x00]); // no error
    expected.push(4);
    expected.extend_from_slice(b"foo");
    expected.extend_from_slice(&UUID.to_be_bytes());
    expected.push(0); // is internal
    expected.push(2); // one partition plus one
    expected.extend_from_slice(&[0x00, 0x00]); // partition error code
    expected.extend_from_slice(&0u32.to_be_bytes()); // partition index
    expected.extend_from_slice(&5u32.to_be_bytes()); // leader id
    expected.extend_from_slice(&9u32.to_be_bytes()); // leader epoch
    expected.push(3); // two replicas plus one
    expected.extend_from_slice(&1u32.to_be_bytes());
    expected.extend_from_slice(&2u32.to_be_bytes());
    expected.push(2); // one in-sync replica plus one
    expected.extend_from_slice(&1u32.to_be_bytes());
    expected.extend_from_slice(&[1, 1, 1]); // three empty compact arrays
    expected.push(0); // partition tagged fields
    expected.extend_from_slice(&[0x00, 0x00, 0x0D, 0xF8]);
    expected.push(0);
    expected.push(0xFF);
    expected.push(0);
    assert_eq!(res.body, expected);
}

#[test]
fn describe_rejects_other_versions() {
    let cluster: Cluster = Vec::new();
    let req = make_request(75, 1, &[]);
    let mut res = Response::build_from_request(&req);
    describe_topic_partitions::handle(&req, &mut res, &cluster).unwrap();
    assert_eq!(res.body, vec![0x00, 0x23]);
}

#[test]
fn fetch_unknown_topic_is_error_100() {
    let cluster: Cluster = Vec::new();
    let req = make_request(1, 16, &fetch_request_body(&[UUID]));
    let mut res = Response::build_from_request(&req);
    let segments: Vec<Vec<u8>> = vec![Vec::new()];
    fetch::handle(&req, &mut res, &cluster, &segments).unwrap();
    let mut expected: Vec<u8> = vec![0, 0, 0, 0]; // throttle time
    expected.extend_from_slice(&[0, 0]); // error code
    expected.extend_from_slice(&[0, 0, 0, 0]); // session id
    expected.push(2); // one topic plus one
    expected.extend_from_slice(&UUID.to_be_bytes());
    expected.push(2); // one partition plus one
    expected.extend_from_slice(&0i32.to_be_bytes()); // partition index
    expected.extend_from_slice(&[0x00, 0x64]); // unknown topic id
    expected.extend_from_slice(&0i64.to_be_bytes()); // high watermark
    expected.extend_from_slice(&0i64.to_be_bytes()); // last stable offset
    expected.extend_from_slice(&0i64.to_be_bytes()); // log start offset
    expected.push(1); // no aborted transactions
    expected.extend_from_slice(&0i32.to_be_bytes()); // preferred read replica
    expected.push(1); // empty compact record bytes
    expected.push(0); // partition tagged fields
    expected.push(0); // topic tagged fields
    expected.push(0); // tagged fields
    assert_eq!(res.body, expected);
}

#[test]
fn fetch_known_topic_returns_segment_bytes() {
    let cluster = known_topic_cluster();
    let req = make_request(1, 16, &fetch_request_body(&[UUID]));
    let parsed = fetch::parse(&req.data).unwrap();
    let names = fetch::fetch_segment_names(&parsed, &cluster);
    assert_eq!(names.len(), 1);
    assert_eq!(names[0], Some(b"foo".to_vec()));
    let segment = vec![0xDE, 0xAD, 0xBE, 0xEF];
    let segments = vec![segment.clone()];
    let mut res = Response::build_from_request(&req);
    fetch::handle(&req, &mut res, &cluster, &segments).unwrap();
    let mut expected: Vec<u8> = vec![0, 0, 0, 0, 0, 0, 0, 0, 0, 0];
    expected.push(2);
    expected.extend_from_slice(&UUID.to_be_bytes());
    expected.push(2);
    expected.extend_from_slice(&0i32.to_be_bytes());
    expected.extend_from_slice(&[0x00, 0x00]); // no error
    expected.extend_from_slice(&0i64.to_be_bytes());
    expected.extend_from_slice(&0i64.to_be_bytes());
    expected.extend_from_slice(&0i64.to_be_bytes());
    expected.push(1);
    expected.extend_from_slice(&0i32.to_be_bytes());
    expected.push(5); // four record bytes plus one
    expected.extend_from_slice(&segment);
    expected.push(0);
    expected.push(0);
    expected.push(0);
    assert_eq!(res.body, expected);
}

#[test]
fn fetch_rejects_other_versions() {
    let cluster: Cluster = Vec::new();
    let req = make_request(1, 12, &[]);
    let mut res = Response::build_from_request(&req);
    let segments: Vec<Vec<u8>> = Vec::new();
    fetch::handle(&req, &mut res, &cluster, &segments).unwrap();
    assert_eq!(res.body, vec![0x00, 0x23]);
}

#[test]
fn dispatch_frames_exactly_one_response() {
    let cluster: Cluster = Vec::new();
    let segments: Vec<Vec<u8>> = Vec::new();
    let req = make_request(18, 4, &[]);
    let frame = dispatch(&req, &cluster, &segments).unwrap();
    let n = u32::from_be_bytes([frame[0], frame[1], frame[2], frame[3]]) as usize;
    assert_eq!(n, frame.len() - 4);
    assert_eq!(u32::from_be_bytes([frame[4], frame[5], frame[6], frame[7]]), 7);
}

#[test]
fn dispatch_unknown_api_key_is_error_35() {
    let cluster: Cluster = Vec::new();
    let segments: Vec<Vec<u8>> = Vec::new();
    let req = make_request(99, 0, &[]);
    let frame = dispatch(&req, &cluster, &segments).unwrap();
    // Frame: length, correlation id, tagged-fields byte, then the body.
    assert_eq!(&frame[9..], &[0x00, 0x23]);
}

#[test]
fn dispatch_rejects_malformed_describe() {
    let cluster: Cluster = Vec::new();
    let segments: Vec<Vec<u8>> = Vec::new();
    let req = make_request(75, 0, &[0x05, b'a']); // truncated topic list
    assert_eq!(dispatch(&req, &cluster, &segments).unwrap_err(), ServeError::Malformed);
}
