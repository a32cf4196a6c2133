//! Metadata-log parsing tests over a synthetic on-disk log.

use kafka_broker::cluster::{parse_metadata_cluster, ClusterSummary, ValueRecord};

fn uvarint(mut v: u64) -> Vec<u8> {
    let mut out = Vec::new();
    while v >= 0x80 {
        out.push(((v & 0x7F) | 0x80) as u8);
        v >>= 7;
    }
    out.push(v as u8);
    out
}

fn svarint(v: i64) -> Vec<u8> {
    uvarint(((v << 1) ^ (v >> 63)) as u64)
}

fn topic_value(name: &[u8], uuid: u128) -> Vec<u8> {
    let mut v = vec![1u8, 2, 0]; // frame version, type (topic), version
    v.extend_from_slice(&uvarint(name.len() as u64 + 1));
    v.extend_from_slice(name);
    v.extend_from_slice(&uuid.to_be_bytes());
    v.extend_from_slice(&uvarint(0)); // tagged fields
    v
}

fn partition_value(id: u32, topic_uuid: u128, replicas: &[u32], isr: &[u32]) -> Vec<u8> {
    let mut v = vec![1u8, 3, 0]; // frame version, type (partition), version
    v.extend_from_slice(&id.to_be_bytes());
    v.extend_from_slice(&topic_uuid.to_be_bytes());
    v.extend_from_slice(&uvarint(replicas.len() as u64 + 1));
    for r in replicas {
        v.extend_from_slice(&r.to_be_bytes());
    }
    v.extend_from_slice(&uvarint(isr.len() as u64 + 1));
    for r in isr {
        v.extend_from_slice(&r.to_be_bytes());
    }
    v.extend_from_slice(&uvarint(1)); // removing replicas: none
    v.extend_from_slice(&uvarint(1)); // adding replicas: none
    v.extend_from_slice(&5u32.to_be_bytes()); // leader id
    v.extend_from_slice(&9u32.to_be_bytes()); // leader epoch
    v.extend_from_slice(&1u32.to_be_bytes()); // partition epoch
    v.extend_from_slice(&uvarint(1)); // directories: none
    v.extend_from_slice(&uvarint(0)); // tagged fields
    v
}

fn record(value: Vec<u8>) -> Vec<u8> {
    let mut body = vec![0u8]; // attributes
    body.extend_from_slice(&svarint(0)); // timestamp delta
    body.extend_from_slice(&svarint(0)); // offset delta
    body.extend_from_slice(&svarint(-1)); // key length: absent
    body.extend_from_slice(&svarint(value.len() as i64));
    body.extend_from_slice(&value);
    body.extend_from_slice(&uvarint(0)); // headers
    let mut out = svarint(body.len() as i64);
    out.extend_from_slice(&body);
    out
}

fn batch(base_offset: u64, records: Vec<Vec<u8>>) -> Vec<u8> {
    let mut body = Vec::new();
    body.extend_from_slice(&3u32.to_be_bytes()); // partition leader epoch
    body.push(2); // magic
    body.extend_from_slice(&0xCAFEBABEu32.to_be_bytes()); // crc
    body.extend_from_slice(&0u16.to_be_bytes()); // attributes
    body.extend_from_slice(&0u32.to_be_bytes()); // last offset delta
    body.extend_from_slice(&11u64.to_be_bytes()); // base timestamp
    body.extend_from_slice(&12u64.to_be_bytes()); // max timestamp
    body.extend_from_slice(&(-1i64).to_be_bytes()); // producer id
    body.extend_from_slice(&(-1i16).to_be_bytes()); // producer epoch
    body.extend_from_slice(&(-1i32).to_be_bytes()); // base sequence
    body.extend_from_slice(&(records.len() as u32).to_be_bytes());
    for r in records {
        body.extend_from_slice(&r);
    }
    let mut out = Vec::new();
    out.extend_from_slice(&base_offset.to_be_bytes());
    out.extend_from_slice(&(body.len() as u32).to_be_bytes());
    out.extend_from_slice(&body);
    out
}

const UUID: u128 = 0xa0e9ccc66e0a47e581d4f12d9342cc7e;

fn sample_log() -> Vec<u8> {
    let mut log = batch(
        0,
        vec![record(topic_value(b"quickstart", UUID))],
    );
    log.extend_from_slice(&batch(
        1,
        vec![
            record(partition_value(0, UUID, &[1, 2], &[1])),
            record(partition_value(1, UUID, &[3], &[3])),
        ],
    ));
    log
}

#[test]
fn parses_topics_and_partitions_in_log_order() {
    let cluster = parse_metadata_cluster(sample_log()).unwrap();
    assert_eq!(cluster.len(), 2);
    let topics = cluster.topics();
    assert_eq!(topics.len(), 1);
    assert_eq!(topics[0].name, b"quickstart".to_vec());
    assert_eq!(topics[0].name_length, 11);
    assert_eq!(topics[0].uuid, UUID);
    let partitions = cluster.partitions();
    assert_eq!(partitions.len(), 2);
    assert_eq!(partitions[0].id, 0);
    assert_eq!(partitions[0].topic_uuid, UUID);
    assert_eq!(partitions[0].replica_nodes, vec![1, 2]);
    assert_eq!(partitions[0].in_sync_replica_nodes, vec![1]);
    assert_eq!(partitions[0].leader_id, 5);
    assert_eq!(partitions[0].leader_epoch, 9);
    assert_eq!(partitions[1].id, 1);
    assert_eq!(partitions[1].replica_nodes, vec![3]);
}

#[test]
fn parses_batch_header_fields() {
    let cluster = parse_metadata_cluster(sample_log()).unwrap();
    let b = &cluster[0];
    assert_eq!(b.batch_offset, 0);
    assert_eq!(b.partition_leader_epoch, 3);
    assert_eq!(b.magic_byte, 2);
    assert_eq!(b.crc, 0xCAFEBABE);
    assert_eq!(b.base_timestamp, 11);
    assert_eq!(b.max_timestamp, 12);
    assert_eq!(b.producer_id, -1);
    assert_eq!(b.producer_epoch, -1);
    assert_eq!(b.base_sequence, -1);
    assert_eq!(b.record_batch_length, 1);
    assert_eq!(b.records.len(), 1);
    let rec = &b.records[0];
    assert_eq!(rec.key_length, -1);
    assert!(rec.key.is_none());
    match &rec.value.value {
        ValueRecord::TopicValue(t) => assert_eq!(t.uuid, UUID),
        _ => panic!("expected a topic value"),
    }
}

#[test]
fn unknown_value_types_are_kept() {
    // A value of type 7: three header bytes, a tagged-fields varint, and
    // opaque body bytes the parser must skip without failing the batch.
    let value = vec![1u8, 7, 0, 0, 0xAA, 0xBB];
    let log = batch(0, vec![record(value)]);
    let cluster = parse_metadata_cluster(log).unwrap();
    assert_eq!(cluster.len(), 1);
    match cluster[0].records[0].value.value {
        ValueRecord::Unknown => {}
        _ => panic!("expected an unknown value"),
    }
    assert!(cluster.topics().is_empty());
    assert!(cluster.partitions().is_empty());
}

#[test]
fn truncated_log_is_rejected() {
    let mut log = sample_log();
    log.pop();
    assert!(parse_metadata_cluster(log).is_err());
    let log2 = vec![0u8; 5];
    assert!(parse_metadata_cluster(log2).is_err());
}

#[test]
fn empty_log_is_an_empty_snapshot() {
    let cluster = parse_metadata_cluster(Vec::new()).unwrap();
    assert!(cluster.is_empty());
    assert!(cluster.topics().is_empty());
    assert!(cluster.partitions().is_empty());
}
