//! The cluster-metadata log: record batches, records, and the typed value
//! variants ("topic" and "partition") that build the in-memory snapshot.

use vstd::prelude::*;

use crate::codec::be_value;
use crate::codec::compact_u32s_parse;
use crate::codec::spec_skip_uuids;
use crate::codec::twos_complement;
use crate::codec::uvarint64_parse;
use crate::codec::varint64_parse;

verus! {

/// One record batch of the on-disk log.
#[derive(Debug)]
pub struct Batch {
    pub batch_offset: u64,
    pub batch_length: u32,
    pub partition_leader_epoch: u32,
    pub magic_byte: u8,
    pub crc: u32,
    pub attributes: u16,
    pub last_offset_delta: u32,
    pub base_timestamp: u64,
    pub max_timestamp: u64,
    pub producer_id: i64,
    pub producer_epoch: i16,
    pub base_sequence: i32,
    pub record_batch_length: u32,
    pub records: Vec<Record>,
}

/// One record of a batch.
#[derive(Debug)]
pub struct Record {
    pub record_length: i64,
    pub attributes: u8,
    pub timestamp_delta: i64,
    pub offset_delta: i64,
    pub key_length: i64,
    pub key: Option<Vec<u8>>,
    pub value_length: i64,
    pub value: Value,
}

/// The framed value of a record: a three-byte header, a typed body, and a
/// trailing tagged-fields varint.
#[derive(Debug)]
pub struct Value {
    pub frame_version: u8,
    pub type_: u8,
    pub version: u8,
    pub value: ValueRecord,
    pub tagged_fields: u64,
}

/// The typed body of a value.
#[derive(Debug)]
pub enum ValueRecord {
    FeatureValue(FeatureValueRecord),
    TopicValue(TopicValueRecord),
    PartitionValue(PartitionValueRecord),
    Unknown,
}

/// A feature-level entry; carried for completeness, never produced by the
/// log parser, which treats its type as unknown.
#[derive(Debug)]
pub struct FeatureValueRecord {
    pub name_length: i64,
    pub name: String,
    pub feature_level: i16,
}

/// A topic entry: a name and the UUID that joins it to its partitions.
/// The name is kept as its wire bytes; `name_length` is the raw stored
/// length field (the byte count plus one).
#[derive(Debug)]
pub struct TopicValueRecord {
    pub name_length: u64,
    pub name: Vec<u8>,
    pub uuid: u128,
}

/// A partition entry, joined to its topic by `topic_uuid`.
#[derive(Debug)]
pub struct PartitionValueRecord {
    pub id: u32,
    pub topic_uuid: u128,
    pub leader_id: u32,
    pub leader_epoch: u32,
    pub replica_nodes: Vec<u32>,
    pub in_sync_replica_nodes: Vec<u32>,
}

/// The parsed log: its batches in file order.
pub type Cluster = Vec<Batch>;

/// Mathematical form of a topic entry.
pub ghost struct TopicView {
    pub name_length: u64,
    pub name: Seq<u8>,
    pub uuid: u128,
}

/// Mathematical form of a partition entry.
pub ghost struct PartitionView {
    pub id: u32,
    pub topic_uuid: u128,
    pub leader_id: u32,
    pub leader_epoch: u32,
    pub replica_nodes: Seq<u32>,
    pub in_sync_replica_nodes: Seq<u32>,
}

/// Mathematical form of a feature-level entry.
pub ghost struct FeatureView {
    pub name_length: i64,
    pub name: Seq<char>,
    pub feature_level: i16,
}

/// Mathematical form of a typed value body.
pub ghost enum ValueRecordView {
    FeatureValue(FeatureView),
    TopicValue(TopicView),
    PartitionValue(PartitionView),
    Unknown,
}

/// Mathematical form of a framed value.
pub ghost struct ValueView {
    pub frame_version: u8,
    pub type_: u8,
    pub version: u8,
    pub value: ValueRecordView,
    pub tagged_fields: u64,
}

/// Mathematical form of a record.
pub ghost struct RecordView {
    pub record_length: i64,
    pub attributes: u8,
    pub timestamp_delta: i64,
    pub offset_delta: i64,
    pub key_length: i64,
    pub key: Option<Seq<u8>>,
    pub value_length: i64,
    pub value: ValueView,
}

/// Mathematical form of a batch.
pub ghost struct BatchView {
    pub batch_offset: u64,
    pub batch_length: u32,
    pub partition_leader_epoch: u32,
    pub magic_byte: u8,
    pub crc: u32,
    pub attributes: u16,
    pub last_offset_delta: u32,
    pub base_timestamp: u64,
    pub max_timestamp: u64,
    pub producer_id: i64,
    pub producer_epoch: i16,
    pub base_sequence: i32,
    pub record_batch_length: u32,
    pub records: Seq<RecordView>,
}

impl DeepView for TopicValueRecord {
    type V = TopicView;

    open spec fn deep_view(&self) -> TopicView {
        TopicView { name_length: self.name_length, name: self.name@, uuid: self.uuid }
    }
}

impl DeepView for PartitionValueRecord {
    type V = PartitionView;

    open spec fn deep_view(&self) -> PartitionView {
        PartitionView {
            id: self.id,
            topic_uuid: self.topic_uuid,
            leader_id: self.leader_id,
            leader_epoch: self.leader_epoch,
            replica_nodes: self.replica_nodes@,
            in_sync_replica_nodes: self.in_sync_replica_nodes@,
        }
    }
}

impl DeepView for FeatureValueRecord {
    type V = FeatureView;

    open spec fn deep_view(&self) -> FeatureView {
        FeatureView {
            name_length: self.name_length,
            name: self.name@,
            feature_level: self.feature_level,
        }
    }
}

impl DeepView for ValueRecord {
    type V = ValueRecordView;

    open spec fn deep_view(&self) -> ValueRecordView {
        match self {
            ValueRecord::FeatureValue(f) => ValueRecordView::FeatureValue(f.deep_view()),
            ValueRecord::TopicValue(t) => ValueRecordView::TopicValue(t.deep_view()),
            ValueRecord::PartitionValue(p) => ValueRecordView::PartitionValue(p.deep_view()),
            ValueRecord::Unknown => ValueRecordView::Unknown,
        }
    }
}

impl DeepView for Value {
    type V = ValueView;

    open spec fn deep_view(&self) -> ValueView {
        ValueView {
            frame_version: self.frame_version,
            type_: self.type_,
            version: self.version,
            value: self.value.deep_view(),
            tagged_fields: self.tagged_fields,
        }
    }
}

impl DeepView for Record {
    type V = RecordView;

    open spec fn deep_view(&self) -> RecordView {
        RecordView {
            record_length: self.record_length,
            attributes: self.attributes,
            timestamp_delta: self.timestamp_delta,
            offset_delta: self.offset_delta,
            key_length: self.key_length,
            key: self.key.deep_view(),
            value_length: self.value_length,
            value: self.value.deep_view(),
        }
    }
}

impl DeepView for Batch {
    type V = BatchView;

    open spec fn deep_view(&self) -> BatchView {
        BatchView {
            batch_offset: self.batch_offset,
            batch_length: self.batch_length,
            partition_leader_epoch: self.partition_leader_epoch,
            magic_byte: self.magic_byte,
            crc: self.crc,
            attributes: self.attributes,
            last_offset_delta: self.last_offset_delta,
            base_timestamp: self.base_timestamp,
            max_timestamp: self.max_timestamp,
            producer_id: self.producer_id,
            producer_epoch: self.producer_epoch,
            base_sequence: self.base_sequence,
            record_batch_length: self.record_batch_length,
            records: self.records.deep_view(),
        }
    }
}

/// Grammar of a topic value body: a stored name length as unsigned varint
/// (the byte count plus one; zero and one both mean an empty name), the
/// name bytes, then a 16-byte UUID. Yields the view and the bytes
/// consumed.
#[verifier::opaque]
pub open spec fn spec_parse_topic_value(data: Seq<u8>) -> Option<(TopicView, int)> {
    match uvarint64_parse(data) {
        None => None,
        Some(p) => {
            let name_len: int = if p.0 <= 1 {
                0
            } else {
                p.0 - 1
            };
            if data.len() < p.1 + name_len + 16 {
                None
            } else {
                Some(
                    (
                        TopicView {
                            name_length: p.0 as u64,
                            name: data.subrange(p.1, p.1 + name_len),
                            uuid: be_value(
                                data.subrange(p.1 + name_len, p.1 + name_len + 16),
                            ) as u128,
                        },
                        p.1 + name_len + 16,
                    ),
                )
            }
        },
    }
}

/// Grammar of a partition value body: partition id, topic UUID, four
/// compact arrays (replicas, in-sync replicas, removing, adding), three
/// fixed words (leader id, leader epoch, partition epoch), then a compact
/// array of directory UUIDs. Removing, adding, the partition epoch and
/// the directories are consumed and discarded.
#[verifier::opaque]
pub open spec fn spec_parse_partition_value(data: Seq<u8>) -> Option<(PartitionView, int)> {
    if data.len() < 20 {
        None
    } else {
        let id = be_value(data.take(4)) as u32;
        let topic_uuid = be_value(data.subrange(4, 20)) as u128;
        match compact_u32s_parse(data.skip(20)) {
            None => None,
            Some(rp) => {
                let o1 = 20 + rp.1;
                match compact_u32s_parse(data.skip(o1)) {
                    None => None,
                    Some(isr) => {
                        let o2 = o1 + isr.1;
                        match compact_u32s_parse(data.skip(o2)) {
                            None => None,
                            Some(rem) => {
                                let o3 = o2 + rem.1;
                                match compact_u32s_parse(data.skip(o3)) {
                                    None => None,
                                    Some(add) => {
                                        let o4 = o3 + add.1;
                                        if data.len() < o4 + 12 {
                                            None
                                        } else {
                                            match spec_skip_uuids(data.skip(o4 + 12)) {
                                                None => None,
                                                Some(nd) => Some(
                                                    (
                                                        PartitionView {
                                                            id,
                                                            topic_uuid,
                                                            leader_id: be_value(
                                                                data.subrange(o4, o4 + 4),
                                                            ) as u32,
                                                            leader_epoch: be_value(
                                                                data.subrange(o4 + 4, o4 + 8),
                                                            ) as u32,
                                                            replica_nodes: rp.0,
                                                            in_sync_replica_nodes: isr.0,
                                                        },
                                                        o4 + 12 + nd,
                                                    ),
                                                ),
                                            }
                                        }
                                    },
                                }
                            },
                        }
                    },
                }
            },
        }
    }
}

/// Grammar of a framed value: frame version, type, version, a typed body
/// for types 2 (topic) and 3 (partition) — anything else is kept as
/// `Unknown` with no body bytes consumed — then one unsigned varint of
/// tagged fields. Bytes left over in the frame are ignored.
#[verifier::opaque]
pub open spec fn spec_parse_value(data: Seq<u8>) -> Option<ValueView> {
    if data.len() < 3 {
        None
    } else {
        let body: Option<(ValueRecordView, int)> = if data[1] == 2 {
            match spec_parse_topic_value(data.skip(3)) {
                None => None,
                Some(t) => Some((ValueRecordView::TopicValue(t.0), 3 + t.1)),
            }
        } else if data[1] == 3 {
            match spec_parse_partition_value(data.skip(3)) {
                None => None,
                Some(pv) => Some((ValueRecordView::PartitionValue(pv.0), 3 + pv.1)),
            }
        } else {
            Some((ValueRecordView::Unknown, 3))
        };
        match body {
            None => None,
            Some(b) => match uvarint64_parse(data.skip(b.1)) {
                None => None,
                Some(tf) => Some(
                    ValueView {
                        frame_version: data[0],
                        type_: data[1],
                        version: data[2],
                        value: b.0,
                        tagged_fields: tf.0 as u64,
                    },
                ),
            },
        }
    }
}

/// Grammar of one record inside its length-framed slice: attributes,
/// three zigzag varints (timestamp delta, offset delta, key length), the
/// key (absent for -1, empty for 0, that many bytes otherwise), the value
/// length and the value frame, then a headers count whose payload bytes
/// are skipped.
#[verifier::opaque]
pub open spec fn spec_parse_record(data: Seq<u8>, record_length: i64) -> Option<RecordView> {
    if data.len() < 1 {
        None
    } else {
        match varint64_parse(data.skip(1)) {
            None => None,
            Some(ts) => {
                let o1 = 1 + ts.1;
                match varint64_parse(data.skip(o1)) {
                    None => None,
                    Some(off) => {
                        let o2 = o1 + off.1;
                        match varint64_parse(data.skip(o2)) {
                            None => None,
                            Some(kl) => {
                                let o3 = o2 + kl.1;
                                let key_step: Option<(Option<Seq<u8>>, int)> = if kl.0 == -1 {
                                    Some((None, 0))
                                } else if kl.0 == 0 {
                                    Some((Some(Seq::empty()), 0))
                                } else if kl.0 > 0 && data.len() >= o3 + kl.0 {
                                    Some((Some(data.subrange(o3, o3 + kl.0)), kl.0))
                                } else {
                                    None
                                };
                                match key_step {
                                    None => None,
                                    Some(ks) => {
                                        let o4 = o3 + ks.1;
                                        match varint64_parse(data.skip(o4)) {
                                            None => None,
                                            Some(vl) => {
                                                let o5 = o4 + vl.1;
                                                if vl.0 < 0 || data.len() < o5 + vl.0 {
                                                    None
                                                } else {
                                                    match spec_parse_value(
                                                        data.subrange(o5, o5 + vl.0),
                                                    ) {
                                                        None => None,
                                                        Some(val) => {
                                                            let o6 = o5 + vl.0;
                                                            match uvarint64_parse(data.skip(o6)) {
                                                                None => None,
                                                                Some(hc) => {
                                                                    if data.len() >= o6 + hc.1
                                                                        + hc.0 {
                                                                        Some(
                                                                            RecordView {
                                                                                record_length,
                                                                                attributes: data[0],
                                                                                timestamp_delta: ts.0 as i64,
                                                                                offset_delta: off.0 as i64,
                                                                                key_length: kl.0 as i64,
                                                                                key: ks.0,
                                                                                value_length: vl.0 as i64,
                                                                                value: val,
                                                                            },
                                                                        )
                                                                    } else {
                                                                        None
                                                                    }
                                                                },
                                                            }
                                                        },
                                                    }
                                                }
                                            },
                                        }
                                    },
                                }
                            },
                        }
                    },
                }
            },
        }
    }
}

/// Grammar of `count` records in sequence: each is a zigzag varint length
/// followed by that many bytes, parsed as one record.
pub open spec fn spec_parse_records(data: Seq<u8>, count: nat) -> Option<Seq<RecordView>>
    decreases count,
{
    if count == 0 {
        Some(Seq::empty())
    } else {
        match varint64_parse(data) {
            None => None,
            Some(rl) => {
                if rl.0 < 0 || data.len() < rl.1 + rl.0 {
                    None
                } else {
                    match spec_parse_record(data.subrange(rl.1, rl.1 + rl.0), rl.0 as i64) {
                        None => None,
                        Some(rec) => match spec_parse_records(
                            data.skip(rl.1 + rl.0),
                            (count - 1) as nat,
                        ) {
                            None => None,
                            Some(rest) => Some(seq![rec] + rest),
                        },
                    }
                }
            },
        }
    }
}

/// Grammar of one batch inside its length-framed slice: the fixed header
/// words, the record count, then that many records. Bytes left over in
/// the slice are ignored.
#[verifier::opaque]
pub open spec fn spec_parse_batch(data: Seq<u8>, batch_offset: u64, batch_length: u32) -> Option<
    BatchView,
> {
    if data.len() < 49 {
        None
    } else {
        let record_count = be_value(data.subrange(45, 49)) as u32;
        match spec_parse_records(data.skip(49), record_count as nat) {
            None => None,
            Some(records) => Some(
                BatchView {
                    batch_offset,
                    batch_length,
                    partition_leader_epoch: be_value(data.subrange(0, 4)) as u32,
                    magic_byte: data[4],
                    crc: be_value(data.subrange(5, 9)) as u32,
                    attributes: be_value(data.subrange(9, 11)) as u16,
                    last_offset_delta: be_value(data.subrange(11, 15)) as u32,
                    base_timestamp: be_value(data.subrange(15, 23)) as u64,
                    max_timestamp: be_value(data.subrange(23, 31)) as u64,
                    producer_id: twos_complement(
                        be_value(data.subrange(31, 39)),
                        0x1_0000_0000_0000_0000,
                    ) as i64,
                    producer_epoch: twos_complement(be_value(data.subrange(39, 41)), 0x1_0000) as i16,
                    base_sequence: twos_complement(
                        be_value(data.subrange(41, 45)),
                        0x1_0000_0000,
                    ) as i32,
                    record_batch_length: record_count,
                    records,
                },
            ),
        }
    }
}

/// Grammar of the whole log: zero or more batches, each a base offset, a
/// batch length, and that many framed bytes.
pub open spec fn spec_parse_cluster(data: Seq<u8>) -> Option<Seq<BatchView>>
    decreases data.len(),
{
    if data.len() == 0 {
        Some(Seq::empty())
    } else if data.len() < 12 {
        None
    } else {
        let base_offset = be_value(data.take(8)) as u64;
        let batch_length = be_value(data.subrange(8, 12)) as u32;
        if data.len() < 12 + batch_length {
            None
        } else {
            match spec_parse_batch(
                data.subrange(12, 12 + batch_length),
                base_offset,
                batch_length,
            ) {
                None => None,
                Some(b) => match spec_parse_cluster(data.skip(12 + batch_length)) {
                    None => None,
                    Some(rest) => Some(seq![b] + rest),
                },
            }
        }
    }
}

/// The topic entries a single record contributes, in order.
pub open spec fn record_topics(r: RecordView) -> Seq<TopicView> {
    match r.value.value {
        ValueRecordView::TopicValue(t) => seq![t],
        _ => Seq::empty(),
    }
}

/// The partition entries a single record contributes, in order.
pub open spec fn record_partitions(r: RecordView) -> Seq<PartitionView> {
    match r.value.value {
        ValueRecordView::PartitionValue(p) => seq![p],
        _ => Seq::empty(),
    }
}

/// All topic entries of a record run, in log order.
pub open spec fn records_topics(rs: Seq<RecordView>) -> Seq<TopicView>
    decreases rs.len(),
{
    if rs.len() == 0 {
        Seq::empty()
    } else {
        records_topics(rs.drop_last()) + record_topics(rs.last())
    }
}

/// All partition entries of a record run, in log order.
pub open spec fn records_partitions(rs: Seq<RecordView>) -> Seq<PartitionView>
    decreases rs.len(),
{
    if rs.len() == 0 {
        Seq::empty()
    } else {
        records_partitions(rs.drop_last()) + record_partitions(rs.last())
    }
}

/// All topic entries of the snapshot, in log order.
pub open spec fn cluster_topics(c: Seq<BatchView>) -> Seq<TopicView>
    decreases c.len(),
{
    if c.len() == 0 {
        Seq::empty()
    } else {
        cluster_topics(c.drop_last()) + records_topics(c.last().records)
    }
}

/// All partition entries of the snapshot, in log order.
pub open spec fn cluster_partitions(c: Seq<BatchView>) -> Seq<PartitionView>
    decreases c.len(),
{
    if c.len() == 0 {
        Seq::empty()
    } else {
        cluster_partitions(c.drop_last()) + records_partitions(c.last().records)
    }
}

} // verus!

// The executable log parser, proved against the grammar above.
use vstd::prelude::*;
use vstd::seq_lib::lemma_seq_skip_of_skip;

use crate::codec::Cursor;
use crate::codec::DecodeError;
use crate::codec::ReadVarint;
use crate::codec::lemma_uvarint_parse_len;

verus! {

/// Parse a topic value body at the cursor.
pub fn parse_topic_record(cursor: &mut Cursor) -> (r: Result<TopicValueRecord, DecodeError>)
    ensures
        final(cursor).data == old(cursor).data,
        match r {
            Ok(t) => match spec_parse_topic_value(old(cursor).rest()) {
                Some(p) => {
                    &&& t.deep_view() == p.0
                    &&& 0 <= p.1 <= old(cursor).rest().len()
                    &&& final(cursor).pos == old(cursor).pos + p.1
                    &&& final(cursor).rest() == old(cursor).rest().skip(p.1)
                },
                None => false,
            },
            Err(_) => spec_parse_topic_value(old(cursor).rest()) is None,
        },
{
    proof {
        reveal(spec_parse_topic_value);
    }
    let ghost orig = cursor.rest();
    let stored = match cursor.read_uvarint() {
        Ok(u) => u,
        Err(e) => {
            return Err(e);
        },
    };
    let ghost n1 = uvarint64_parse(orig).unwrap().1;
    proof {
        lemma_uvarint_parse_len(orig);
    }
    let name = if stored <= 1 {
        proof {
            assert(cursor.rest().take(0) =~= orig.subrange(n1, n1 + 0));
        }
        Vec::new()
    } else {
        let rem = cursor.remaining();
        if stored - 1 > rem as u64 {
            return Err(DecodeError::UnexpectedEnd);
        }
        let name_len = (stored - 1) as usize;
        match cursor.read_bytes(name_len) {
            Ok(v) => {
                proof {
                    assert(orig.skip(n1).take(name_len as int) =~= orig.subrange(
                        n1,
                        n1 + name_len,
                    ));
                    lemma_seq_skip_of_skip(orig, n1, name_len as int);
                }
                v
            },
            Err(e) => {
                return Err(e);
            },
        }
    };
    let ghost name_len: int = if stored <= 1 { 0int } else { stored - 1 };
    let ghost o2 = n1 + name_len;
    proof {
        assert(name@ =~= orig.subrange(n1, n1 + name_len));
        assert(cursor.rest() =~= orig.skip(o2));
    }
    let uuid = match cursor.read_uuid() {
        Ok(u) => u,
        Err(e) => {
            return Err(e);
        },
    };
    proof {
        assert(orig.skip(o2).take(16) =~= orig.subrange(o2, o2 + 16));
        lemma_seq_skip_of_skip(orig, o2, 16);
        assert(cursor.rest() =~= orig.skip(o2 + 16));
    }
    Ok(TopicValueRecord { name_length: stored, name, uuid })
}

/// Parse a partition value body at the cursor.
pub fn parse_partition_record(cursor: &mut Cursor) -> (r: Result<
    PartitionValueRecord,
    DecodeError,
>)
    ensures
        final(cursor).data == old(cursor).data,
        match r {
            Ok(p) => match spec_parse_partition_value(old(cursor).rest()) {
                Some(q) => {
                    &&& p.deep_view() == q.0
                    &&& 0 <= q.1 <= old(cursor).rest().len()
                    &&& final(cursor).pos == old(cursor).pos + q.1
                    &&& final(cursor).rest() == old(cursor).rest().skip(q.1)
                },
                None => false,
            },
            Err(_) => spec_parse_partition_value(old(cursor).rest()) is None,
        },
{
    proof {
        reveal(spec_parse_partition_value);
    }
    let ghost orig = cursor.rest();
    let id = match cursor.read_u32() {
        Ok(v) => v,
        Err(e) => {
            return Err(e);
        },
    };
    let topic_uuid = match cursor.read_uuid() {
        Ok(v) => {
            proof {
                assert(orig.skip(4).take(16) =~= orig.subrange(4, 20));
                lemma_seq_skip_of_skip(orig, 4, 16);
                assert(cursor.rest() =~= orig.skip(20));
            }
            v
        },
        Err(e) => {
            return Err(e);
        },
    };
    let replica_nodes = match cursor.read_compact_u32s() {
        Ok(v) => v,
        Err(e) => {
            return Err(e);
        },
    };
    let ghost o1 = 20 + compact_u32s_parse(orig.skip(20)).unwrap().1;
    proof {
        lemma_seq_skip_of_skip(orig, 20, o1 - 20);
        assert(cursor.rest() =~= orig.skip(o1));
    }
    let in_sync_replica_nodes = match cursor.read_compact_u32s() {
        Ok(v) => v,
        Err(e) => {
            return Err(e);
        },
    };
    let ghost o2 = o1 + compact_u32s_parse(orig.skip(o1)).unwrap().1;
    proof {
        lemma_seq_skip_of_skip(orig, o1, o2 - o1);
        assert(cursor.rest() =~= orig.skip(o2));
    }
    match cursor.read_compact_u32s() {
        Ok(_) => {},
        Err(e) => {
            return Err(e);
        },
    };
    let ghost o3 = o2 + compact_u32s_parse(orig.skip(o2)).unwrap().1;
    proof {
        lemma_seq_skip_of_skip(orig, o2, o3 - o2);
        assert(cursor.rest() =~= orig.skip(o3));
    }
    match cursor.read_compact_u32s() {
        Ok(_) => {},
        Err(e) => {
            return Err(e);
        },
    };
    let ghost o4 = o3 + compact_u32s_parse(orig.skip(o3)).unwrap().1;
    proof {
        lemma_seq_skip_of_skip(orig, o3, o4 - o3);
        assert(cursor.rest() =~= orig.skip(o4));
    }
    let leader_id = match cursor.read_u32() {
        Ok(v) => {
            proof {
                assert(orig.skip(o4).take(4) =~= orig.subrange(o4, o4 + 4));
            }
            v
        },
        Err(e) => {
            return Err(e);
        },
    };
    proof {
        lemma_seq_skip_of_skip(orig, o4, 4);
        assert(cursor.rest() =~= orig.skip(o4 + 4));
    }
    let leader_epoch = match cursor.read_u32() {
        Ok(v) => {
            proof {
                assert(orig.skip(o4 + 4).take(4) =~= orig.subrange(o4 + 4, o4 + 8));
            }
            v
        },
        Err(e) => {
            return Err(e);
        },
    };
    proof {
        lemma_seq_skip_of_skip(orig, o4 + 4, 4);
        assert(cursor.rest() =~= orig.skip(o4 + 8));
    }
    match cursor.read_u32() {
        Ok(_) => {},
        Err(e) => {
            return Err(e);
        },
    };
    proof {
        lemma_seq_skip_of_skip(orig, o4 + 8, 4);
        assert(cursor.rest() =~= orig.skip(o4 + 12));
    }
    match cursor.skip_compact_uuids() {
        Ok(()) => {},
        Err(e) => {
            return Err(e);
        },
    };
    let ghost nd = spec_skip_uuids(orig.skip(o4 + 12)).unwrap();
    proof {
        lemma_seq_skip_of_skip(orig, o4 + 12, nd);
        assert(cursor.rest() =~= orig.skip(o4 + 12 + nd));
    }
    Ok(
        PartitionValueRecord {
            id,
            topic_uuid,
            leader_id,
            leader_epoch,
            replica_nodes,
            in_sync_replica_nodes,
        },
    )
}

} // verus!

// The framed-value, record, batch and whole-log parsers.
use vstd::prelude::*;

verus! {

/// Parse one framed value from its own slice; bytes left over in the
/// slice are ignored.
pub fn parse_value(cursor: &mut Cursor) -> (r: Result<Value, DecodeError>)
    ensures
        match r {
            Ok(v) => spec_parse_value(old(cursor).rest()) == Some(v.deep_view()),
            Err(_) => spec_parse_value(old(cursor).rest()) is None,
        },
{
    proof {
        reveal(spec_parse_value);
    }
    let ghost orig = cursor.rest();
    let frame_version = match cursor.read_u8() {
        Ok(b) => b,
        Err(e) => {
            return Err(e);
        },
    };
    let type_ = match cursor.read_u8() {
        Ok(b) => b,
        Err(e) => {
            return Err(e);
        },
    };
    let version = match cursor.read_u8() {
        Ok(b) => b,
        Err(e) => {
            return Err(e);
        },
    };
    proof {
        lemma_seq_skip_of_skip(orig, 1, 1);
        lemma_seq_skip_of_skip(orig, 2, 1);
        assert(cursor.rest() =~= orig.skip(3));
        assert(type_ == orig[1]);
        assert(frame_version == orig[0]);
        assert(version == orig[2]);
    }
    let ghost body_end: int = if orig[1] == 2 {
        3 + spec_parse_topic_value(orig.skip(3)).unwrap().1
    } else if orig[1] == 3 {
        3 + spec_parse_partition_value(orig.skip(3)).unwrap().1
    } else {
        3
    };
    let value: ValueRecord = if type_ == 2 {
        match parse_topic_record(cursor) {
            Ok(t) => ValueRecord::TopicValue(t),
            Err(e) => {
                return Err(e);
            },
        }
    } else if type_ == 3 {
        match parse_partition_record(cursor) {
            Ok(p) => ValueRecord::PartitionValue(p),
            Err(e) => {
                return Err(e);
            },
        }
    } else {
        ValueRecord::Unknown
    };
    proof {
        if orig[1] == 2 {
            lemma_seq_skip_of_skip(orig, 3, body_end - 3);
        } else if orig[1] == 3 {
            lemma_seq_skip_of_skip(orig, 3, body_end - 3);
        }
        assert(cursor.rest() =~= orig.skip(body_end));
    }
    let tagged_fields = match cursor.read_uvarint() {
        Ok(u) => u,
        Err(e) => {
            return Err(e);
        },
    };
    Ok(Value { frame_version, type_, version, value, tagged_fields })
}

/// Parse one record from its length-framed slice.
#[verifier::rlimit(100)]
pub fn parse_record(cursor: &mut Cursor, record_length: i64) -> (r: Result<Record, DecodeError>)
    ensures
        match r {
            Ok(rec) => spec_parse_record(old(cursor).rest(), record_length) == Some(
                rec.deep_view(),
            ),
            Err(_) => spec_parse_record(old(cursor).rest(), record_length) is None,
        },
{
    proof {
        reveal(spec_parse_record);
    }
    let ghost orig = cursor.rest();
    let attributes = match cursor.read_u8() {
        Ok(b) => b,
        Err(e) => {
            return Err(e);
        },
    };
    let timestamp_delta = match cursor.read_varint() {
        Ok(v) => v,
        Err(e) => {
            return Err(e);
        },
    };
    let ghost o1 = 1 + varint64_parse(orig.skip(1)).unwrap().1;
    proof {
        lemma_seq_skip_of_skip(orig, 1, o1 - 1);
        assert(cursor.rest() =~= orig.skip(o1));
        assert(attributes == orig[0]);
    }
    let offset_delta = match cursor.read_varint() {
        Ok(v) => v,
        Err(e) => {
            return Err(e);
        },
    };
    let ghost o2 = o1 + varint64_parse(orig.skip(o1)).unwrap().1;
    proof {
        lemma_seq_skip_of_skip(orig, o1, o2 - o1);
        assert(cursor.rest() =~= orig.skip(o2));
    }
    let key_length = match cursor.read_varint() {
        Ok(v) => v,
        Err(e) => {
            return Err(e);
        },
    };
    let ghost o3 = o2 + varint64_parse(orig.skip(o2)).unwrap().1;
    proof {
        lemma_seq_skip_of_skip(orig, o2, o3 - o2);
        assert(cursor.rest() =~= orig.skip(o3));
    }
    let key: Option<Vec<u8>> = if key_length == -1 {
        None
    } else if key_length == 0 {
        Some(Vec::new())
    } else if key_length > 0 {
        let rem = cursor.remaining();
        if (key_length as u64) > (rem as u64) {
            return Err(DecodeError::UnexpectedEnd);
        }
        match cursor.read_bytes(key_length as usize) {
            Ok(v) => Some(v),
            Err(e) => {
                return Err(e);
            },
        }
    } else {
        return Err(DecodeError::UnexpectedEnd);
    };
    let ghost key_len: int = if key_length > 0 {
        key_length as int
    } else {
        0
    };
    let ghost o4 = o3 + key_len;
    proof {
        lemma_seq_skip_of_skip(orig, o3, key_len);
        assert(cursor.rest() =~= orig.skip(o4));
    }
    let value_length = match cursor.read_varint() {
        Ok(v) => v,
        Err(e) => {
            return Err(e);
        },
    };
    let ghost o5 = o4 + varint64_parse(orig.skip(o4)).unwrap().1;
    proof {
        lemma_seq_skip_of_skip(orig, o4, o5 - o4);
        assert(cursor.rest() =~= orig.skip(o5));
    }
    if value_length < 0 {
        return Err(DecodeError::UnexpectedEnd);
    }
    let rem = cursor.remaining();
    if (value_length as u64) > (rem as u64) {
        return Err(DecodeError::UnexpectedEnd);
    }
    let value_buf = match cursor.read_bytes(value_length as usize) {
        Ok(v) => v,
        Err(e) => {
            return Err(e);
        },
    };
    let ghost o6 = o5 + value_length;
    proof {
        assert(value_buf@ =~= orig.subrange(o5, o5 + value_length));
        lemma_seq_skip_of_skip(orig, o5, value_length as int);
        assert(cursor.rest() =~= orig.skip(o6));
    }
    let mut value_cursor = Cursor::new(value_buf);
    let value = match parse_value(&mut value_cursor) {
        Ok(v) => v,
        Err(e) => {
            return Err(e);
        },
    };
    let header_count = match cursor.read_uvarint() {
        Ok(u) => u,
        Err(e) => {
            return Err(e);
        },
    };
    let ghost o7 = o6 + uvarint64_parse(orig.skip(o6)).unwrap().1;
    proof {
        lemma_seq_skip_of_skip(orig, o6, o7 - o6);
        assert(cursor.rest() =~= orig.skip(o7));
    }
    let rem2 = cursor.remaining();
    if header_count > (rem2 as u64) {
        return Err(DecodeError::UnexpectedEnd);
    }
    match cursor.advance(header_count as usize) {
        Ok(()) => {},
        Err(_) => {
            proof {
                assert(false);
            }
        },
    };
    let rec = Record {
        record_length,
        attributes,
        timestamp_delta,
        offset_delta,
        key_length,
        key,
        value_length,
        value,
    };
    proof {
        match &rec.key {
            Some(k) => {
                assert(rec.key.deep_view() == Some(k@));
                if key_length == 0 {
                    assert(k@ =~= Seq::<u8>::empty());
                } else {
                    assert(k@ =~= orig.subrange(o3, o3 + key_length));
                }
            },
            None => {},
        }
    }
    Ok(rec)
}

/// Parse exactly `count` length-framed records at the cursor.
#[verifier::rlimit(100)]
pub fn parse_records(cursor: &mut Cursor, count: u32) -> (r: Result<Vec<Record>, DecodeError>)
    ensures
        final(cursor).data == old(cursor).data,
        match r {
            Ok(v) => spec_parse_records(old(cursor).rest(), count as nat) == Some(v.deep_view()),
            Err(_) => spec_parse_records(old(cursor).rest(), count as nat) is None,
        },
{
    let ghost rest0 = cursor.rest();
    let mut records: Vec<Record> = Vec::new();
    let mut i: u32 = 0;
    proof {
        assert(records.deep_view() =~= Seq::<RecordView>::empty());
        match spec_parse_records(rest0, count as nat) {
            Some(tail) => {
                assert(records.deep_view() + tail =~= tail);
            },
            None => {},
        }
    }
    while i < count
        invariant
            i <= count,
            cursor.data == old(cursor).data,
            rest0 == old(cursor).rest(),
            match spec_parse_records(cursor.rest(), (count - i) as nat) {
                Some(tail) => spec_parse_records(rest0, count as nat) == Some(
                    records.deep_view() + tail,
                ),
                None => spec_parse_records(rest0, count as nat) is None,
            },
        decreases count - i,
    {
        let ghost rest_i = cursor.rest();
        let ghost recs_before = records.deep_view();
        let record_length = match cursor.read_varint() {
            Ok(v) => v,
            Err(e) => {
                return Err(e);
            },
        };
        if record_length < 0 {
            return Err(DecodeError::UnexpectedEnd);
        }
        let ghost n1 = varint64_parse(rest_i).unwrap().1;
        let rem = cursor.remaining();
        if (record_length as u64) > (rem as u64) {
            return Err(DecodeError::UnexpectedEnd);
        }
        let record_buf = match cursor.read_bytes(record_length as usize) {
            Ok(v) => v,
            Err(e) => {
                return Err(e);
            },
        };
        proof {
            assert(record_buf@ =~= rest_i.subrange(n1, n1 + record_length));
            lemma_seq_skip_of_skip(rest_i, n1, record_length as int);
            assert(cursor.rest() =~= rest_i.skip(n1 + record_length));
        }
        let mut record_cursor = Cursor::new(record_buf);
        let record = match parse_record(&mut record_cursor, record_length) {
            Ok(v) => v,
            Err(e) => {
                return Err(e);
            },
        };
        records.push(record);
        i = i + 1;
        proof {
            assert(records.deep_view() =~= recs_before.push(record.deep_view()));
            match spec_parse_records(cursor.rest(), (count - i) as nat) {
                Some(tail) => {
                    assert(spec_parse_records(rest_i, (count - i + 1) as nat)
                        == Some(seq![record.deep_view()] + tail));
                    assert(recs_before + (seq![record.deep_view()] + tail) =~= records.deep_view()
                        + tail);
                },
                None => {
                    assert(spec_parse_records(rest_i, (count - i + 1) as nat)
                        is None);
                },
            }
        }
    }
    proof {
        assert(spec_parse_records(cursor.rest(), 0) == Some(Seq::<RecordView>::empty()));
        assert(records.deep_view() + Seq::<RecordView>::empty() =~= records.deep_view());
    }
    Ok(records)
}

/// Parse one batch from its length-framed slice: the fixed header, then
/// exactly the stored count of records.
#[verifier::rlimit(100)]
pub fn parse_single_batch(cursor: &mut Cursor, batch_offset: u64, batch_length: u32) -> (r: Result<
    Batch,
    DecodeError,
>)
    ensures
        match r {
            Ok(b) => spec_parse_batch(old(cursor).rest(), batch_offset, batch_length) == Some(
                b.deep_view(),
            ),
            Err(_) => spec_parse_batch(old(cursor).rest(), batch_offset, batch_length) is None,
        },
{
    proof {
        reveal(spec_parse_batch);
    }
    let ghost orig = cursor.rest();
    let partition_leader_epoch = match cursor.read_u32() {
        Ok(v) => v,
        Err(e) => {
            return Err(e);
        },
    };
    let magic_byte = match cursor.read_u8() {
        Ok(v) => v,
        Err(e) => {
            return Err(e);
        },
    };
    proof {
        lemma_seq_skip_of_skip(orig, 4, 1);
        assert(cursor.rest() =~= orig.skip(5));
        assert(magic_byte == orig[4]);
        assert(orig.take(4) =~= orig.subrange(0, 4));
    }
    let crc = match cursor.read_u32() {
        Ok(v) => v,
        Err(e) => {
            return Err(e);
        },
    };
    proof {
        assert(orig.skip(5).take(4) =~= orig.subrange(5, 9));
        lemma_seq_skip_of_skip(orig, 5, 4);
        assert(cursor.rest() =~= orig.skip(9));
    }
    let attributes = match cursor.read_u16() {
        Ok(v) => v,
        Err(e) => {
            return Err(e);
        },
    };
    proof {
        assert(orig.skip(9).take(2) =~= orig.subrange(9, 11));
        lemma_seq_skip_of_skip(orig, 9, 2);
        assert(cursor.rest() =~= orig.skip(11));
    }
    let last_offset_delta = match cursor.read_u32() {
        Ok(v) => v,
        Err(e) => {
            return Err(e);
        },
    };
    proof {
        assert(orig.skip(11).take(4) =~= orig.subrange(11, 15));
        lemma_seq_skip_of_skip(orig, 11, 4);
        assert(cursor.rest() =~= orig.skip(15));
    }
    let base_timestamp = match cursor.read_u64() {
        Ok(v) => v,
        Err(e) => {
            return Err(e);
        },
    };
    proof {
        assert(orig.skip(15).take(8) =~= orig.subrange(15, 23));
        lemma_seq_skip_of_skip(orig, 15, 8);
        assert(cursor.rest() =~= orig.skip(23));
    }
    let max_timestamp = match cursor.read_u64() {
        Ok(v) => v,
        Err(e) => {
            return Err(e);
        },
    };
    proof {
        assert(orig.skip(23).take(8) =~= orig.subrange(23, 31));
        lemma_seq_skip_of_skip(orig, 23, 8);
        assert(cursor.rest() =~= orig.skip(31));
    }
    let producer_id = match cursor.read_i64() {
        Ok(v) => v,
        Err(e) => {
            return Err(e);
        },
    };
    proof {
        assert(orig.skip(31).take(8) =~= orig.subrange(31, 39));
        lemma_seq_skip_of_skip(orig, 31, 8);
        assert(cursor.rest() =~= orig.skip(39));
    }
    let producer_epoch = match cursor.read_i16() {
        Ok(v) => v,
        Err(e) => {
            return Err(e);
        },
    };
    proof {
        assert(orig.skip(39).take(2) =~= orig.subrange(39, 41));
        lemma_seq_skip_of_skip(orig, 39, 2);
        assert(cursor.rest() =~= orig.skip(41));
    }
    let base_sequence = match cursor.read_i32() {
        Ok(v) => v,
        Err(e) => {
            return Err(e);
        },
    };
    proof {
        assert(orig.skip(41).take(4) =~= orig.subrange(41, 45));
        lemma_seq_skip_of_skip(orig, 41, 4);
        assert(cursor.rest() =~= orig.skip(45));
    }
    let record_batch_length = match cursor.read_u32() {
        Ok(v) => v,
        Err(e) => {
            return Err(e);
        },
    };
    proof {
        assert(orig.skip(45).take(4) =~= orig.subrange(45, 49));
        lemma_seq_skip_of_skip(orig, 45, 4);
        assert(cursor.rest() =~= orig.skip(49));
    }
    let records = match parse_records(cursor, record_batch_length) {
        Ok(v) => v,
        Err(e) => {
            return Err(e);
        },
    };
    Ok(
        Batch {
            batch_offset,
            batch_length,
            partition_leader_epoch,
            magic_byte,
            crc,
            attributes,
            last_offset_delta,
            base_timestamp,
            max_timestamp,
            producer_id,
            producer_epoch,
            base_sequence,
            record_batch_length,
            records,
        },
    )
}

/// Parse the whole cluster-metadata log into its batches.
#[verifier::rlimit(100)]
pub fn parse_metadata_cluster(content: Vec<u8>) -> (r: Result<Cluster, DecodeError>)
    ensures
        match r {
            Ok(c) => spec_parse_cluster(content@) == Some(c.deep_view()),
            Err(_) => spec_parse_cluster(content@) is None,
        },
{
    let mut cursor = Cursor::new(content);
    let mut cluster: Vec<Batch> = Vec::new();
    proof {
        assert(cluster.deep_view() =~= Seq::<BatchView>::empty());
        match spec_parse_cluster(cursor.rest()) {
            Some(tail) => {
                assert(cluster.deep_view() + tail =~= tail);
            },
            None => {},
        }
    }
    while cursor.has_remaining()
        invariant
            match spec_parse_cluster(cursor.rest()) {
                Some(tail) => spec_parse_cluster(content@) == Some(cluster.deep_view() + tail),
                None => spec_parse_cluster(content@) is None,
            },
        decreases cursor.rest().len(),
    {
        let ghost rest_i = cursor.rest();
        let ghost cl_before = cluster.deep_view();
        let base_offset = match cursor.read_u64() {
            Ok(v) => v,
            Err(e) => {
                return Err(e);
            },
        };
        let batch_length = match cursor.read_u32() {
            Ok(v) => v,
            Err(e) => {
                return Err(e);
            },
        };
        proof {
            assert(rest_i.take(8) =~= rest_i.subrange(0, 8));
            assert(rest_i.skip(8).take(4) =~= rest_i.subrange(8, 12));
            lemma_seq_skip_of_skip(rest_i, 8, 4);
            assert(cursor.rest() =~= rest_i.skip(12));
        }
        let batch_buf = match cursor.read_bytes(batch_length as usize) {
            Ok(v) => v,
            Err(e) => {
                return Err(e);
            },
        };
        proof {
            assert(batch_buf@ =~= rest_i.subrange(12, 12 + batch_length));
            lemma_seq_skip_of_skip(rest_i, 12, batch_length as int);
            assert(cursor.rest() =~= rest_i.skip(12 + batch_length));
        }
        let mut batch_cursor = Cursor::new(batch_buf);
        let batch = match parse_single_batch(&mut batch_cursor, base_offset, batch_length) {
            Ok(v) => v,
            Err(e) => {
                return Err(e);
            },
        };
        cluster.push(batch);
        proof {
            assert(cluster.deep_view() =~= cl_before.push(batch.deep_view()));
            match spec_parse_cluster(cursor.rest()) {
                Some(tail) => {
                    assert(spec_parse_cluster(rest_i) == Some(seq![batch.deep_view()] + tail));
                    assert(cl_before + (seq![batch.deep_view()] + tail) =~= cluster.deep_view()
                        + tail);
                },
                None => {
                    assert(spec_parse_cluster(rest_i) is None);
                },
            }
        }
    }
    proof {
        assert(cursor.rest().len() == 0);
        assert(spec_parse_cluster(cursor.rest()) == Some(Seq::<BatchView>::empty()));
        assert(cluster.deep_view() + Seq::<BatchView>::empty() =~= cluster.deep_view());
    }
    Ok(cluster)
}

} // verus!

// Derived views over the snapshot: the flat topic and partition lists.
use vstd::prelude::*;

verus! {

/// Copy a byte vector.
pub fn copy_bytes(v: &Vec<u8>) -> (r: Vec<u8>)
    ensures
        r@ == v@,
{
    let mut r: Vec<u8> = Vec::new();
    crate::codec::put_slice(&mut r, v);
    proof {
        assert(Seq::<u8>::empty() + v@ =~= v@);
    }
    r
}

/// Copy a vector of 32-bit words.
pub fn copy_u32s(v: &Vec<u32>) -> (r: Vec<u32>)
    ensures
        r@ == v@,
{
    let mut r: Vec<u32> = Vec::new();
    let mut k: usize = 0;
    proof {
        assert(r@ =~= v@.take(0));
    }
    while k < v.len()
        invariant
            k <= v@.len(),
            r@ == v@.take(k as int),
        decreases v@.len() - k,
    {
        let x = v[k];
        r.push(x);
        proof {
            assert(v@.take(k + 1).drop_last() =~= v@.take(k as int));
            assert(r@ =~= v@.take(k + 1));
        }
        k = k + 1;
    }
    proof {
        assert(v@.take(v@.len() as int) =~= v@);
    }
    r
}

/// The flat lists the handlers consult: every topic and every partition
/// of the snapshot, in log order.
pub trait ClusterSummary {
    /// Every topic value of the snapshot, in log order.
    fn topics(&self) -> Vec<TopicValueRecord>;

    /// Every partition value of the snapshot, in log order.
    fn partitions(&self) -> Vec<PartitionValueRecord>;
}

impl ClusterSummary for Vec<Batch> {
    fn topics(&self) -> (r: Vec<TopicValueRecord>)
        ensures
            r.deep_view() == cluster_topics(self.deep_view()),
    {
        let ghost dv = self.deep_view();
        let mut out: Vec<TopicValueRecord> = Vec::new();
        let mut bi: usize = 0;
        proof {
            assert(dv.take(0) =~= Seq::<BatchView>::empty());
            assert(out.deep_view() =~= cluster_topics(dv.take(0)));
        }
        while bi < self.len()
            invariant
                bi <= self@.len(),
                dv == self.deep_view(),
                out.deep_view() == cluster_topics(dv.take(bi as int)),
            decreases self@.len() - bi,
        {
            let batch = &self[bi];
            let ghost rdv = batch.records.deep_view();
            let ghost out_batch_start = out.deep_view();
            let mut ri: usize = 0;
            proof {
                assert(rdv.take(0) =~= Seq::<RecordView>::empty());
                assert(out.deep_view() + records_topics(rdv.take(0)) =~= out.deep_view());
            }
            while ri < batch.records.len()
                invariant
                    ri <= batch.records@.len(),
                    bi < self@.len(),
                    dv == self.deep_view(),
                    *batch == self@[bi as int],
                    rdv == batch.records.deep_view(),
                    out_batch_start == cluster_topics(dv.take(bi as int)),
                    out.deep_view() == out_batch_start + records_topics(rdv.take(ri as int)),
                decreases batch.records@.len() - ri,
            {
                let ghost out_before = out.deep_view();
                let rec = &batch.records[ri];
                match &rec.value.value {
                    ValueRecord::TopicValue(t) => {
                        let copy = TopicValueRecord {
                            name_length: t.name_length,
                            name: copy_bytes(&t.name),
                            uuid: t.uuid,
                        };
                        proof {
                            assert(copy.deep_view() == t.deep_view());
                        }
                        out.push(copy);
                        proof {
                            assert(out.deep_view() =~= out_before + seq![t.deep_view()]);
                        }
                    },
                    _ => {},
                }
                ri = ri + 1;
                proof {
                    assert(rdv.take(ri as int).drop_last() =~= rdv.take(ri - 1));
                    assert(rdv[ri - 1] == rec.deep_view());
                    assert(records_topics(rdv.take(ri as int)) == records_topics(rdv.take(ri - 1))
                        + record_topics(rec.deep_view()));
                    assert(out.deep_view() =~= out_batch_start + records_topics(
                        rdv.take(ri as int),
                    ));
                }
            }
            bi = bi + 1;
            proof {
                assert(rdv.take(rdv.len() as int) =~= rdv);
                assert(dv.take(bi as int).drop_last() =~= dv.take(bi - 1));
                assert(dv[bi - 1] == batch.deep_view());
                assert(cluster_topics(dv.take(bi as int)) == cluster_topics(dv.take(bi - 1))
                    + records_topics(rdv));
            }
        }
        proof {
            assert(dv.take(dv.len() as int) =~= dv);
        }
        out
    }

    fn partitions(&self) -> (r: Vec<PartitionValueRecord>)
        ensures
            r.deep_view() == cluster_partitions(self.deep_view()),
    {
        let ghost dv = self.deep_view();
        let mut out: Vec<PartitionValueRecord> = Vec::new();
        let mut bi: usize = 0;
        proof {
            assert(dv.take(0) =~= Seq::<BatchView>::empty());
            assert(out.deep_view() =~= cluster_partitions(dv.take(0)));
        }
        while bi < self.len()
            invariant
                bi <= self@.len(),
                dv == self.deep_view(),
                out.deep_view() == cluster_partitions(dv.take(bi as int)),
            decreases self@.len() - bi,
        {
            let batch = &self[bi];
            let ghost rdv = batch.records.deep_view();
            let ghost out_batch_start = out.deep_view();
            let mut ri: usize = 0;
            proof {
                assert(rdv.take(0) =~= Seq::<RecordView>::empty());
                assert(out.deep_view() + records_partitions(rdv.take(0)) =~= out.deep_view());
            }
            while ri < batch.records.len()
                invariant
                    ri <= batch.records@.len(),
                    bi < self@.len(),
                    dv == self.deep_view(),
                    *batch == self@[bi as int],
                    rdv == batch.records.deep_view(),
                    out_batch_start == cluster_partitions(dv.take(bi as int)),
                    out.deep_view() == out_batch_start + records_partitions(rdv.take(ri as int)),
                decreases batch.records@.len() - ri,
            {
                let ghost out_before = out.deep_view();
                let rec = &batch.records[ri];
                match &rec.value.value {
                    ValueRecord::PartitionValue(p) => {
                        let copy = PartitionValueRecord {
                            id: p.id,
                            topic_uuid: p.topic_uuid,
                            leader_id: p.leader_id,
                            leader_epoch: p.leader_epoch,
                            replica_nodes: copy_u32s(&p.replica_nodes),
                            in_sync_replica_nodes: copy_u32s(&p.in_sync_replica_nodes),
                        };
                        proof {
                            assert(copy.deep_view() == p.deep_view());
                        }
                        out.push(copy);
                        proof {
                            assert(out.deep_view() =~= out_before + seq![p.deep_view()]);
                        }
                    },
                    _ => {},
                }
                ri = ri + 1;
                proof {
                    assert(rdv.take(ri as int).drop_last() =~= rdv.take(ri - 1));
                    assert(rdv[ri - 1] == rec.deep_view());
                    assert(records_partitions(rdv.take(ri as int)) == records_partitions(
                        rdv.take(ri - 1),
                    ) + record_partitions(rec.deep_view()));
                    assert(out.deep_view() =~= out_batch_start + records_partitions(
                        rdv.take(ri as int),
                    ));
                }
            }
            bi = bi + 1;
            proof {
                assert(rdv.take(rdv.len() as int) =~= rdv);
                assert(dv.take(bi as int).drop_last() =~= dv.take(bi - 1));
                assert(dv[bi - 1] == batch.deep_view());
                assert(cluster_partitions(dv.take(bi as int)) == cluster_partitions(
                    dv.take(bi - 1),
                ) + records_partitions(rdv));
            }
        }
        proof {
            assert(dv.take(dv.len() as int) =~= dv);
        }
        out
    }
}

/// The partitions that belong to one topic UUID, in log order: the
/// subsequence of the partition list whose entries join to that topic.
pub open spec fn partitions_of_topic(ps: Seq<PartitionView>, uuid: u128) -> Seq<PartitionView>
    decreases ps.len(),
{
    if ps.len() == 0 {
        Seq::empty()
    } else if ps.last().topic_uuid == uuid {
        partitions_of_topic(ps.drop_last(), uuid) + seq![ps.last()]
    } else {
        partitions_of_topic(ps.drop_last(), uuid)
    }
}

/// Law: for every topic UUID, the per-topic partition list holds only
/// entries that carry that UUID, and each of them stands in the
/// snapshot's partition list.
pub proof fn lemma_topic_partitions_match(ps: Seq<PartitionView>, uuid: u128, i: int)
    requires
        0 <= i < partitions_of_topic(ps, uuid).len(),
    ensures
        partitions_of_topic(ps, uuid)[i].topic_uuid == uuid,
        ps.contains(partitions_of_topic(ps, uuid)[i]),
    decreases ps.len(),
{
    let f = partitions_of_topic(ps, uuid);
    if ps.len() > 0 {
        let pre = partitions_of_topic(ps.drop_last(), uuid);
        if i < pre.len() {
            lemma_topic_partitions_match(ps.drop_last(), uuid, i);
            let x = pre[i];
            let j = choose|j: int| 0 <= j < ps.drop_last().len() && ps.drop_last()[j] == x;
            assert(ps[j] == x);
        } else {
            assert(f[i] == ps.last());
            assert(ps[ps.len() - 1] == ps.last());
        }
    }
}

} // verus!
