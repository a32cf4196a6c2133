//! The topic-description handler: for each requested topic name, an entry
//! with its UUID and partitions when the snapshot knows it, or the
//! unknown-topic error when it does not.

use vstd::prelude::*;

use crate::cluster::Batch;
use crate::cluster::ClusterSummary;
use crate::cluster::PartitionValueRecord;
use crate::cluster::PartitionView;
use crate::cluster::TopicValueRecord;
use crate::cluster::TopicView;
use crate::cluster::cluster_partitions;
use crate::cluster::cluster_topics;
use crate::cluster::partitions_of_topic;
use crate::codec::Cursor;
use crate::codec::DecodeError;
use crate::codec::ReadVarint;
use crate::codec::be_value;
use crate::codec::lemma_uvarint_parse_len;
use crate::codec::uvarint64_parse;
use crate::codec::uvarint_bytes;
use crate::codec::u32s_bytes;
use crate::codec::compact_bytes;
use crate::codec::be_bytes;
use crate::codec::bytes_eq;
use crate::codec::put_compact_bytes;
use crate::codec::put_compact_len;
use crate::codec::put_u16;
use crate::codec::put_u32;
use crate::codec::put_u32s;
use crate::codec::put_u8;
use crate::codec::put_uuid;
use crate::protocol::Request;
use crate::protocol::Response;
use vstd::seq_lib::lemma_seq_skip_of_skip;

verus! {

/// One requested topic of a description request.
#[derive(Debug)]
pub struct DescribeTopic {
    pub name_length: u64,
    pub topic_name: Vec<u8>,
    pub tag_buffer: u8,
}

/// A parsed description request.
#[derive(Debug)]
pub struct DescribeRequest {
    pub length: u8,
    pub response_partition_limit: u32,
    pub cursor: u8,
    pub tag_buffer: u8,
    pub topics: Vec<DescribeTopic>,
}

/// Mathematical form of one requested topic.
pub ghost struct DescribeTopicView {
    pub name_length: u64,
    pub topic_name: Seq<u8>,
    pub tag_buffer: u8,
}

/// Mathematical form of a description request.
pub ghost struct DescribeRequestView {
    pub length: u8,
    pub response_partition_limit: u32,
    pub cursor: u8,
    pub tag_buffer: u8,
    pub topics: Seq<DescribeTopicView>,
}

impl DeepView for DescribeTopic {
    type V = DescribeTopicView;

    open spec fn deep_view(&self) -> DescribeTopicView {
        DescribeTopicView {
            name_length: self.name_length,
            topic_name: self.topic_name@,
            tag_buffer: self.tag_buffer,
        }
    }
}

impl DeepView for DescribeRequest {
    type V = DescribeRequestView;

    open spec fn deep_view(&self) -> DescribeRequestView {
        DescribeRequestView {
            length: self.length,
            response_partition_limit: self.response_partition_limit,
            cursor: self.cursor,
            tag_buffer: self.tag_buffer,
            topics: self.topics.deep_view(),
        }
    }
}

/// Grammar of `count` requested topics: each a compact string (a stored
/// byte count plus one; a stored zero carries no bytes) and one
/// tagged-fields byte.
pub open spec fn spec_parse_describe_topics(data: Seq<u8>, count: nat) -> Option<
    (Seq<DescribeTopicView>, int),
>
    decreases count,
{
    if count == 0 {
        Some((Seq::empty(), 0))
    } else {
        match uvarint64_parse(data) {
            None => None,
            Some(p) => {
                let name_len: int = if p.0 == 0 {
                    0
                } else {
                    p.0 - 1
                };
                if data.len() < p.1 + name_len + 1 {
                    None
                } else {
                    let t = DescribeTopicView {
                        name_length: name_len as u64,
                        topic_name: data.subrange(p.1, p.1 + name_len),
                        tag_buffer: data[p.1 + name_len],
                    };
                    match spec_parse_describe_topics(
                        data.skip(p.1 + name_len + 1),
                        (count - 1) as nat,
                    ) {
                        None => None,
                        Some(rest) => Some((seq![t] + rest.0, p.1 + name_len + 1 + rest.1)),
                    }
                }
            },
        }
    }
}

/// Grammar of a description request body: a compact array of topic
/// names, a response partition limit, a cursor byte, and one
/// tagged-fields byte.
#[verifier::opaque]
pub open spec fn spec_parse_describe(data: Seq<u8>) -> Option<DescribeRequestView> {
    match uvarint64_parse(data) {
        None => None,
        Some(p) => {
            let count: nat = if p.0 == 0 {
                0
            } else {
                (p.0 - 1) as nat
            };
            match spec_parse_describe_topics(data.skip(p.1), count) {
                None => None,
                Some(ts) => {
                    let o = p.1 + ts.1;
                    if data.len() < o + 6 {
                        None
                    } else {
                        Some(
                            DescribeRequestView {
                                length: (count % 256) as u8,
                                response_partition_limit: be_value(
                                    data.subrange(o, o + 4),
                                ) as u32,
                                cursor: data[o + 4],
                                tag_buffer: data[o + 5],
                                topics: ts.0,
                            },
                        )
                    }
                },
            }
        },
    }
}

/// Parse `count` requested topics at the cursor.
#[verifier::rlimit(100)]
pub fn parse_describe_topics(cursor: &mut Cursor, count: u64) -> (r: Result<
    Vec<DescribeTopic>,
    DecodeError,
>)
    ensures
        final(cursor).data == old(cursor).data,
        match r {
            Ok(v) => match spec_parse_describe_topics(old(cursor).rest(), count as nat) {
                Some(ts) => {
                    &&& v.deep_view() == ts.0
                    &&& 0 <= ts.1 <= old(cursor).rest().len()
                    &&& final(cursor).pos == old(cursor).pos + ts.1
                    &&& final(cursor).rest() == old(cursor).rest().skip(ts.1)
                },
                None => false,
            },
            Err(_) => spec_parse_describe_topics(old(cursor).rest(), count as nat) is None,
        },
{
    let ghost rest0 = cursor.rest();
    let ghost start = cursor.pos;
    let ghost mut consumed: int = 0;
    let mut topics: Vec<DescribeTopic> = Vec::new();
    let mut i: u64 = 0;
    proof {
        assert(topics.deep_view() =~= Seq::<DescribeTopicView>::empty());
        assert(rest0.skip(0) =~= rest0);
        match spec_parse_describe_topics(rest0, count as nat) {
            Some(ts) => {
                assert(topics.deep_view() + ts.0 =~= ts.0);
            },
            None => {},
        }
    }
    while i < count
        invariant
            i <= count,
            cursor.data == old(cursor).data,
            rest0 == old(cursor).rest(),
            start == old(cursor).pos,
            0 <= consumed <= rest0.len(),
            cursor.pos == start + consumed,
            cursor.rest() == rest0.skip(consumed),
            match spec_parse_describe_topics(cursor.rest(), (count - i) as nat) {
                Some(ts) => spec_parse_describe_topics(rest0, count as nat) matches Some(all)
                    && all.0 == topics.deep_view() + ts.0 && all.1 == consumed + ts.1,
                None => spec_parse_describe_topics(rest0, count as nat) is None,
            },
        decreases count - i,
    {
        let ghost rest_i = cursor.rest();
        let ghost topics_before = topics.deep_view();
        let name_stored = match cursor.read_uvarint() {
            Ok(u) => u,
            Err(e) => {
                return Err(e);
            },
        };
        let ghost m1 = uvarint64_parse(rest_i).unwrap().1;
        proof {
            lemma_uvarint_parse_len(rest_i);
        }
        let topic_name = if name_stored == 0 {
            proof {
                assert(cursor.rest().take(0) =~= rest_i.subrange(m1, m1 + 0));
            }
            Vec::new()
        } else {
            let rem = cursor.remaining();
            if name_stored - 1 > rem as u64 {
                return Err(DecodeError::UnexpectedEnd);
            }
            match cursor.read_bytes((name_stored - 1) as usize) {
                Ok(v) => {
                    proof {
                        assert(v@ =~= rest_i.subrange(m1, m1 + (name_stored - 1)));
                        lemma_seq_skip_of_skip(rest_i, m1, (name_stored - 1) as int);
                    }
                    v
                },
                Err(e) => {
                    return Err(e);
                },
            }
        };
        let ghost name_len: int = if name_stored == 0 { 0int } else { name_stored - 1 };
        proof {
            assert(topic_name@ =~= rest_i.subrange(m1, m1 + name_len));
            assert(cursor.rest() =~= rest_i.skip(m1 + name_len));
        }
        let tag_buffer = match cursor.read_u8() {
            Ok(b) => b,
            Err(e) => {
                return Err(e);
            },
        };
        proof {
            assert(tag_buffer == rest_i[m1 + name_len]);
            lemma_seq_skip_of_skip(rest_i, m1 + name_len, 1);
            assert(cursor.rest() =~= rest_i.skip(m1 + name_len + 1));
        }
        let name_length: u64 = if name_stored == 0 {
            0
        } else {
            name_stored - 1
        };
        let entry = DescribeTopic { name_length, topic_name, tag_buffer };
        topics.push(entry);
        i = i + 1;
        proof {
            consumed = consumed + m1 + name_len + 1;
            lemma_seq_skip_of_skip(rest0, consumed - (m1 + name_len + 1), m1 + name_len + 1);
            assert(cursor.rest() =~= rest0.skip(consumed));
            assert(topics.deep_view() =~= topics_before.push(entry.deep_view()));
            match spec_parse_describe_topics(cursor.rest(), (count - i) as nat) {
                Some(ts) => {
                    assert(spec_parse_describe_topics(rest_i, (count - i + 1) as nat)
                        matches Some(prev) && prev.0 == seq![entry.deep_view()] + ts.0
                        && prev.1 == m1 + name_len + 1 + ts.1);
                    assert(topics_before + (seq![entry.deep_view()] + ts.0) =~= topics.deep_view()
                        + ts.0);
                },
                None => {
                    assert(spec_parse_describe_topics(rest_i, (count - i + 1) as nat) is None);
                },
            }
        }
    }
    proof {
        assert(spec_parse_describe_topics(cursor.rest(), 0) == Some(
            (Seq::<DescribeTopicView>::empty(), 0int),
        ));
        assert(topics.deep_view() + Seq::<DescribeTopicView>::empty() =~= topics.deep_view());
    }
    Ok(topics)
}

/// Parse a description request body.
#[verifier::rlimit(100)]
pub fn parse(data: &Vec<u8>) -> (r: Result<DescribeRequest, DecodeError>)
    ensures
        match r {
            Ok(d) => spec_parse_describe(data@) == Some(d.deep_view()),
            Err(_) => spec_parse_describe(data@) is None,
        },
{
    proof {
        reveal(spec_parse_describe);
    }
    let ghost input = data@;
    let mut cursor = Cursor::new(crate::cluster::copy_bytes(data));
    let stored = match cursor.read_uvarint() {
        Ok(u) => u,
        Err(e) => {
            return Err(e);
        },
    };
    let ghost n1 = uvarint64_parse(input).unwrap().1;
    proof {
        lemma_uvarint_parse_len(input);
    }
    let count: u64 = if stored == 0 {
        0
    } else {
        stored - 1
    };
    let ghost rest0 = cursor.rest();
    let topics = match parse_describe_topics(&mut cursor, count) {
        Ok(v) => v,
        Err(e) => {
            return Err(e);
        },
    };
    let ghost o = n1 + spec_parse_describe_topics(rest0, count as nat).unwrap().1;
    proof {
        lemma_seq_skip_of_skip(input, n1, o - n1);
        assert(cursor.rest() =~= input.skip(o));
    }
    let response_partition_limit = match cursor.read_u32() {
        Ok(v) => v,
        Err(e) => {
            return Err(e);
        },
    };
    proof {
        assert(input.skip(o).take(4) =~= input.subrange(o, o + 4));
        lemma_seq_skip_of_skip(input, o, 4);
        assert(cursor.rest() =~= input.skip(o + 4));
    }
    let curs = match cursor.read_u8() {
        Ok(b) => b,
        Err(e) => {
            return Err(e);
        },
    };
    proof {
        assert(curs == input[o + 4]);
        lemma_seq_skip_of_skip(input, o + 4, 1);
        assert(cursor.rest() =~= input.skip(o + 5));
    }
    let tag_buffer = match cursor.read_u8() {
        Ok(b) => b,
        Err(e) => {
            return Err(e);
        },
    };
    proof {
        assert(tag_buffer == input[o + 5]);
    }
    let length = (count % 256) as u8;
    Ok(DescribeRequest { cursor: curs, length, response_partition_limit, tag_buffer, topics })
}

/// One partition entry of a description response: no error, the
/// enumeration index, leader id and epoch, the replica and in-sync
/// replica lists as compact arrays, three empty compact arrays (eligible
/// leader replicas, last-known eligible leader replicas, offline
/// replicas) and an empty tagged-fields byte.
pub open spec fn describe_partition_bytes(p: PartitionView, index: nat) -> Seq<u8> {
    be_bytes(0, 2) + be_bytes(index % 0x1_0000_0000, 4) + be_bytes(p.leader_id as nat, 4)
        + be_bytes(p.leader_epoch as nat, 4) + uvarint_bytes(p.replica_nodes.len() + 1)
        + u32s_bytes(p.replica_nodes) + uvarint_bytes(p.in_sync_replica_nodes.len() + 1)
        + u32s_bytes(p.in_sync_replica_nodes) + seq![1u8, 1u8, 1u8, 0u8]
}

/// The partition entries of one topic, enumerated from `index`.
pub open spec fn partitions_list_bytes(ps: Seq<PartitionView>, index: nat) -> Seq<u8>
    decreases ps.len(),
{
    if ps.len() == 0 {
        Seq::empty()
    } else {
        describe_partition_bytes(ps[0], index) + partitions_list_bytes(ps.skip(1), index + 1)
    }
}

/// The first topic of the snapshot with the given name, if any.
pub open spec fn find_topic(ts: Seq<TopicView>, name: Seq<u8>) -> Option<TopicView>
    decreases ts.len(),
{
    if ts.len() == 0 {
        None
    } else if ts[0].name == name {
        Some(ts[0])
    } else {
        find_topic(ts.skip(1), name)
    }
}

/// One per-topic entry of a description response: error code 3 with a
/// zero UUID and an absent partition list when the topic is unknown, or
/// no error, its UUID and its partitions when it is known; either way the
/// echoed name, a zero is-internal byte, the fixed authorized-operations
/// word and an empty tagged-fields byte.
pub open spec fn describe_topic_bytes(
    name: Seq<u8>,
    topics: Seq<TopicView>,
    parts: Seq<PartitionView>,
) -> Seq<u8> {
    (match find_topic(topics, name) {
        None => be_bytes(3, 2) + compact_bytes(name) + be_bytes(0, 16) + seq![0u8, 1u8],
        Some(t) => {
            let ps = partitions_of_topic(parts, t.uuid);
            be_bytes(0, 2) + compact_bytes(name) + be_bytes(t.uuid as nat, 16) + seq![0u8]
                + uvarint_bytes(ps.len() + 1) + partitions_list_bytes(ps, 0)
        },
    }) + be_bytes(0xDF8, 4) + seq![0u8]
}

/// The per-topic entries of a description response, in request order.
pub open spec fn describe_topics_bytes(
    reqs: Seq<DescribeTopicView>,
    topics: Seq<TopicView>,
    parts: Seq<PartitionView>,
) -> Seq<u8>
    decreases reqs.len(),
{
    if reqs.len() == 0 {
        Seq::empty()
    } else {
        describe_topic_bytes(reqs[0].topic_name, topics, parts) + describe_topics_bytes(
            reqs.skip(1),
            topics,
            parts,
        )
    }
}

/// The whole description response body: a zero throttle time, the
/// topic count plus one (one byte), the per-topic entries, a null next
/// cursor and an empty tagged-fields byte.
pub open spec fn describe_body(
    d: DescribeRequestView,
    topics: Seq<TopicView>,
    parts: Seq<PartitionView>,
) -> Seq<u8> {
    be_bytes(0, 4) + seq![(((d.topics.len() + 1) % 256) as u8)] + describe_topics_bytes(
        d.topics,
        topics,
        parts,
    ) + seq![0xFFu8, 0u8]
}

/// Append one partition entry.
pub fn put_partition_entry(out: &mut Vec<u8>, p: &PartitionValueRecord, index: usize)
    ensures
        final(out)@ == old(out)@ + describe_partition_bytes(p.deep_view(), index as nat),
{
    put_u16(out, 0);
    put_u32(out, ((index as u64) % 0x1_0000_0000) as u32);
    put_u32(out, p.leader_id);
    put_u32(out, p.leader_epoch);
    put_compact_len(out, p.replica_nodes.len());
    put_u32s(out, &p.replica_nodes);
    put_compact_len(out, p.in_sync_replica_nodes.len());
    put_u32s(out, &p.in_sync_replica_nodes);
    put_u8(out, 1);
    put_u8(out, 1);
    put_u8(out, 1);
    put_u8(out, 0);
    proof {
        assert(out@ =~= old(out)@ + describe_partition_bytes(p.deep_view(), index as nat));
    }
}

/// The index of the first topic with the given name, if any.
pub fn find_topic_idx(topics: &Vec<TopicValueRecord>, name: &Vec<u8>) -> (r: Option<usize>)
    ensures
        match find_topic(topics.deep_view(), name@) {
            Some(t) => {
                &&& r matches Some(i)
                &&& i < topics@.len()
                &&& topics@[r.unwrap() as int].deep_view() == t
            },
            None => r is None,
        },
{
    let ghost dv = topics.deep_view();
    let mut i: usize = 0;
    proof {
        assert(dv.skip(0) =~= dv);
    }
    while i < topics.len()
        invariant
            i <= topics@.len(),
            dv == topics.deep_view(),
            find_topic(dv, name@) == find_topic(dv.skip(i as int), name@),
        decreases topics@.len() - i,
    {
        let t = &topics[i];
        if bytes_eq(&t.name, name) {
            proof {
                assert(dv.skip(i as int)[0] == dv[i as int]);
            }
            return Some(i);
        }
        i = i + 1;
        proof {
            assert(dv.skip(i - 1)[0] == dv[i - 1]);
            lemma_seq_skip_of_skip(dv, i - 1, 1);
            assert(dv.skip(i - 1).skip(1) =~= dv.skip(i as int));
        }
    }
    None
}

/// The partitions of one topic UUID, in log order, as owned copies.
pub fn collect_topic_partitions(parts: &Vec<PartitionValueRecord>, uuid: u128) -> (r: Vec<
    PartitionValueRecord,
>)
    ensures
        r.deep_view() == partitions_of_topic(parts.deep_view(), uuid),
{
    let ghost dv = parts.deep_view();
    let mut out: Vec<PartitionValueRecord> = Vec::new();
    let mut i: usize = 0;
    proof {
        assert(dv.take(0) =~= Seq::<PartitionView>::empty());
        assert(out.deep_view() =~= partitions_of_topic(dv.take(0), uuid));
    }
    while i < parts.len()
        invariant
            i <= parts@.len(),
            dv == parts.deep_view(),
            out.deep_view() == partitions_of_topic(dv.take(i as int), uuid),
        decreases parts@.len() - i,
    {
        let ghost out_before = out.deep_view();
        let p = &parts[i];
        if p.topic_uuid == uuid {
            let copy = PartitionValueRecord {
                id: p.id,
                topic_uuid: p.topic_uuid,
                leader_id: p.leader_id,
                leader_epoch: p.leader_epoch,
                replica_nodes: crate::cluster::copy_u32s(&p.replica_nodes),
                in_sync_replica_nodes: crate::cluster::copy_u32s(&p.in_sync_replica_nodes),
            };
            proof {
                assert(copy.deep_view() == p.deep_view());
            }
            out.push(copy);
            proof {
                assert(out.deep_view() =~= out_before + seq![p.deep_view()]);
            }
        }
        i = i + 1;
        proof {
            assert(dv.take(i as int).drop_last() =~= dv.take(i - 1));
            assert(dv.take(i as int).last() == dv[i - 1]);
            assert(dv[i - 1] == p.deep_view());
            if p.deep_view().topic_uuid == uuid {
            } else {
                assert(out.deep_view() =~= partitions_of_topic(dv.take(i as int), uuid));
            }
        }
    }
    proof {
        assert(dv.take(dv.len() as int) =~= dv);
    }
    out
}

/// Append one per-topic entry of the response.
#[verifier::rlimit(100)]
pub fn put_topic_entry(
    out: &mut Vec<u8>,
    name: &Vec<u8>,
    topics: &Vec<TopicValueRecord>,
    parts: &Vec<PartitionValueRecord>,
)
    ensures
        final(out)@ == old(out)@ + describe_topic_bytes(
            name@,
            topics.deep_view(),
            parts.deep_view(),
        ),
{
    match find_topic_idx(topics, name) {
        None => {
            put_u16(out, 3);
            put_compact_bytes(out, name);
            put_uuid(out, 0);
            put_u8(out, 0);
            put_u8(out, 1);
        },
        Some(ti) => {
            let t = &topics[ti];
            put_u16(out, 0);
            put_compact_bytes(out, name);
            put_uuid(out, t.uuid);
            put_u8(out, 0);
            let ps = collect_topic_partitions(parts, t.uuid);
            let ghost psdv = ps.deep_view();
            put_compact_len(out, ps.len());
            let ghost base = out@;
            let mut k: usize = 0;
            proof {
                assert(psdv.skip(0) =~= psdv);
            }
            while k < ps.len()
                invariant
                    k <= ps@.len(),
                    psdv == ps.deep_view(),
                    base + partitions_list_bytes(psdv, 0) == out@ + partitions_list_bytes(
                        psdv.skip(k as int),
                        k as nat,
                    ),
                decreases ps@.len() - k,
            {
                let ghost before = out@;
                let p = &ps[k];
                put_partition_entry(out, p, k);
                k = k + 1;
                proof {
                    assert(psdv.skip(k - 1)[0] == psdv[k - 1]);
                    assert(psdv[k - 1] == p.deep_view());
                    lemma_seq_skip_of_skip(psdv, k - 1, 1);
                    assert(psdv.skip(k - 1).skip(1) =~= psdv.skip(k as int));
                    assert(partitions_list_bytes(psdv.skip(k - 1), (k - 1) as nat)
                        == describe_partition_bytes(psdv[k - 1], (k - 1) as nat)
                        + partitions_list_bytes(psdv.skip(k as int), k as nat));
                    assert(before + (describe_partition_bytes(psdv[k - 1], (k - 1) as nat)
                        + partitions_list_bytes(psdv.skip(k as int), k as nat)) =~= out@
                        + partitions_list_bytes(psdv.skip(k as int), k as nat));
                }
            }
            proof {
                assert(partitions_list_bytes(psdv.skip(psdv.len() as int), psdv.len() as nat)
                    == Seq::<u8>::empty());
                assert(out@ + Seq::<u8>::empty() =~= out@);
            }
        },
    };
    put_u32(out, 0xDF8);
    put_u8(out, 0);
    proof {
        assert(out@ =~= old(out)@ + describe_topic_bytes(
            name@,
            topics.deep_view(),
            parts.deep_view(),
        ));
    }
}

/// Append the topic-description response body: the exact bytes of the
/// grammar above for a version-zero request, or the single error code 35
/// for any other version. A malformed request body is reported back to
/// the caller, which ends the connection.
#[verifier::rlimit(100)]
pub fn handle(req: &Request, res: &mut Response, cluster: &Vec<Batch>) -> (r: Result<
    (),
    DecodeError,
>)
    ensures
        final(res).correlation_id == old(res).correlation_id,
        final(res).api_key == old(res).api_key,
        req.request_api_version != 0 ==> r is Ok && final(res).body@ == old(res).body@
            + be_bytes(35, 2),
        req.request_api_version == 0 ==> match spec_parse_describe(req.data@) {
            Some(d) => r is Ok && final(res).body@ == old(res).body@ + describe_body(
                d,
                cluster_topics(cluster.deep_view()),
                cluster_partitions(cluster.deep_view()),
            ),
            None => r is Err && final(res).body@ == old(res).body@ + be_bytes(0, 4),
        },
{
    if req.request_api_version == 0 {
        put_u32(&mut res.body, 0);
        let parsed = match parse(&req.data) {
            Ok(d) => d,
            Err(e) => {
                return Err(e);
            },
        };
        let topics_list = cluster.topics();
        let parts_list = cluster.partitions();
        let cnt = parsed.topics.len();
        put_u8(&mut res.body, ((cnt % 256 + 1) % 256) as u8);
        let ghost tdv = parsed.topics.deep_view();
        let ghost topicsdv = topics_list.deep_view();
        let ghost partsdv = parts_list.deep_view();
        let ghost base = res.body@;
        let mut ti: usize = 0;
        proof {
            assert(tdv.skip(0) =~= tdv);
        }
        while ti < parsed.topics.len()
            invariant
                ti <= parsed.topics@.len(),
                tdv == parsed.topics.deep_view(),
                topicsdv == topics_list.deep_view(),
                partsdv == parts_list.deep_view(),
                res.correlation_id == old(res).correlation_id,
                res.api_key == old(res).api_key,
                base + describe_topics_bytes(tdv, topicsdv, partsdv) == res.body@
                    + describe_topics_bytes(tdv.skip(ti as int), topicsdv, partsdv),
            decreases parsed.topics@.len() - ti,
        {
            let ghost before = res.body@;
            let topic = &parsed.topics[ti];
            put_topic_entry(&mut res.body, &topic.topic_name, &topics_list, &parts_list);
            ti = ti + 1;
            proof {
                assert(tdv.skip(ti - 1)[0] == tdv[ti - 1]);
                assert(tdv[ti - 1] == topic.deep_view());
                lemma_seq_skip_of_skip(tdv, ti - 1, 1);
                assert(tdv.skip(ti - 1).skip(1) =~= tdv.skip(ti as int));
                assert(describe_topics_bytes(tdv.skip(ti - 1), topicsdv, partsdv)
                    == describe_topic_bytes(tdv[ti - 1].topic_name, topicsdv, partsdv)
                    + describe_topics_bytes(tdv.skip(ti as int), topicsdv, partsdv));
                assert(before + (describe_topic_bytes(tdv[ti - 1].topic_name, topicsdv, partsdv)
                    + describe_topics_bytes(tdv.skip(ti as int), topicsdv, partsdv)) =~= res.body@
                    + describe_topics_bytes(tdv.skip(ti as int), topicsdv, partsdv));
            }
        }
        proof {
            assert(describe_topics_bytes(tdv.skip(tdv.len() as int), topicsdv, partsdv)
                == Seq::<u8>::empty());
            assert(res.body@ + Seq::<u8>::empty() =~= res.body@);
        }
        put_u8(&mut res.body, 0xFF);
        put_u8(&mut res.body, 0);
        proof {
            assert(res.body@ =~= old(res).body@ + describe_body(
                parsed.deep_view(),
                topicsdv,
                partsdv,
            ));
        }
        Ok(())
    } else {
        put_u16(&mut res.body, 35);
        proof {
            assert(res.body@ =~= old(res).body@ + be_bytes(35, 2));
        }
        Ok(())
    }
}

} // verus!