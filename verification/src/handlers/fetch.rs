//! The fetch handler: for each requested topic UUID, one partition entry
//! (index zero) carrying the partition's log-segment bytes when the topic
//! is known, or the unknown-topic-id error when it is not.

use vstd::prelude::*;

use crate::cluster::Batch;
use crate::cluster::ClusterSummary;
use crate::cluster::TopicValueRecord;
use crate::cluster::TopicView;
use crate::cluster::cluster_topics;
use crate::cluster::copy_bytes;
use crate::codec::Cursor;
use crate::codec::DecodeError;
use crate::codec::ReadVarint;
use crate::codec::be_bytes;
use crate::codec::be_value;
use crate::codec::compact_bytes;
use crate::codec::lemma_uvarint_parse_len;
use crate::codec::put_compact_bytes;
use crate::codec::put_i16;
use crate::codec::put_i32;
use crate::codec::put_i64;
use crate::codec::put_u16;
use crate::codec::put_u32;
use crate::codec::put_u8;
use crate::codec::put_uuid;
use crate::codec::twos_complement;
use crate::codec::uvarint64_parse;
use crate::protocol::Request;
use crate::protocol::Response;
use vstd::seq_lib::lemma_seq_skip_of_skip;

verus! {

/// One requested partition of a fetch request.
#[derive(Debug, Clone, Copy, PartialEq, Eq, Structural)]
pub struct Partition {
    pub partition: i32,
    pub current_leader_epoch: i32,
    pub fetch_offset: i64,
    pub last_fetched_epoch: i32,
    pub log_start_offset: i64,
    pub partition_max_bytes: i32,
}

impl DeepView for Partition {
    type V = Partition;

    open spec fn deep_view(&self) -> Partition {
        *self
    }
}

/// One requested topic of a fetch request.
#[derive(Debug)]
pub struct Topic {
    pub topic_id: u128,
    pub partitions: Vec<Partition>,
}

/// Mathematical form of one requested topic.
pub ghost struct FetchTopicView {
    pub topic_id: u128,
    pub partitions: Seq<Partition>,
}

impl DeepView for Topic {
    type V = FetchTopicView;

    open spec fn deep_view(&self) -> FetchTopicView {
        FetchTopicView { topic_id: self.topic_id, partitions: self.partitions.deep_view() }
    }
}

/// One forgotten-topic entry of a fetch request.
#[derive(Debug)]
pub struct ForgottenTopicData {
    pub topic_id: u128,
    pub partitions: Vec<i32>,
}

/// Mathematical form of one forgotten-topic entry.
pub ghost struct ForgottenTopicView {
    pub topic_id: u128,
    pub partitions: Seq<i32>,
}

impl DeepView for ForgottenTopicData {
    type V = ForgottenTopicView;

    open spec fn deep_view(&self) -> ForgottenTopicView {
        ForgottenTopicView { topic_id: self.topic_id, partitions: self.partitions@ }
    }
}

/// A parsed fetch request.
#[derive(Debug)]
pub struct FetchRequest {
    pub max_wait_ms: i32,
    pub min_bytes: i32,
    pub max_bytes: i32,
    pub isolation_level: i8,
    pub session_id: i32,
    pub session_epoch: i32,
    pub topics: Vec<Topic>,
    pub forgotten_topics_data: Vec<ForgottenTopicData>,
    pub rack_id: Vec<u8>,
}

/// Mathematical form of a fetch request.
pub ghost struct FetchRequestView {
    pub max_wait_ms: i32,
    pub min_bytes: i32,
    pub max_bytes: i32,
    pub isolation_level: i8,
    pub session_id: i32,
    pub session_epoch: i32,
    pub topics: Seq<FetchTopicView>,
    pub forgotten_topics_data: Seq<ForgottenTopicView>,
    pub rack_id: Seq<u8>,
}

impl DeepView for FetchRequest {
    type V = FetchRequestView;

    open spec fn deep_view(&self) -> FetchRequestView {
        FetchRequestView {
            max_wait_ms: self.max_wait_ms,
            min_bytes: self.min_bytes,
            max_bytes: self.max_bytes,
            isolation_level: self.isolation_level,
            session_id: self.session_id,
            session_epoch: self.session_epoch,
            topics: self.topics.deep_view(),
            forgotten_topics_data: self.forgotten_topics_data.deep_view(),
            rack_id: self.rack_id@,
        }
    }
}

/// Grammar of `count` requested partitions: six fixed words and a
/// tagged-fields byte each.
pub open spec fn spec_parse_fetch_partitions(data: Seq<u8>, count: nat) -> Option<
    (Seq<Partition>, int),
>
    decreases count,
{
    if count == 0 {
        Some((Seq::empty(), 0))
    } else if data.len() < 33 {
        None
    } else {
        let p = Partition {
            partition: twos_complement(be_value(data.subrange(0, 4)), 0x1_0000_0000) as i32,
            current_leader_epoch: twos_complement(
                be_value(data.subrange(4, 8)),
                0x1_0000_0000,
            ) as i32,
            fetch_offset: twos_complement(
                be_value(data.subrange(8, 16)),
                0x1_0000_0000_0000_0000,
            ) as i64,
            last_fetched_epoch: twos_complement(
                be_value(data.subrange(16, 20)),
                0x1_0000_0000,
            ) as i32,
            log_start_offset: twos_complement(
                be_value(data.subrange(20, 28)),
                0x1_0000_0000_0000_0000,
            ) as i64,
            partition_max_bytes: twos_complement(
                be_value(data.subrange(28, 32)),
                0x1_0000_0000,
            ) as i32,
        };
        match spec_parse_fetch_partitions(data.skip(33), (count - 1) as nat) {
            None => None,
            Some(rest) => Some((seq![p] + rest.0, 33 + rest.1)),
        }
    }
}

/// Grammar of `count` requested topics: a topic UUID, a compact array of
/// partitions, and a tagged-fields byte each.
pub open spec fn spec_parse_fetch_topics(data: Seq<u8>, count: nat) -> Option<
    (Seq<FetchTopicView>, int),
>
    decreases count,
{
    if count == 0 {
        Some((Seq::empty(), 0))
    } else if data.len() < 16 {
        None
    } else {
        let topic_id = be_value(data.subrange(0, 16)) as u128;
        match uvarint64_parse(data.skip(16)) {
            None => None,
            Some(c) => {
                let pcount: nat = if c.0 == 0 {
                    0
                } else {
                    (c.0 - 1) as nat
                };
                match spec_parse_fetch_partitions(data.skip(16 + c.1), pcount) {
                    None => None,
                    Some(ps) => {
                        let o = 16 + c.1 + ps.1;
                        if data.len() < o + 1 {
                            None
                        } else {
                            let t = FetchTopicView { topic_id, partitions: ps.0 };
                            match spec_parse_fetch_topics(data.skip(o + 1), (count - 1) as nat) {
                                None => None,
                                Some(rest) => Some((seq![t] + rest.0, o + 1 + rest.1)),
                            }
                        }
                    },
                }
            },
        }
    }
}

/// Grammar of a run of `count` big-endian `i32` values.
pub open spec fn spec_parse_i32s(data: Seq<u8>, count: nat) -> Option<(Seq<i32>, int)>
    decreases count,
{
    if count == 0 {
        Some((Seq::empty(), 0))
    } else if data.len() < 4 {
        None
    } else {
        let v = twos_complement(be_value(data.subrange(0, 4)), 0x1_0000_0000) as i32;
        match spec_parse_i32s(data.skip(4), (count - 1) as nat) {
            None => None,
            Some(rest) => Some((seq![v] + rest.0, 4 + rest.1)),
        }
    }
}

/// Grammar of `count` forgotten-topic entries: a topic UUID, a compact
/// array of partition indexes, and a tagged-fields byte each.
pub open spec fn spec_parse_forgotten(data: Seq<u8>, count: nat) -> Option<
    (Seq<ForgottenTopicView>, int),
>
    decreases count,
{
    if count == 0 {
        Some((Seq::empty(), 0))
    } else if data.len() < 16 {
        None
    } else {
        let topic_id = be_value(data.subrange(0, 16)) as u128;
        match uvarint64_parse(data.skip(16)) {
            None => None,
            Some(c) => {
                let pcount: nat = if c.0 == 0 {
                    0
                } else {
                    (c.0 - 1) as nat
                };
                match spec_parse_i32s(data.skip(16 + c.1), pcount) {
                    None => None,
                    Some(ps) => {
                        let o = 16 + c.1 + ps.1;
                        if data.len() < o + 1 {
                            None
                        } else {
                            let t = ForgottenTopicView { topic_id, partitions: ps.0 };
                            match spec_parse_forgotten(data.skip(o + 1), (count - 1) as nat) {
                                None => None,
                                Some(rest) => Some((seq![t] + rest.0, o + 1 + rest.1)),
                            }
                        }
                    },
                }
            },
        }
    }
}

/// Grammar of a fetch request body: six fixed words, a compact array of
/// topics, a compact array of forgotten topics, a compact rack id string,
/// and a tagged-fields byte.
#[verifier::opaque]
pub open spec fn spec_parse_fetch(data: Seq<u8>) -> Option<FetchRequestView> {
    if data.len() < 21 {
        None
    } else {
        match uvarint64_parse(data.skip(21)) {
            None => None,
            Some(tc) => {
                let tcount: nat = if tc.0 == 0 {
                    0
                } else {
                    (tc.0 - 1) as nat
                };
                match spec_parse_fetch_topics(data.skip(21 + tc.1), tcount) {
                    None => None,
                    Some(ts) => {
                        let o1 = 21 + tc.1 + ts.1;
                        match uvarint64_parse(data.skip(o1)) {
                            None => None,
                            Some(fc) => {
                                let fcount: nat = if fc.0 == 0 {
                                    0
                                } else {
                                    (fc.0 - 1) as nat
                                };
                                match spec_parse_forgotten(data.skip(o1 + fc.1), fcount) {
                                    None => None,
                                    Some(fs) => {
                                        let o2 = o1 + fc.1 + fs.1;
                                        match uvarint64_parse(data.skip(o2)) {
                                            None => None,
                                            Some(rc) => {
                                                let rlen: int = if rc.0 == 0 {
                                                    0
                                                } else {
                                                    rc.0 - 1
                                                };
                                                let o3 = o2 + rc.1;
                                                if data.len() < o3 + rlen + 1 {
                                                    None
                                                } else {
                                                    Some(
                                                        FetchRequestView {
                                                            max_wait_ms: twos_complement(
                                                                be_value(data.subrange(0, 4)),
                                                                0x1_0000_0000,
                                                            ) as i32,
                                                            min_bytes: twos_complement(
                                                                be_value(data.subrange(4, 8)),
                                                                0x1_0000_0000,
                                                            ) as i32,
                                                            max_bytes: twos_complement(
                                                                be_value(data.subrange(8, 12)),
                                                                0x1_0000_0000,
                                                            ) as i32,
                                                            isolation_level: twos_complement(
                                                                data[12] as nat,
                                                                0x100,
                                                            ) as i8,
                                                            session_id: twos_complement(
                                                                be_value(data.subrange(13, 17)),
                                                                0x1_0000_0000,
                                                            ) as i32,
                                                            session_epoch: twos_complement(
                                                                be_value(data.subrange(17, 21)),
                                                                0x1_0000_0000,
                                                            ) as i32,
                                                            topics: ts.0,
                                                            forgotten_topics_data: fs.0,
                                                            rack_id: data.subrange(
                                                                o3,
                                                                o3 + rlen,
                                                            ),
                                                        },
                                                    )
                                                }
                                            },
                                        }
                                    },
                                }
                            },
                        }
                    },
                }
            },
        }
    }
}

} // verus!

// The executable fetch-request parser.
use vstd::prelude::*;

verus! {

/// Parse `count` requested partitions at the cursor.
#[verifier::rlimit(100)]
pub fn parse_fetch_partitions(cursor: &mut Cursor, count: u64) -> (r: Result<
    Vec<Partition>,
    DecodeError,
>)
    ensures
        final(cursor).data == old(cursor).data,
        match r {
            Ok(v) => match spec_parse_fetch_partitions(old(cursor).rest(), count as nat) {
                Some(ps) => {
                    &&& v.deep_view() == ps.0
                    &&& 0 <= ps.1 <= old(cursor).rest().len()
                    &&& final(cursor).pos == old(cursor).pos + ps.1
                    &&& final(cursor).rest() == old(cursor).rest().skip(ps.1)
                },
                None => false,
            },
            Err(_) => spec_parse_fetch_partitions(old(cursor).rest(), count as nat) is None,
        },
{
    let ghost rest0 = cursor.rest();
    let ghost start = cursor.pos;
    let ghost mut consumed: int = 0;
    let mut out: Vec<Partition> = Vec::new();
    let mut i: u64 = 0;
    proof {
        assert(out.deep_view() =~= Seq::<Partition>::empty());
        assert(rest0.skip(0) =~= rest0);
        match spec_parse_fetch_partitions(rest0, count as nat) {
            Some(ps) => {
                assert(out.deep_view() + ps.0 =~= ps.0);
            },
            None => {},
        }
    }
    while i < count
        invariant
            i <= count,
            cursor.data == old(cursor).data,
            rest0 == old(cursor).rest(),
            start == old(cursor).pos,
            0 <= consumed <= rest0.len(),
            cursor.pos == start + consumed,
            cursor.rest() == rest0.skip(consumed),
            match spec_parse_fetch_partitions(cursor.rest(), (count - i) as nat) {
                Some(ps) => spec_parse_fetch_partitions(rest0, count as nat) matches Some(all)
                    && all.0 == out.deep_view() + ps.0 && all.1 == consumed + ps.1,
                None => spec_parse_fetch_partitions(rest0, count as nat) is None,
            },
        decreases count - i,
    {
        let ghost rest_i = cursor.rest();
        let ghost out_before = out.deep_view();
        let partition = match cursor.read_i32() {
            Ok(v) => v,
            Err(e) => {
                return Err(e);
            },
        };
        let current_leader_epoch = match cursor.read_i32() {
            Ok(v) => v,
            Err(e) => {
                return Err(e);
            },
        };
        proof {
            assert(rest_i.skip(4).take(4) =~= rest_i.subrange(4, 8));
            lemma_seq_skip_of_skip(rest_i, 4, 4);
            assert(cursor.rest() =~= rest_i.skip(8));
        }
        let fetch_offset = match cursor.read_i64() {
            Ok(v) => v,
            Err(e) => {
                return Err(e);
            },
        };
        proof {
            assert(rest_i.skip(8).take(8) =~= rest_i.subrange(8, 16));
            lemma_seq_skip_of_skip(rest_i, 8, 8);
            assert(cursor.rest() =~= rest_i.skip(16));
        }
        let last_fetched_epoch = match cursor.read_i32() {
            Ok(v) => v,
            Err(e) => {
                return Err(e);
            },
        };
        proof {
            assert(rest_i.skip(16).take(4) =~= rest_i.subrange(16, 20));
            lemma_seq_skip_of_skip(rest_i, 16, 4);
            assert(cursor.rest() =~= rest_i.skip(20));
        }
        let log_start_offset = match cursor.read_i64() {
            Ok(v) => v,
            Err(e) => {
                return Err(e);
            },
        };
        proof {
            assert(rest_i.skip(20).take(8) =~= rest_i.subrange(20, 28));
            lemma_seq_skip_of_skip(rest_i, 20, 8);
            assert(cursor.rest() =~= rest_i.skip(28));
        }
        let partition_max_bytes = match cursor.read_i32() {
            Ok(v) => v,
            Err(e) => {
                return Err(e);
            },
        };
        proof {
            assert(rest_i.skip(28).take(4) =~= rest_i.subrange(28, 32));
            lemma_seq_skip_of_skip(rest_i, 28, 4);
            assert(cursor.rest() =~= rest_i.skip(32));
        }
        match cursor.advance(1) {
            Ok(()) => {},
            Err(e) => {
                return Err(e);
            },
        };
        proof {
            lemma_seq_skip_of_skip(rest_i, 32, 1);
            assert(cursor.rest() =~= rest_i.skip(33));
        }
        let p = Partition {
            partition,
            current_leader_epoch,
            fetch_offset,
            last_fetched_epoch,
            log_start_offset,
            partition_max_bytes,
        };
        out.push(p);
        i = i + 1;
        proof {
            consumed = consumed + 33;
            lemma_seq_skip_of_skip(rest0, consumed - 33, 33);
            assert(cursor.rest() =~= rest0.skip(consumed));
            assert(out.deep_view() =~= out_before.push(p));
            match spec_parse_fetch_partitions(cursor.rest(), (count - i) as nat) {
                Some(ps) => {
                    assert(spec_parse_fetch_partitions(rest_i, (count - i + 1) as nat)
                        matches Some(prev) && prev.0 == seq![p] + ps.0 && prev.1 == 33 + ps.1);
                    assert(out_before + (seq![p] + ps.0) =~= out.deep_view() + ps.0);
                },
                None => {
                    assert(spec_parse_fetch_partitions(rest_i, (count - i + 1) as nat) is None);
                },
            }
        }
    }
    proof {
        assert(spec_parse_fetch_partitions(cursor.rest(), 0) == Some(
            (Seq::<Partition>::empty(), 0int),
        ));
        assert(out.deep_view() + Seq::<Partition>::empty() =~= out.deep_view());
    }
    Ok(out)
}

/// Parse `count` requested topics at the cursor.
#[verifier::rlimit(100)]
pub fn parse_fetch_topics(cursor: &mut Cursor, count: u64) -> (r: Result<Vec<Topic>, DecodeError>)
    ensures
        final(cursor).data == old(cursor).data,
        match r {
            Ok(v) => match spec_parse_fetch_topics(old(cursor).rest(), count as nat) {
                Some(ts) => {
                    &&& v.deep_view() == ts.0
                    &&& 0 <= ts.1 <= old(cursor).rest().len()
                    &&& final(cursor).pos == old(cursor).pos + ts.1
                    &&& final(cursor).rest() == old(cursor).rest().skip(ts.1)
                },
                None => false,
            },
            Err(_) => spec_parse_fetch_topics(old(cursor).rest(), count as nat) is None,
        },
{
    let ghost rest0 = cursor.rest();
    let ghost start = cursor.pos;
    let ghost mut consumed: int = 0;
    let mut out: Vec<Topic> = Vec::new();
    let mut i: u64 = 0;
    proof {
        assert(out.deep_view() =~= Seq::<FetchTopicView>::empty());
        assert(rest0.skip(0) =~= rest0);
        match spec_parse_fetch_topics(rest0, count as nat) {
            Some(ts) => {
                assert(out.deep_view() + ts.0 =~= ts.0);
            },
            None => {},
        }
    }
    while i < count
        invariant
            i <= count,
            cursor.data == old(cursor).data,
            rest0 == old(cursor).rest(),
            start == old(cursor).pos,
            0 <= consumed <= rest0.len(),
            cursor.pos == start + consumed,
            cursor.rest() == rest0.skip(consumed),
            match spec_parse_fetch_topics(cursor.rest(), (count - i) as nat) {
                Some(ts) => spec_parse_fetch_topics(rest0, count as nat) matches Some(all)
                    && all.0 == out.deep_view() + ts.0 && all.1 == consumed + ts.1,
                None => spec_parse_fetch_topics(rest0, count as nat) is None,
            },
        decreases count - i,
    {
        let ghost rest_i = cursor.rest();
        let ghost out_before = out.deep_view();
        let topic_id = match cursor.read_uuid() {
            Ok(v) => v,
            Err(e) => {
                return Err(e);
            },
        };
        proof {
            assert(rest_i.take(16) =~= rest_i.subrange(0, 16));
        }
        let pstored = match cursor.read_uvarint() {
            Ok(v) => v,
            Err(e) => {
                return Err(e);
            },
        };
        let ghost c1 = uvarint64_parse(rest_i.skip(16)).unwrap().1;
        proof {
            lemma_uvarint_parse_len(rest_i.skip(16));
            lemma_seq_skip_of_skip(rest_i, 16, c1);
            assert(cursor.rest() =~= rest_i.skip(16 + c1));
        }
        let pcount: u64 = if pstored == 0 {
            0
        } else {
            pstored - 1
        };
        let partitions = match parse_fetch_partitions(cursor, pcount) {
            Ok(v) => v,
            Err(e) => {
                return Err(e);
            },
        };
        let ghost pn = spec_parse_fetch_partitions(rest_i.skip(16 + c1), pcount as nat).unwrap().1;
        let ghost o = 16 + c1 + pn;
        proof {
            lemma_seq_skip_of_skip(rest_i, 16 + c1, pn);
            assert(cursor.rest() =~= rest_i.skip(o));
        }
        match cursor.advance(1) {
            Ok(()) => {},
            Err(e) => {
                return Err(e);
            },
        };
        proof {
            lemma_seq_skip_of_skip(rest_i, o, 1);
            assert(cursor.rest() =~= rest_i.skip(o + 1));
        }
        let t = Topic { topic_id, partitions };
        out.push(t);
        i = i + 1;
        proof {
            consumed = consumed + o + 1;
            lemma_seq_skip_of_skip(rest0, consumed - (o + 1), o + 1);
            assert(cursor.rest() =~= rest0.skip(consumed));
            assert(out.deep_view() =~= out_before.push(t.deep_view()));
            match spec_parse_fetch_topics(cursor.rest(), (count - i) as nat) {
                Some(ts) => {
                    assert(spec_parse_fetch_topics(rest_i, (count - i + 1) as nat)
                        matches Some(prev) && prev.0 == seq![t.deep_view()] + ts.0 && prev.1 == o
                        + 1 + ts.1);
                    assert(out_before + (seq![t.deep_view()] + ts.0) =~= out.deep_view() + ts.0);
                },
                None => {
                    assert(spec_parse_fetch_topics(rest_i, (count - i + 1) as nat) is None);
                },
            }
        }
    }
    proof {
        assert(spec_parse_fetch_topics(cursor.rest(), 0) == Some(
            (Seq::<FetchTopicView>::empty(), 0int),
        ));
        assert(out.deep_view() + Seq::<FetchTopicView>::empty() =~= out.deep_view());
    }
    Ok(out)
}

/// Parse a run of `count` big-endian `i32` values at the cursor.
#[verifier::rlimit(100)]
pub fn parse_i32s(cursor: &mut Cursor, count: u64) -> (r: Result<Vec<i32>, DecodeError>)
    ensures
        final(cursor).data == old(cursor).data,
        match r {
            Ok(v) => match spec_parse_i32s(old(cursor).rest(), count as nat) {
                Some(ps) => {
                    &&& v@ == ps.0
                    &&& 0 <= ps.1 <= old(cursor).rest().len()
                    &&& final(cursor).pos == old(cursor).pos + ps.1
                    &&& final(cursor).rest() == old(cursor).rest().skip(ps.1)
                },
                None => false,
            },
            Err(_) => spec_parse_i32s(old(cursor).rest(), count as nat) is None,
        },
{
    let ghost rest0 = cursor.rest();
    let ghost start = cursor.pos;
    let ghost mut consumed: int = 0;
    let mut out: Vec<i32> = Vec::new();
    let mut i: u64 = 0;
    proof {
        assert(rest0.skip(0) =~= rest0);
        match spec_parse_i32s(rest0, count as nat) {
            Some(ps) => {
                assert(out@ + ps.0 =~= ps.0);
            },
            None => {},
        }
    }
    while i < count
        invariant
            i <= count,
            cursor.data == old(cursor).data,
            rest0 == old(cursor).rest(),
            start == old(cursor).pos,
            0 <= consumed <= rest0.len(),
            cursor.pos == start + consumed,
            cursor.rest() == rest0.skip(consumed),
            match spec_parse_i32s(cursor.rest(), (count - i) as nat) {
                Some(ps) => spec_parse_i32s(rest0, count as nat) matches Some(all) && all.0 == out@
                    + ps.0 && all.1 == consumed + ps.1,
                None => spec_parse_i32s(rest0, count as nat) is None,
            },
        decreases count - i,
    {
        let ghost rest_i = cursor.rest();
        let ghost out_before = out@;
        let v = match cursor.read_i32() {
            Ok(v) => v,
            Err(e) => {
                return Err(e);
            },
        };
        out.push(v);
        i = i + 1;
        proof {
            consumed = consumed + 4;
            lemma_seq_skip_of_skip(rest0, consumed - 4, 4);
            assert(cursor.rest() =~= rest0.skip(consumed));
            assert(rest_i.take(4) =~= rest_i.subrange(0, 4));
            match spec_parse_i32s(cursor.rest(), (count - i) as nat) {
                Some(ps) => {
                    assert(spec_parse_i32s(rest_i, (count - i + 1) as nat) matches Some(prev)
                        && prev.0 == seq![v] + ps.0 && prev.1 == 4 + ps.1);
                    assert(out_before + (seq![v] + ps.0) =~= out@ + ps.0);
                },
                None => {
                    assert(spec_parse_i32s(rest_i, (count - i + 1) as nat) is None);
                },
            }
        }
    }
    proof {
        assert(spec_parse_i32s(cursor.rest(), 0) == Some((Seq::<i32>::empty(), 0int)));
        assert(out@ + Seq::<i32>::empty() =~= out@);
    }
    Ok(out)
}

/// Parse `count` forgotten-topic entries at the cursor.
#[verifier::rlimit(100)]
pub fn parse_forgotten(cursor: &mut Cursor, count: u64) -> (r: Result<
    Vec<ForgottenTopicData>,
    DecodeError,
>)
    ensures
        final(cursor).data == old(cursor).data,
        match r {
            Ok(v) => match spec_parse_forgotten(old(cursor).rest(), count as nat) {
                Some(ts) => {
                    &&& v.deep_view() == ts.0
                    &&& 0 <= ts.1 <= old(cursor).rest().len()
                    &&& final(cursor).pos == old(cursor).pos + ts.1
                    &&& final(cursor).rest() == old(cursor).rest().skip(ts.1)
                },
                None => false,
            },
            Err(_) => spec_parse_forgotten(old(cursor).rest(), count as nat) is None,
        },
{
    let ghost rest0 = cursor.rest();
    let ghost start = cursor.pos;
    let ghost mut consumed: int = 0;
    let mut out: Vec<ForgottenTopicData> = Vec::new();
    let mut i: u64 = 0;
    proof {
        assert(out.deep_view() =~= Seq::<ForgottenTopicView>::empty());
        assert(rest0.skip(0) =~= rest0);
        match spec_parse_forgotten(rest0, count as nat) {
            Some(ts) => {
                assert(out.deep_view() + ts.0 =~= ts.0);
            },
            None => {},
        }
    }
    while i < count
        invariant
            i <= count,
            cursor.data == old(cursor).data,
            rest0 == old(cursor).rest(),
            start == old(cursor).pos,
            0 <= consumed <= rest0.len(),
            cursor.pos == start + consumed,
            cursor.rest() == rest0.skip(consumed),
            match spec_parse_forgotten(cursor.rest(), (count - i) as nat) {
                Some(ts) => spec_parse_forgotten(rest0, count as nat) matches Some(all) && all.0
                    == out.deep_view() + ts.0 && all.1 == consumed + ts.1,
                None => spec_parse_forgotten(rest0, count as nat) is None,
            },
        decreases count - i,
    {
        let ghost rest_i = cursor.rest();
        let ghost out_before = out.deep_view();
        let topic_id = match cursor.read_uuid() {
            Ok(v) => v,
            Err(e) => {
                return Err(e);
            },
        };
        proof {
            assert(rest_i.take(16) =~= rest_i.subrange(0, 16));
        }
        let pstored = match cursor.read_uvarint() {
            Ok(v) => v,
            Err(e) => {
                return Err(e);
            },
        };
        let ghost c1 = uvarint64_parse(rest_i.skip(16)).unwrap().1;
        proof {
            lemma_uvarint_parse_len(rest_i.skip(16));
            lemma_seq_skip_of_skip(rest_i, 16, c1);
            assert(cursor.rest() =~= rest_i.skip(16 + c1));
        }
        let pcount: u64 = if pstored == 0 {
            0
        } else {
            pstored - 1
        };
        let partitions = match parse_i32s(cursor, pcount) {
            Ok(v) => v,
            Err(e) => {
                return Err(e);
            },
        };
        let ghost pn = spec_parse_i32s(rest_i.skip(16 + c1), pcount as nat).unwrap().1;
        let ghost o = 16 + c1 + pn;
        proof {
            lemma_seq_skip_of_skip(rest_i, 16 + c1, pn);
            assert(cursor.rest() =~= rest_i.skip(o));
        }
        match cursor.advance(1) {
            Ok(()) => {},
            Err(e) => {
                return Err(e);
            },
        };
        proof {
            lemma_seq_skip_of_skip(rest_i, o, 1);
            assert(cursor.rest() =~= rest_i.skip(o + 1));
        }
        let t = ForgottenTopicData { topic_id, partitions };
        out.push(t);
        i = i + 1;
        proof {
            consumed = consumed + o + 1;
            lemma_seq_skip_of_skip(rest0, consumed - (o + 1), o + 1);
            assert(cursor.rest() =~= rest0.skip(consumed));
            assert(out.deep_view() =~= out_before.push(t.deep_view()));
            match spec_parse_forgotten(cursor.rest(), (count - i) as nat) {
                Some(ts) => {
                    assert(spec_parse_forgotten(rest_i, (count - i + 1) as nat) matches Some(prev)
                        && prev.0 == seq![t.deep_view()] + ts.0 && prev.1 == o + 1 + ts.1);
                    assert(out_before + (seq![t.deep_view()] + ts.0) =~= out.deep_view() + ts.0);
                },
                None => {
                    assert(spec_parse_forgotten(rest_i, (count - i + 1) as nat) is None);
                },
            }
        }
    }
    proof {
        assert(spec_parse_forgotten(cursor.rest(), 0) == Some(
            (Seq::<ForgottenTopicView>::empty(), 0int),
        ));
        assert(out.deep_view() + Seq::<ForgottenTopicView>::empty() =~= out.deep_view());
    }
    Ok(out)
}

/// The six fixed words at the head of a fetch request body.
pub struct FetchFixed {
    pub max_wait_ms: i32,
    pub min_bytes: i32,
    pub max_bytes: i32,
    pub isolation_level: i8,
    pub session_id: i32,
    pub session_epoch: i32,
}

/// Parse the six fixed words at the head of a fetch request body.
#[verifier::rlimit(100)]
pub fn parse_fetch_fixed(cursor: &mut Cursor) -> (r: Result<FetchFixed, DecodeError>)
    ensures
        final(cursor).data == old(cursor).data,
        match r {
            Ok(f) => {
                &&& old(cursor).rest().len() >= 21
                &&& f.max_wait_ms as int == twos_complement(
                    be_value(old(cursor).rest().subrange(0, 4)),
                    0x1_0000_0000,
                )
                &&& f.min_bytes as int == twos_complement(
                    be_value(old(cursor).rest().subrange(4, 8)),
                    0x1_0000_0000,
                )
                &&& f.max_bytes as int == twos_complement(
                    be_value(old(cursor).rest().subrange(8, 12)),
                    0x1_0000_0000,
                )
                &&& f.isolation_level as int == twos_complement(
                    old(cursor).rest()[12] as nat,
                    0x100,
                )
                &&& f.session_id as int == twos_complement(
                    be_value(old(cursor).rest().subrange(13, 17)),
                    0x1_0000_0000,
                )
                &&& f.session_epoch as int == twos_complement(
                    be_value(old(cursor).rest().subrange(17, 21)),
                    0x1_0000_0000,
                )
                &&& final(cursor).pos == old(cursor).pos + 21
                &&& final(cursor).rest() == old(cursor).rest().skip(21)
            },
            Err(_) => old(cursor).rest().len() < 21,
        },
{
    let ghost input = cursor.rest();
    let max_wait_ms = match cursor.read_i32() {
        Ok(v) => v,
        Err(e) => {
            return Err(e);
        },
    };
    let min_bytes = match cursor.read_i32() {
        Ok(v) => v,
        Err(e) => {
            return Err(e);
        },
    };
    proof {
        assert(input.skip(4).take(4) =~= input.subrange(4, 8));
        lemma_seq_skip_of_skip(input, 4, 4);
        assert(cursor.rest() =~= input.skip(8));
    }
    let max_bytes = match cursor.read_i32() {
        Ok(v) => v,
        Err(e) => {
            return Err(e);
        },
    };
    proof {
        assert(input.skip(8).take(4) =~= input.subrange(8, 12));
        lemma_seq_skip_of_skip(input, 8, 4);
        assert(cursor.rest() =~= input.skip(12));
    }
    let isolation_level = match cursor.read_i8() {
        Ok(v) => v,
        Err(e) => {
            return Err(e);
        },
    };
    proof {
        assert(input.skip(12)[0] == input[12]);
        lemma_seq_skip_of_skip(input, 12, 1);
        assert(cursor.rest() =~= input.skip(13));
    }
    let session_id = match cursor.read_i32() {
        Ok(v) => v,
        Err(e) => {
            return Err(e);
        },
    };
    proof {
        assert(input.skip(13).take(4) =~= input.subrange(13, 17));
        lemma_seq_skip_of_skip(input, 13, 4);
        assert(cursor.rest() =~= input.skip(17));
    }
    let session_epoch = match cursor.read_i32() {
        Ok(v) => v,
        Err(e) => {
            return Err(e);
        },
    };
    proof {
        assert(input.skip(17).take(4) =~= input.subrange(17, 21));
        lemma_seq_skip_of_skip(input, 17, 4);
        assert(cursor.rest() =~= input.skip(21));
    }
    Ok(
        FetchFixed {
            max_wait_ms,
            min_bytes,
            max_bytes,
            isolation_level,
            session_id,
            session_epoch,
        },
    )
}

/// Parse a fetch request body.
#[verifier::rlimit(100)]
pub fn parse(data: &Vec<u8>) -> (r: Result<FetchRequest, DecodeError>)
    ensures
        match r {
            Ok(f) => spec_parse_fetch(data@) == Some(f.deep_view()),
            Err(_) => spec_parse_fetch(data@) is None,
        },
{
    proof {
        reveal(spec_parse_fetch);
    }
    let ghost input = data@;
    let mut cursor = Cursor::new(copy_bytes(data));
    let fixed = match parse_fetch_fixed(&mut cursor) {
        Ok(f) => f,
        Err(e) => {
            return Err(e);
        },
    };
    let max_wait_ms = fixed.max_wait_ms;
    let min_bytes = fixed.min_bytes;
    let max_bytes = fixed.max_bytes;
    let isolation_level = fixed.isolation_level;
    let session_id = fixed.session_id;
    let session_epoch = fixed.session_epoch;
    let tstored = match cursor.read_uvarint() {
        Ok(v) => v,
        Err(e) => {
            return Err(e);
        },
    };
    let ghost tc1 = uvarint64_parse(input.skip(21)).unwrap().1;
    proof {
        lemma_uvarint_parse_len(input.skip(21));
        lemma_seq_skip_of_skip(input, 21, tc1);
        assert(cursor.rest() =~= input.skip(21 + tc1));
    }
    let tcount: u64 = if tstored == 0 {
        0
    } else {
        tstored - 1
    };
    let topics = match parse_fetch_topics(&mut cursor, tcount) {
        Ok(v) => v,
        Err(e) => {
            return Err(e);
        },
    };
    let ghost tn = spec_parse_fetch_topics(input.skip(21 + tc1), tcount as nat).unwrap().1;
    let ghost o1 = 21 + tc1 + tn;
    proof {
        lemma_seq_skip_of_skip(input, 21 + tc1, tn);
        assert(cursor.rest() =~= input.skip(o1));
    }
    let fstored = match cursor.read_uvarint() {
        Ok(v) => v,
        Err(e) => {
            return Err(e);
        },
    };
    let ghost fc1 = uvarint64_parse(input.skip(o1)).unwrap().1;
    proof {
        lemma_uvarint_parse_len(input.skip(o1));
        lemma_seq_skip_of_skip(input, o1, fc1);
        assert(cursor.rest() =~= input.skip(o1 + fc1));
    }
    let fcount: u64 = if fstored == 0 {
        0
    } else {
        fstored - 1
    };
    let forgotten_topics_data = match parse_forgotten(&mut cursor, fcount) {
        Ok(v) => v,
        Err(e) => {
            return Err(e);
        },
    };
    let ghost fn_ = spec_parse_forgotten(input.skip(o1 + fc1), fcount as nat).unwrap().1;
    let ghost o2 = o1 + fc1 + fn_;
    proof {
        lemma_seq_skip_of_skip(input, o1 + fc1, fn_);
        assert(cursor.rest() =~= input.skip(o2));
    }
    let rstored = match cursor.read_uvarint() {
        Ok(v) => v,
        Err(e) => {
            return Err(e);
        },
    };
    let ghost rc1 = uvarint64_parse(input.skip(o2)).unwrap().1;
    let ghost o3 = o2 + rc1;
    proof {
        lemma_uvarint_parse_len(input.skip(o2));
        lemma_seq_skip_of_skip(input, o2, rc1);
        assert(cursor.rest() =~= input.skip(o3));
    }
    let rack_id = if rstored == 0 {
        proof {
            assert(cursor.rest().take(0) =~= input.subrange(o3, o3 + 0));
        }
        Vec::new()
    } else {
        let rem = cursor.remaining();
        if rstored - 1 > rem as u64 {
            return Err(DecodeError::UnexpectedEnd);
        }
        match cursor.read_bytes((rstored - 1) as usize) {
            Ok(v) => {
                proof {
                    assert(v@ =~= input.subrange(o3, o3 + (rstored - 1)));
                    lemma_seq_skip_of_skip(input, o3, (rstored - 1) as int);
                }
                v
            },
            Err(e) => {
                return Err(e);
            },
        }
    };
    let ghost rlen: int = if rstored == 0 { 0int } else { rstored - 1 };
    proof {
        assert(rack_id@ =~= input.subrange(o3, o3 + rlen));
        assert(cursor.rest() =~= input.skip(o3 + rlen));
    }
    match cursor.advance(1) {
        Ok(()) => {},
        Err(e) => {
            return Err(e);
        },
    };
    Ok(
        FetchRequest {
            max_wait_ms,
            min_bytes,
            max_bytes,
            isolation_level,
            session_id,
            session_epoch,
            topics,
            forgotten_topics_data,
            rack_id,
        },
    )
}

} // verus!

// The fetch response.
use vstd::prelude::*;

verus! {

/// The first topic of the snapshot with the given UUID, if any.
pub open spec fn find_topic_uuid(ts: Seq<TopicView>, uuid: u128) -> Option<TopicView>
    decreases ts.len(),
{
    if ts.len() == 0 {
        None
    } else if ts[0].uuid == uuid {
        Some(ts[0])
    } else {
        find_topic_uuid(ts.skip(1), uuid)
    }
}

/// The index of the first topic with the given UUID, if any.
pub fn find_topic_uuid_idx(topics: &Vec<TopicValueRecord>, uuid: u128) -> (r: Option<usize>)
    ensures
        match find_topic_uuid(topics.deep_view(), uuid) {
            Some(t) => {
                &&& r matches Some(i)
                &&& i < topics@.len()
                &&& topics@[r.unwrap() as int].deep_view() == t
            },
            None => r is None,
        },
{
    let ghost dv = topics.deep_view();
    let mut i: usize = 0;
    proof {
        assert(dv.skip(0) =~= dv);
    }
    while i < topics.len()
        invariant
            i <= topics@.len(),
            dv == topics.deep_view(),
            find_topic_uuid(dv, uuid) == find_topic_uuid(dv.skip(i as int), uuid),
        decreases topics@.len() - i,
    {
        let t = &topics[i];
        if t.uuid == uuid {
            proof {
                assert(dv.skip(i as int)[0] == dv[i as int]);
            }
            return Some(i);
        }
        i = i + 1;
        proof {
            assert(dv.skip(i - 1)[0] == dv[i - 1]);
            lemma_seq_skip_of_skip(dv, i - 1, 1);
            assert(dv.skip(i - 1).skip(1) =~= dv.skip(i as int));
        }
    }
    None
}

/// One per-topic entry of a fetch response: the echoed topic UUID, a
/// single partition entry for index zero — no error and the segment bytes
/// as a compact byte string when the topic is known, error 100 and an
/// empty compact byte string when it is not — and empty tagged-fields
/// bytes.
pub open spec fn fetch_topic_bytes(
    topic_id: u128,
    topics: Seq<TopicView>,
    segment: Seq<u8>,
) -> Seq<u8> {
    be_bytes(topic_id as nat, 16) + seq![2u8] + be_bytes(0, 4) + (match find_topic_uuid(
        topics,
        topic_id,
    ) {
        Some(_) => be_bytes(0, 2),
        None => be_bytes(100, 2),
    }) + be_bytes(0, 8) + be_bytes(0, 8) + be_bytes(0, 8) + seq![1u8] + be_bytes(0, 4) + (
    match find_topic_uuid(topics, topic_id) {
        Some(_) => compact_bytes(segment),
        None => seq![1u8],
    }) + seq![0u8, 0u8]
}

/// The per-topic entries of a fetch response, in request order, each with
/// its own segment bytes.
pub open spec fn fetch_topics_bytes(
    reqs: Seq<FetchTopicView>,
    topics: Seq<TopicView>,
    segments: Seq<Seq<u8>>,
) -> Seq<u8>
    decreases reqs.len(),
{
    if reqs.len() == 0 {
        Seq::empty()
    } else {
        let seg: Seq<u8> = if segments.len() > 0 {
            segments[0]
        } else {
            Seq::empty()
        };
        fetch_topic_bytes(reqs[0].topic_id, topics, seg) + fetch_topics_bytes(
            reqs.skip(1),
            topics,
            if segments.len() > 0 {
                segments.skip(1)
            } else {
                segments
            },
        )
    }
}

/// The whole fetch response body: a zero throttle time, no error, a zero
/// session id, the topic count plus one (one byte), the per-topic
/// entries, and an empty tagged-fields byte.
pub open spec fn fetch_body(
    f: FetchRequestView,
    topics: Seq<TopicView>,
    segments: Seq<Seq<u8>>,
) -> Seq<u8> {
    be_bytes(0, 4) + be_bytes(0, 2) + be_bytes(0, 4) + seq![
        (((f.topics.len() + 1) % 256) as u8),
    ] + fetch_topics_bytes(f.topics, topics, segments) + seq![0u8]
}

/// Append one per-topic entry of the response.
#[verifier::rlimit(100)]
pub fn put_fetch_topic(
    out: &mut Vec<u8>,
    topic_id: u128,
    topics: &Vec<TopicValueRecord>,
    segment: &Vec<u8>,
)
    ensures
        final(out)@ == old(out)@ + fetch_topic_bytes(topic_id, topics.deep_view(), segment@),
{
    put_uuid(out, topic_id);
    put_u8(out, 2);
    put_i32(out, 0);
    let known = find_topic_uuid_idx(topics, topic_id);
    match known {
        Some(_) => put_i16(out, 0),
        None => put_i16(out, 100),
    };
    put_i64(out, 0);
    put_i64(out, 0);
    put_i64(out, 0);
    put_u8(out, 1);
    put_i32(out, 0);
    match known {
        Some(_) => put_compact_bytes(out, segment),
        None => put_u8(out, 1),
    };
    put_u8(out, 0);
    put_u8(out, 0);
    proof {
        assert(out@ =~= old(out)@ + fetch_topic_bytes(topic_id, topics.deep_view(), segment@));
    }
}

/// The topic name whose partition-zero segment each requested topic
/// needs: the matching topic's name when the snapshot knows the UUID, and
/// nothing when it does not. The caller reads each named segment file and
/// hands the bytes to `handle`.
pub fn fetch_segment_names(parsed: &FetchRequest, cluster: &Vec<Batch>) -> (r: Vec<
    Option<Vec<u8>>,
>)
    ensures
        r.deep_view().len() == parsed.topics@.len(),
        forall|i: int|
            0 <= i < r.deep_view().len() ==> r.deep_view()[i] == match find_topic_uuid(
                cluster_topics(cluster.deep_view()),
                parsed.topics@[i].topic_id,
            ) {
                Some(t) => Some(t.name),
                None => None::<Seq<u8>>,
            },
{
    let topics_list = cluster.topics();
    let mut out: Vec<Option<Vec<u8>>> = Vec::new();
    let mut i: usize = 0;
    while i < parsed.topics.len()
        invariant
            i <= parsed.topics@.len(),
            topics_list.deep_view() == cluster_topics(cluster.deep_view()),
            out.deep_view().len() == i,
            forall|j: int|
                0 <= j < i ==> out.deep_view()[j] == match find_topic_uuid(
                    cluster_topics(cluster.deep_view()),
                    parsed.topics@[j].topic_id,
                ) {
                    Some(t) => Some(t.name),
                    None => None::<Seq<u8>>,
                },
        decreases parsed.topics@.len() - i,
    {
        let ghost out_before = out.deep_view();
        let t = &parsed.topics[i];
        match find_topic_uuid_idx(&topics_list, t.topic_id) {
            Some(ti) => {
                let name = copy_bytes(&topics_list[ti].name);
                out.push(Some(name));
                proof {
                    assert(out.deep_view() =~~= out_before.push(
                        Some(find_topic_uuid(topics_list.deep_view(), t.topic_id).unwrap().name),
                    ));
                }
            },
            None => {
                out.push(None);
                proof {
                    assert(out.deep_view() =~~= out_before.push(None::<Seq<u8>>));
                }
            },
        };
        i = i + 1;
    }
    out
}

/// Append the fetch response body: the exact bytes of the grammar above
/// for a version-16 request, or the single error code 35 for any other
/// version. `segments` holds, for each requested topic in order, the
/// partition-zero segment bytes the caller read from disk (an empty entry
/// for an unknown topic, whose bytes are never used). A malformed request
/// body is reported back to the caller, which ends the connection.
#[verifier::rlimit(100)]
pub fn handle(
    req: &Request,
    res: &mut Response,
    cluster: &Vec<Batch>,
    segments: &Vec<Vec<u8>>,
) -> (r: Result<(), DecodeError>)
    requires
        req.request_api_version == 16 ==> match spec_parse_fetch(req.data@) {
            Some(f) => segments@.len() == f.topics.len(),
            None => true,
        },
    ensures
        final(res).correlation_id == old(res).correlation_id,
        final(res).api_key == old(res).api_key,
        req.request_api_version != 16 ==> r is Ok && final(res).body@ == old(res).body@
            + be_bytes(35, 2),
        req.request_api_version == 16 ==> match spec_parse_fetch(req.data@) {
            Some(f) => r is Ok && final(res).body@ == old(res).body@ + fetch_body(
                f,
                cluster_topics(cluster.deep_view()),
                segments.deep_view(),
            ),
            None => r is Err && final(res).body@ == old(res).body@,
        },
{
    if req.request_api_version == 16 {
        let parsed = match parse(&req.data) {
            Ok(f) => f,
            Err(e) => {
                return Err(e);
            },
        };
        let topics_list = cluster.topics();
        put_u32(&mut res.body, 0);
        put_u16(&mut res.body, 0);
        put_u32(&mut res.body, 0);
        let cnt = parsed.topics.len();
        put_u8(&mut res.body, ((cnt % 256 + 1) % 256) as u8);
        let ghost tdv = parsed.topics.deep_view();
        let ghost topicsdv = topics_list.deep_view();
        let ghost segdv = segments.deep_view();
        let ghost base = res.body@;
        let mut ti: usize = 0;
        proof {
            assert(tdv.skip(0) =~= tdv);
            assert(segdv.skip(0) =~= segdv);
        }
        while ti < parsed.topics.len()
            invariant
                ti <= parsed.topics@.len(),
                tdv == parsed.topics.deep_view(),
                topicsdv == topics_list.deep_view(),
                segdv == segments.deep_view(),
                segdv.len() == tdv.len(),
                res.correlation_id == old(res).correlation_id,
                res.api_key == old(res).api_key,
                base + fetch_topics_bytes(tdv, topicsdv, segdv) == res.body@ + fetch_topics_bytes(
                    tdv.skip(ti as int),
                    topicsdv,
                    segdv.skip(ti as int),
                ),
            decreases parsed.topics@.len() - ti,
        {
            let ghost before = res.body@;
            let topic = &parsed.topics[ti];
            let segment = &segments[ti];
            put_fetch_topic(&mut res.body, topic.topic_id, &topics_list, segment);
            ti = ti + 1;
            proof {
                assert(tdv.skip(ti - 1)[0] == tdv[ti - 1]);
                assert(tdv[ti - 1] == topic.deep_view());
                assert(segdv.skip(ti - 1)[0] == segdv[ti - 1]);
                assert(segdv[ti - 1] == segment@);
                lemma_seq_skip_of_skip(tdv, ti - 1, 1);
                assert(tdv.skip(ti - 1).skip(1) =~= tdv.skip(ti as int));
                lemma_seq_skip_of_skip(segdv, ti - 1, 1);
                assert(segdv.skip(ti - 1).skip(1) =~= segdv.skip(ti as int));
                assert(fetch_topics_bytes(tdv.skip(ti - 1), topicsdv, segdv.skip(ti - 1))
                    == fetch_topic_bytes(tdv[ti - 1].topic_id, topicsdv, segdv[ti - 1])
                    + fetch_topics_bytes(tdv.skip(ti as int), topicsdv, segdv.skip(ti as int)));
                assert(before + (fetch_topic_bytes(tdv[ti - 1].topic_id, topicsdv, segdv[ti - 1])
                    + fetch_topics_bytes(tdv.skip(ti as int), topicsdv, segdv.skip(ti as int)))
                    =~= res.body@ + fetch_topics_bytes(
                    tdv.skip(ti as int),
                    topicsdv,
                    segdv.skip(ti as int),
                ));
            }
        }
        proof {
            assert(fetch_topics_bytes(
                tdv.skip(tdv.len() as int),
                topicsdv,
                segdv.skip(segdv.len() as int),
            ) == Seq::<u8>::empty());
            assert(res.body@ + Seq::<u8>::empty() =~= res.body@);
        }
        put_u8(&mut res.body, 0);
        proof {
            assert(res.body@ =~= old(res).body@ + fetch_body(
                parsed.deep_view(),
                topicsdv,
                segdv,
            ));
        }
        Ok(())
    } else {
        put_u16(&mut res.body, 35);
        proof {
            assert(res.body@ =~= old(res).body@ + be_bytes(35, 2));
        }
        Ok(())
    }
}

} // verus!

// Snapshot-consistency law.
use vstd::prelude::*;
use crate::cluster::BatchView;
use crate::cluster::cluster_partitions;

verus! {

/// A UUID with a witness in the topic list is found by the lookup.
pub proof fn lemma_find_topic_uuid_some(ts: Seq<TopicView>, uuid: u128)
    requires
        exists|j: int| 0 <= j < ts.len() && ts[j].uuid == uuid,
    ensures
        find_topic_uuid(ts, uuid) is Some,
    decreases ts.len(),
{
    if ts[0].uuid != uuid {
        let j = choose|j: int| 0 <= j < ts.len() && ts[j].uuid == uuid;
        assert(ts.skip(1)[j - 1] == ts[j]);
        lemma_find_topic_uuid_some(ts.skip(1), uuid);
    }
}

/// Law: in a snapshot where no partition references a topic UUID missing
/// from the topic list, the per-topic lookup the fetch handler makes
/// succeeds for every partition's UUID — such a snapshot never earns the
/// unknown-topic error for a topic it lists a partition of.
pub proof fn lemma_no_dangling_partition_lookup(c: Seq<BatchView>, i: int)
    requires
        forall|k: int|
            0 <= k < cluster_partitions(c).len() ==> exists|j: int|
                0 <= j < cluster_topics(c).len() && cluster_topics(c)[j].uuid
                    == #[trigger] cluster_partitions(c)[k].topic_uuid,
        0 <= i < cluster_partitions(c).len(),
    ensures
        find_topic_uuid(cluster_topics(c), cluster_partitions(c)[i].topic_uuid) is Some,
{
    lemma_find_topic_uuid_some(cluster_topics(c), cluster_partitions(c)[i].topic_uuid);
}

} // verus!
