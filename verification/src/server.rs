//! The per-request step of a connection: dispatch one parsed request to
//! its handler and frame the response. The caller runs the connection
//! loop around it — read one frame, call `dispatch` once, write the one
//! frame it returns — so each request consumed is answered by exactly one
//! response before the next is read.

use vstd::prelude::*;

use crate::cluster::Batch;
use crate::cluster::BatchView;
use crate::cluster::cluster_partitions;
use crate::cluster::cluster_topics;
use crate::codec::be_bytes;
use crate::codec::be_value;
use crate::codec::put_u16;
use crate::handlers::api_version;
use crate::handlers::api_version::api_versions_body;
use crate::handlers::describe_topic_partitions;
use crate::handlers::describe_topic_partitions::describe_body;
use crate::handlers::describe_topic_partitions::spec_parse_describe;
use crate::handlers::fetch;
use crate::handlers::fetch::fetch_body;
use crate::handlers::fetch::spec_parse_fetch;
use crate::protocol::Request;
use crate::protocol::RequestView;
use crate::protocol::Response;
use crate::protocol::lemma_response_frame_legal;
use crate::protocol::spec_response_frame;

verus! {

/// Why a request could not be answered; either way the connection is
/// ended without a response.
#[derive(Clone, Copy, Debug, PartialEq, Eq, Structural)]
pub enum ServeError {
    /// The request body did not parse.
    Malformed,
    /// The response body would not fit a 32-bit length prefix.
    ResponseTooLarge,
}

/// The response body each request is owed: the API-versions body for key
/// 18, the topic-description body for key 75, the fetch body for key 1,
/// and the single error code 35 for any other key; nothing when the
/// request body does not parse.
pub open spec fn dispatch_body(
    req: RequestView,
    cluster: Seq<BatchView>,
    segments: Seq<Seq<u8>>,
) -> Option<Seq<u8>> {
    if req.request_api_key == 18 {
        Some(api_versions_body(req.request_api_version))
    } else if req.request_api_key == 75 {
        if req.request_api_version != 0 {
            Some(be_bytes(35, 2))
        } else {
            match spec_parse_describe(req.data) {
                Some(d) => Some(
                    describe_body(d, cluster_topics(cluster), cluster_partitions(cluster)),
                ),
                None => None,
            }
        }
    } else if req.request_api_key == 1 {
        if req.request_api_version != 16 {
            Some(be_bytes(35, 2))
        } else {
            match spec_parse_fetch(req.data) {
                Some(f) => Some(fetch_body(f, cluster_topics(cluster), segments)),
                None => None,
            }
        }
    } else {
        Some(be_bytes(35, 2))
    }
}

/// Answer one request: run its handler against the snapshot and return
/// the framed response. `segments` holds the per-topic segment bytes a
/// fetch request needs (see `fetch_segment_names`); other requests ignore
/// it. The returned frame is always legal: its length prefix equals
/// exactly the byte count that follows it.
pub fn dispatch(req: &Request, cluster: &Vec<Batch>, segments: &Vec<Vec<u8>>) -> (r: Result<
    Vec<u8>,
    ServeError,
>)
    requires
        req.request_api_key == 1 && req.request_api_version == 16 ==> match spec_parse_fetch(
            req.data@,
        ) {
            Some(f) => segments@.len() == f.topics.len(),
            None => true,
        },
    ensures
        match dispatch_body(req.deep_view(), cluster.deep_view(), segments.deep_view()) {
            Some(body) => match r {
                Ok(frame) => {
                    &&& frame@ == spec_response_frame(
                        req.correlation_id,
                        req.request_api_key,
                        body,
                    )
                    &&& frame@.len() >= 4
                    &&& be_value(frame@.take(4)) == frame@.len() - 4
                },
                Err(e) => {
                    &&& e == ServeError::ResponseTooLarge
                    &&& body.len() + 5 > u32::MAX
                },
            },
            None => r == Err::<Vec<u8>, ServeError>(ServeError::Malformed),
        },
{
    let mut response = Response::build_from_request(req);
    if req.request_api_key == 1 {
        match fetch::handle(req, &mut response, cluster, segments) {
            Ok(()) => {},
            Err(_) => {
                return Err(ServeError::Malformed);
            },
        };
    } else if req.request_api_key == 18 {
        api_version::handle(req, &mut response);
    } else if req.request_api_key == 75 {
        match describe_topic_partitions::handle(req, &mut response, cluster) {
            Ok(()) => {},
            Err(_) => {
                return Err(ServeError::Malformed);
            },
        };
    } else {
        put_u16(&mut response.body, 35);
    }
    proof {
        assert(Seq::<u8>::empty() + dispatch_body(
            req.deep_view(),
            cluster.deep_view(),
            segments.deep_view(),
        ).unwrap() =~= dispatch_body(
            req.deep_view(),
            cluster.deep_view(),
            segments.deep_view(),
        ).unwrap());
    }
    if (response.body.len() as u128) + 5 > (u32::MAX as u128) {
        return Err(ServeError::ResponseTooLarge);
    }
    let frame = response.to_bytes();
    proof {
        lemma_response_frame_legal(response.correlation_id, response.api_key, response.body@);
    }
    Ok(frame)
}

} // verus!
