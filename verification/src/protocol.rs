//! Request and response framing: a four-byte length prefix, the fixed
//! request header, and the response frame written back on the same
//! connection.

use vstd::prelude::*;

use crate::codec::Cursor;
use crate::codec::be_bytes;
use crate::codec::be_value;
use crate::codec::lemma_be_round_trip;
use crate::codec::lemma_pow256_values;
use crate::codec::put_slice;
use crate::codec::put_u32;
use crate::codec::put_u8;

verus! {

/// Why a request could not be had from the connection.
#[derive(Clone, Copy, Debug, PartialEq, Eq, Structural)]
pub enum RequestError {
    /// The peer closed the connection cleanly (a read of zero bytes).
    ClientDisconnected,
    /// The transport failed.
    IoError,
    /// The frame ended before the request header was complete.
    TooShort,
}

/// A parsed request: the fixed header and the API-specific body bytes.
#[derive(Debug)]
pub struct Request {
    pub message_size: u32,
    pub request_api_key: u16,
    pub request_api_version: u16,
    pub correlation_id: u32,
    pub data: Vec<u8>,
    pub client_id: Vec<u8>,
}

/// Mathematical form of a request.
pub ghost struct RequestView {
    pub message_size: u32,
    pub request_api_key: u16,
    pub request_api_version: u16,
    pub correlation_id: u32,
    pub data: Seq<u8>,
    pub client_id: Seq<u8>,
}

impl DeepView for Request {
    type V = RequestView;

    open spec fn deep_view(&self) -> RequestView {
        RequestView {
            message_size: self.message_size,
            request_api_key: self.request_api_key,
            request_api_version: self.request_api_version,
            correlation_id: self.correlation_id,
            data: self.data@,
            client_id: self.client_id@,
        }
    }
}

/// Grammar of a request frame body (the bytes after the length prefix):
/// api key, api version, correlation id, a length-prefixed client id, one
/// tagged-fields terminator byte, then the API body to the end.
pub open spec fn spec_parse_request(message_size: u32, payload: Seq<u8>) -> Option<RequestView> {
    if payload.len() < 10 {
        None
    } else {
        let client_len = be_value(payload.subrange(8, 10)) as int;
        if payload.len() < 11 + client_len {
            None
        } else {
            Some(
                RequestView {
                    message_size,
                    request_api_key: be_value(payload.subrange(0, 2)) as u16,
                    request_api_version: be_value(payload.subrange(2, 4)) as u16,
                    correlation_id: be_value(payload.subrange(4, 8)) as u32,
                    data: payload.skip(11 + client_len),
                    client_id: payload.subrange(10, 10 + client_len),
                },
            )
        }
    }
}

impl Request {
    /// Parse a request from its frame body. `message_size` is the length
    /// prefix the caller has already read.
    pub fn new(message_size: u32, payload: Vec<u8>) -> (r: Result<Request, RequestError>)
        ensures
            match r {
                Ok(q) => spec_parse_request(message_size, payload@) == Some(q.deep_view()),
                Err(e) => {
                    &&& e == RequestError::TooShort
                    &&& spec_parse_request(message_size, payload@) is None
                },
            },
    {
        let ghost input = payload@;
        let mut cursor = Cursor::new(payload);
        let request_api_key = match cursor.read_u16() {
            Ok(v) => v,
            Err(_) => {
                return Err(RequestError::TooShort);
            },
        };
        let request_api_version = match cursor.read_u16() {
            Ok(v) => v,
            Err(_) => {
                return Err(RequestError::TooShort);
            },
        };
        proof {
            assert(input.skip(2).take(2) =~= input.subrange(2, 4));
            vstd::seq_lib::lemma_seq_skip_of_skip(input, 2, 2);
            assert(cursor.rest() =~= input.skip(4));
        }
        let correlation_id = match cursor.read_u32() {
            Ok(v) => v,
            Err(_) => {
                return Err(RequestError::TooShort);
            },
        };
        proof {
            assert(input.skip(4).take(4) =~= input.subrange(4, 8));
            vstd::seq_lib::lemma_seq_skip_of_skip(input, 4, 4);
            assert(cursor.rest() =~= input.skip(8));
        }
        let client_len = match cursor.read_u16() {
            Ok(v) => v,
            Err(_) => {
                return Err(RequestError::TooShort);
            },
        };
        proof {
            assert(input.skip(8).take(2) =~= input.subrange(8, 10));
            vstd::seq_lib::lemma_seq_skip_of_skip(input, 8, 2);
            assert(cursor.rest() =~= input.skip(10));
        }
        let client_id = match cursor.read_bytes(client_len as usize) {
            Ok(v) => v,
            Err(_) => {
                return Err(RequestError::TooShort);
            },
        };
        proof {
            assert(client_id@ =~= input.subrange(10, 10 + client_len));
            vstd::seq_lib::lemma_seq_skip_of_skip(input, 10, client_len as int);
            assert(cursor.rest() =~= input.skip(10 + client_len));
        }
        match cursor.read_u8() {
            Ok(_) => {},
            Err(_) => {
                return Err(RequestError::TooShort);
            },
        };
        proof {
            vstd::seq_lib::lemma_seq_skip_of_skip(input, 10 + client_len as int, 1);
            assert(cursor.rest() =~= input.skip(11 + client_len));
        }
        let rem = cursor.remaining();
        let data = match cursor.read_bytes(rem) {
            Ok(v) => v,
            Err(_) => {
                return Err(RequestError::TooShort);
            },
        };
        proof {
            assert(data@ =~= input.skip(11 + client_len));
        }
        Ok(
            Request {
                message_size,
                request_api_key,
                request_api_version,
                correlation_id,
                data,
                client_id,
            },
        )
    }
}

/// The byte count that follows the length prefix of a response: the
/// correlation id, a tagged-fields byte unless the request was an
/// API-versions call, and the body.
pub open spec fn spec_message_size(api_key: u16, body_len: nat) -> nat {
    4 + (if api_key == 18 {
        0nat
    } else {
        1nat
    }) + body_len
}

/// The full response frame: the length prefix, the correlation id, the
/// optional tagged-fields byte, and the body.
pub open spec fn spec_response_frame(correlation_id: u32, api_key: u16, body: Seq<u8>) -> Seq<
    u8,
> {
    be_bytes(spec_message_size(api_key, body.len()), 4) + be_bytes(correlation_id as nat, 4) + (
    if api_key == 18 {
        Seq::<u8>::empty()
    } else {
        seq![0u8]
    }) + body
}

/// A response under construction: the correlation id and request kind it
/// answers, and the body bytes the handler has written.
pub struct Response {
    pub correlation_id: u32,
    pub api_key: u16,
    pub body: Vec<u8>,
}

impl Response {
    /// Start an empty response for a request.
    pub fn build_from_request(res: &Request) -> (r: Response)
        ensures
            r.correlation_id == res.correlation_id,
            r.api_key == res.request_api_key,
            r.body@ == Seq::<u8>::empty(),
    {
        Response { correlation_id: res.correlation_id, api_key: res.request_api_key, body: Vec::new() }
    }

    /// The byte count that will follow the length prefix.
    pub fn message_size(&self) -> (r: u32)
        requires
            self.body@.len() + 5 <= u32::MAX,
        ensures
            r as nat == spec_message_size(self.api_key, self.body@.len()),
    {
        let tag: u32 = if self.api_key == 18 {
            0
        } else {
            1
        };
        4 + tag + (self.body.len() as u32)
    }

    /// The framed bytes of the response, ready to be written to the
    /// connection in one piece.
    pub fn to_bytes(&self) -> (r: Vec<u8>)
        requires
            self.body@.len() + 5 <= u32::MAX,
        ensures
            r@ == spec_response_frame(self.correlation_id, self.api_key, self.body@),
            r@.len() == 4 + spec_message_size(self.api_key, self.body@.len()),
            be_value(r@.take(4)) == spec_message_size(self.api_key, self.body@.len()),
    {
        let size = self.message_size();
        let mut out: Vec<u8> = Vec::new();
        put_u32(&mut out, size);
        put_u32(&mut out, self.correlation_id);
        if self.api_key != 18 {
            put_u8(&mut out, 0);
        }
        put_slice(&mut out, &self.body);
        proof {
            lemma_be_round_trip(size as nat, 4);
            lemma_be_round_trip(self.correlation_id as nat, 4);
            lemma_pow256_values();
            assert(out@ =~= spec_response_frame(self.correlation_id, self.api_key, self.body@));
            assert(out@.take(4) =~= be_bytes(size as nat, 4));
        }
        out
    }
}

/// Law: every response frame is legal — the length prefix equals exactly
/// the count of bytes that follow it: four for the correlation id, one
/// for the tagged-fields byte unless the request was an API-versions
/// call, and the body.
pub proof fn lemma_response_frame_legal(correlation_id: u32, api_key: u16, body: Seq<u8>)
    requires
        body.len() + 5 <= u32::MAX,
    ensures
        spec_response_frame(correlation_id, api_key, body).len() >= 4,
        be_value(spec_response_frame(correlation_id, api_key, body).take(4))
            == spec_response_frame(correlation_id, api_key, body).len() - 4,
{
    let frame = spec_response_frame(correlation_id, api_key, body);
    let size = spec_message_size(api_key, body.len());
    lemma_be_round_trip(size, 4);
    lemma_be_round_trip(correlation_id as nat, 4);
    lemma_pow256_values();
    assert(frame.take(4) =~= be_bytes(size, 4));
}

} // verus!
