//! Framing tests: request parsing and the legal-frame invariant of the
//! response writer.

use kafka_broker::protocol::{Request, RequestError, Response};

fn request_payload(api_key: u16, api_version: u16, correlation: u32, body: &[u8]) -> Vec<u8> {
    let mut p: Vec<u8> = Vec::new();
    p.extend_from_slice(&api_key.to_be_bytes());
    p.extend_from_slice(&api_version.to_be_bytes());
    p.extend_from_slice(&correlation.to_be_bytes());
    let client = b"tester";
    p.extend_from_slice(&(client.len() as u16).to_be_bytes());
    p.extend_from_slice(client);
    p.push(0); // tagged-fields terminator
    p.extend_from_slice(body);
    p
}

#[test]
fn request_header_parses() {
    let payload = request_payload(18, 4, 0x12345678, &[1, 2, 3]);
    let size = payload.len() as u32;
    let req = Request::new(size, payload).unwrap();
    assert_eq!(req.message_size, size);
    assert_eq!(req.request_api_key, 18);
    assert_eq!(req.request_api_version, 4);
    assert_eq!(req.correlation_id, 0x12345678);
    assert_eq!(req.client_id, b"tester".to_vec());
    assert_eq!(req.data, vec![1, 2, 3]);
}

#[test]
fn short_request_is_rejected() {
    let payload = vec![0, 18, 0];
    let err = Request::new(3, payload).unwrap_err();
    assert_eq!(err, RequestError::TooShort);
}

#[test]
fn frame_length_prefix_is_exact() {
    for (api_key, body) in [
        (18u16, vec![]),
        (18u16, vec![7u8; 13]),
        (1u16, vec![]),
        (75u16, vec![1, 2, 3, 4, 5]),
        (42u16, vec![0x23]),
    ] {
        let res = Response {
            correlation_id: 7,
            api_key,
            body: body.clone(),
        };
        let frame = res.to_bytes();
        let n = u32::from_be_bytes([frame[0], frame[1], frame[2], frame[3]]);
        let tag = if api_key == 18 { 0 } else { 1 };
        assert_eq!(n as usize, 4 + tag + body.len());
        assert_eq!(n as usize, frame.len() - 4);
        assert_eq!(
            u32::from_be_bytes([frame[4], frame[5], frame[6], frame[7]]),
            7
        );
        if api_key != 18 {
            assert_eq!(frame[8], 0);
        }
        assert_eq!(&frame[4 + 4 + tag..], &body[..]);
    }
}

#[test]
fn message_size_counts_the_tag_byte() {
    let req_payload = request_payload(75, 0, 1, &[]);
    let req = Request::new(req_payload.len() as u32, req_payload).unwrap();
    let res = Response::build_from_request(&req);
    assert_eq!(res.message_size(), 5);
    let req_payload = request_payload(18, 0, 1, &[]);
    let req = Request::new(req_payload.len() as u32, req_payload).unwrap();
    let res = Response::build_from_request(&req);
    assert_eq!(res.message_size(), 4);
}
