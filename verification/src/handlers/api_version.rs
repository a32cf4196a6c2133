//! The API-versions handler: advertises the supported request kinds and
//! their version ranges.

use vstd::prelude::*;

use crate::codec::be_bytes;
use crate::codec::put_u16;
use crate::codec::put_u32;
use crate::codec::put_u8;
use crate::protocol::Request;
use crate::protocol::Response;

verus! {

/// The exact response body: for a supported version, no error, the three
/// advertised entries (API-versions 0..4, topic description 0..4, fetch
/// 0..16) as a compact array, a zero throttle time and an empty
/// tagged-fields byte; for any later version, the single error code 35.
pub open spec fn api_versions_body(version: u16) -> Seq<u8> {
    if version <= 4 {
        be_bytes(0, 2) + seq![4u8] + be_bytes(18, 2) + be_bytes(0, 2) + be_bytes(4, 2) + seq![0u8]
            + be_bytes(75, 2) + be_bytes(0, 2) + be_bytes(4, 2) + seq![0u8] + be_bytes(1, 2)
            + be_bytes(0, 2) + be_bytes(16, 2) + seq![0u8] + be_bytes(0, 4) + seq![0u8]
    } else {
        be_bytes(35, 2)
    }
}

/// Append the API-versions response body for the requested version.
pub fn handle(req: &Request, res: &mut Response)
    ensures
        final(res).correlation_id == old(res).correlation_id,
        final(res).api_key == old(res).api_key,
        final(res).body@ == old(res).body@ + api_versions_body(req.request_api_version),
{
    if req.request_api_version <= 4 {
        put_u16(&mut res.body, 0);
        put_u8(&mut res.body, 4);
        put_u16(&mut res.body, 18);
        put_u16(&mut res.body, 0);
        put_u16(&mut res.body, 4);
        put_u8(&mut res.body, 0);
        put_u16(&mut res.body, 75);
        put_u16(&mut res.body, 0);
        put_u16(&mut res.body, 4);
        put_u8(&mut res.body, 0);
        put_u16(&mut res.body, 1);
        put_u16(&mut res.body, 0);
        put_u16(&mut res.body, 16);
        put_u8(&mut res.body, 0);
        put_u32(&mut res.body, 0);
        put_u8(&mut res.body, 0);
        proof {
            assert(res.body@ =~= old(res).body@ + api_versions_body(req.request_api_version));
        }
    } else {
        put_u16(&mut res.body, 35);
        proof {
            assert(res.body@ =~= old(res).body@ + api_versions_body(req.request_api_version));
        }
    }
}

} // verus!
