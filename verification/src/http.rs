//! The fixed liveness probe answered by the engine's host.

use vstd::prelude::*;
use vstd::slice::slice_to_vec;
use vstd::string::StringSliceAdditionalSpecFns;

verus! {

/// A minimal response: a status code and a body.
pub struct HttpResponse {
    pub status: u16,
    pub body: Vec<u8>,
}

/// The fixed liveness page: status 200 and a constant HTML body.
pub fn http_request_test() -> (r: HttpResponse)
    ensures
        r.status == 200,
        r.body@ == "<html><body><h1>ICP Real Estate Backend Running!</h1></body></html>".spec_bytes(),
{
    let body = slice_to_vec(
        "<html><body><h1>ICP Real Estate Backend Running!</h1></body></html>".as_bytes(),
    );
    HttpResponse { status: 200, body }
}

} // verus!
