//! The per-request pipeline decisions: routing outcome, fallback
//! responses, and validation of a response for the wire.
//!
//! The connection loop itself (accepting, reading, writing) lives with
//! the embedding layer; everything here is a pure step from values to
//! values.

use vstd::prelude::*;
use vstd::string::*;
use crate::errors::core_error::CoreError;
use crate::http::headers::{
    header_name, header_value, lower_spec, valid_header_name, valid_header_value, HeaderName,
    HeaderValue,
};
use crate::http::response::{OutgoingResponse, ResponseBody};
use crate::http::status::{internal_error_status, method_not_allowed_status, not_found_status};
use crate::routing::method_table::{normalize_spec, RouteRegistry};
use crate::routing::params::LookupResult;
use crate::serialization::content_type::{spec_text_plain_utf8, text_plain_utf8};
use crate::strmap::StringMap;

verus! {

/// A response with one content-type header and the given status and body.
pub fn simple_response(status: u16, body: Vec<u8>, content_type: &str) -> (r: OutgoingResponse)
    ensures
        r.wf(),
        r.status == status,
        r.headers.spec_get("content-type"@) == Some(content_type@),
        forall|k: Seq<char>| k != "content-type"@ ==> #[trigger] r.headers.spec_get(k) is None,
        r.body matches ResponseBody::Bytes(b) && b@ == body@,
{
    let mut headers = StringMap::new();
    headers.insert(String::from_str("content-type"), content_type.to_owned());
    OutgoingResponse { status, headers, body: ResponseBody::Bytes(body) }
}

/// The exact `404` fallback: `Not Found`, plain text.
pub fn not_found_response() -> (r: OutgoingResponse)
    ensures
        r.wf(),
        r.status == 404,
        r.headers.spec_get("content-type"@) == Some(spec_text_plain_utf8()),
        r.body matches ResponseBody::Bytes(b) && b@ == "Not Found".spec_bytes(),
{
    let ct = text_plain_utf8();
    simple_response(not_found_status(), "Not Found".as_bytes_vec(), ct.as_str())
}

/// The exact `405` fallback: `Method Not Allowed`, plain text.
pub fn method_not_allowed_response() -> (r: OutgoingResponse)
    ensures
        r.wf(),
        r.status == 405,
        r.headers.spec_get("content-type"@) == Some(spec_text_plain_utf8()),
        r.body matches ResponseBody::Bytes(b) && b@ == "Method Not Allowed".spec_bytes(),
{
    let ct = text_plain_utf8();
    simple_response(
        method_not_allowed_status(),
        "Method Not Allowed".as_bytes_vec(),
        ct.as_str(),
    )
}

/// The exact `500` fallback: `Internal Server Error`, plain text.  The
/// underlying cause is logged by the caller, never put in the body.
pub fn internal_error_response() -> (r: OutgoingResponse)
    ensures
        r.wf(),
        r.status == 500,
        r.headers.spec_get("content-type"@) == Some(spec_text_plain_utf8()),
        r.body matches ResponseBody::Bytes(b) && b@ == "Internal Server Error".spec_bytes(),
{
    let ct = text_plain_utf8();
    simple_response(
        internal_error_status(),
        "Internal Server Error".as_bytes_vec(),
        ct.as_str(),
    )
}

/// How a request is to proceed after the registry has been consulted.
pub enum RouteOutcome {
    /// A handler matched: invoke it with the extracted path parameters.
    Matched(LookupResult),
    /// No handler for this method, but another method matches the path.
    MethodNotAllowed,
    /// No handler matches the path under any method.
    NotFound,
}

/// The routing step of the per-request flow: matched, `405`, or `404`.
pub fn resolve_route(registry: &RouteRegistry, method: &str, path: &str) -> (r: RouteOutcome)
    requires
        registry.wf(),
    ensures
        match r {
            RouteOutcome::Matched(res) => registry.lookup_post(method@, path@, Some(res)),
            RouteOutcome::MethodNotAllowed => !registry.matches_path(
                normalize_spec(method@),
                path@,
            ) && registry.other_method_matches(normalize_spec(method@), path@),
            RouteOutcome::NotFound => !registry.matches_path(normalize_spec(method@), path@)
                && !registry.other_method_matches(normalize_spec(method@), path@),
        },
{
    match registry.lookup(method, path) {
        Some(res) => RouteOutcome::Matched(res),
        None => {
            if registry.path_exists_for_other_method(method, path) {
                RouteOutcome::MethodNotAllowed
            } else {
                RouteOutcome::NotFound
            }
        },
    }
}

/// A response whose status and headers have been validated as legal wire
/// tokens, ready to serialize.
#[derive(Debug)]
pub struct WireResponse {
    pub status: u16,
    pub headers: Vec<(HeaderName, HeaderValue)>,
    pub body: ResponseBody,
}

/// Validates a response for the wire: the status must be in `100..=599`
/// and every header name and value must be legal; an illegal response is
/// a response-build fault, turned into the `500` fallback at the call
/// site.
#[verifier::loop_isolation(false)]
pub fn to_wire_response(out: OutgoingResponse) -> (r: Result<WireResponse, CoreError>)
    requires
        out.wf(),
    ensures
        match r {
            Ok(w) => {
                &&& 100 <= out.status <= 599
                &&& w.status == out.status
                &&& w.body == out.body
                &&& w.headers@.len() == out.headers.entries().len()
                &&& forall|i: int|
                    0 <= i < w.headers@.len() ==> {
                        &&& valid_header_name((#[trigger] out.headers.entries()[i]).0)
                        &&& valid_header_value(out.headers.entries()[i].1)
                        &&& w.headers@[i].0.name@ == lower_spec(out.headers.entries()[i].0)
                        &&& w.headers@[i].1.value@ == out.headers.entries()[i].1
                    }
            },
            Err(e) => {
                &&& e is ResponseBuild
                &&& (!(100 <= out.status <= 599) || exists|i: int|
                    0 <= i < out.headers.entries().len() && !(valid_header_name(
                        (#[trigger] out.headers.entries()[i]).0,
                    ) && valid_header_value(out.headers.entries()[i].1)))
            },
        },
{
    if out.status < 100 || out.status > 599 {
        return Err(CoreError::ResponseBuild(String::from_str("invalid status code")));
    }
    let OutgoingResponse { status, headers, body } = out;
    let n = headers.len();
    let mut wire: Vec<(HeaderName, HeaderValue)> = Vec::new();
    let mut i: usize = 0;
    while i < n
        invariant
            i <= n,
            n == headers.entries().len(),
            headers == out.headers,
            wire@.len() == i,
            forall|j: int|
                0 <= j < i ==> {
                    &&& valid_header_name((#[trigger] out.headers.entries()[j]).0)
                    &&& valid_header_value(out.headers.entries()[j].1)
                    &&& wire@[j].0.name@ == lower_spec(out.headers.entries()[j].0)
                    &&& wire@[j].1.value@ == out.headers.entries()[j].1
                },
        decreases n - i,
    {
        let name = match header_name(headers.key_at(i).as_str()) {
            Ok(h) => h,
            Err(e) => {
                return Err(e);
            },
        };
        let value = match header_value(headers.value_at(i).as_str()) {
            Ok(h) => h,
            Err(e) => {
                return Err(e);
            },
        };
        wire.push((name, value));
        i += 1;
    }
    Ok(WireResponse { status, headers: wire, body })
}

/// Wraps the outcome of a request's processing: a fault anywhere becomes
/// the `500` fallback, so one request's failure never goes past the
/// request boundary.
pub fn response_or_internal_error(outcome: Result<OutgoingResponse, CoreError>) -> (r:
    OutgoingResponse)
    ensures
        match outcome {
            Ok(resp) => r == resp,
            Err(_) => {
                &&& r.wf()
                &&& r.status == 500
                &&& r.headers.spec_get("content-type"@) == Some(spec_text_plain_utf8())
                &&& r.body matches ResponseBody::Bytes(b) && b@ == "Internal Server Error".spec_bytes()
            },
        },
{
    match outcome {
        Ok(resp) => resp,
        Err(_) => internal_error_response(),
    }
}

} // verus!
