//! The canonical inbound request shape.

use vstd::prelude::*;
use crate::strmap::StringMap;

verus! {

/// Relies on the `bytes` crate's `Bytes`: the reference-counted byte
/// buffer that carries a request body through the pipeline.  The library
/// never reads it; it is handed to the handler boundary as-is.
#[verifier::external_type_specification]
#[verifier::external_body]
pub struct ExBytes(bytes::Bytes);

/// The canonical inbound request, owned by one in-flight request's task:
/// headers, query parameters, path parameters and the buffered body.
#[derive(Debug)]
pub struct IncomingRequest {
    pub headers: StringMap,
    pub query: StringMap,
    pub path_params: StringMap,
    pub body: bytes::Bytes,
}

impl IncomingRequest {
    /// Usable: every mapping has unique keys.
    pub open spec fn wf(self) -> bool {
        self.headers.wf() && self.query.wf() && self.path_params.wf()
    }
}

} // verus!
