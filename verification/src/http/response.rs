//! The canonical outbound response shape.

use vstd::prelude::*;
use crate::strmap::StringMap;

verus! {

/// A response body: an owned byte buffer, or a file path whose contents
/// the transport streams.
#[derive(Debug)]
pub enum ResponseBody {
    Bytes(Vec<u8>),
    File(String),
}

/// The canonical outbound response: status, headers (keys effectively
/// lower-cased on write) and body.
#[derive(Debug)]
pub struct OutgoingResponse {
    pub status: u16,
    pub headers: StringMap,
    pub body: ResponseBody,
}

impl OutgoingResponse {
    /// Usable: the header mapping has unique keys.
    pub open spec fn wf(self) -> bool {
        self.headers.wf()
    }
}

impl Default for OutgoingResponse {
    /// The default response: status 200, no headers, empty body.
    fn default() -> (r: Self)
        ensures
            r.status == 200,
            r.wf(),
            r.headers.entries().len() == 0,
            r.body matches ResponseBody::Bytes(b) && b@ == Seq::<u8>::empty(),
    {
        OutgoingResponse { status: 200, headers: StringMap::new(), body: ResponseBody::Bytes(Vec::new()) }
    }
}

} // verus!
