//! What a successful route lookup hands back.

use vstd::prelude::*;
use crate::strmap::StringMap;

verus! {

/// A matched capability together with the path parameters the template
/// bound.  Transient: produced per request and discarded after invocation.
#[derive(Debug)]
pub struct LookupResult {
    pub handler: usize,
    pub path_params: StringMap,
}

} // verus!
