//! The status codes of the fallback responses.

use vstd::prelude::*;

verus! {

/// Status of the "Not Found" fallback response.
pub fn not_found_status() -> (r: u16)
    ensures
        r == 404,
{
    404
}

/// Status of the "Method Not Allowed" fallback response.
pub fn method_not_allowed_status() -> (r: u16)
    ensures
        r == 405,
{
    405
}

/// Status of the "Internal Server Error" fallback response.
pub fn internal_error_status() -> (r: u16)
    ensures
        r == 500,
{
    500
}

} // verus!
