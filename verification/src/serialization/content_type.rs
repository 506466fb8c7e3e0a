//! The content types the response mapping policy infers.

use vstd::prelude::*;

verus! {

/// The content type of plain-text bodies and of the fallback responses.
pub open spec fn spec_text_plain_utf8() -> Seq<char> {
    "text/plain; charset=utf-8"@
}

/// The content type of structured and empty bodies.
pub open spec fn spec_application_json_utf8() -> Seq<char> {
    "application/json; charset=utf-8"@
}

/// The content type of plain-text bodies and of the fallback responses.
pub fn text_plain_utf8() -> (r: String)
    ensures
        r@ == spec_text_plain_utf8(),
{
    "text/plain; charset=utf-8".to_owned()
}

/// The content type of structured and empty bodies.
pub fn application_json_utf8() -> (r: String)
    ensures
        r@ == spec_application_json_utf8(),
{
    "application/json; charset=utf-8".to_owned()
}

} // verus!
