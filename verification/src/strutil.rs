//! Small trusted bridges to `std` string operations that vstd does not
//! specify.

use vstd::prelude::*;

verus! {

/// Relies on String::push: appends exactly one character.
#[verifier::external_body]
pub(crate) fn push_char(s: &mut String, c: char)
    ensures
        final(s)@ == old(s)@.push(c),
{
    s.push(c);
}

/// Relies on String::from_utf8_lossy: valid UTF-8 is decoded unchanged;
/// of other inputs nothing is assumed here.
#[verifier::external_body]
pub(crate) fn utf8_lossy(v: &Vec<u8>) -> (r: String)
    ensures
        vstd::utf8::valid_utf8(v@) ==> r@ == vstd::utf8::decode_utf8(v@),
{
    String::from_utf8_lossy(v.as_slice()).into_owned()
}

} // verus!
