//! Validation of header names and values as legal wire tokens.

use vstd::prelude::*;
use vstd::string::*;
use crate::errors::core_error::CoreError;
use crate::strutil::push_char;

verus! {

/// The characters a header name may hold: the HTTP token characters.
/// Upper-case letters are accepted and lower-cased on validation.
pub open spec fn is_name_char(c: char) -> bool {
    ||| 'a' <= c && c <= 'z'
    ||| 'A' <= c && c <= 'Z'
    ||| '0' <= c && c <= '9'
    ||| c == '!' || c == '#' || c == '$' || c == '%' || c == '&' || c == '\'' || c == '*'
    ||| c == '+' || c == '-' || c == '.' || c == '^' || c == '_' || c == '`' || c == '|'
        || c == '~'
}

/// A legal header name: non-empty, token characters only.
pub open spec fn valid_header_name(s: Seq<char>) -> bool {
    s.len() > 0 && forall|i: int| 0 <= i < s.len() ==> is_name_char(#[trigger] s[i])
}

/// The lower-case form of an ASCII letter; any other character is kept.
pub open spec fn lower_char(c: char) -> char {
    if 'A' <= c && c <= 'Z' {
        ((c as u32) + 32) as char
    } else {
        c
    }
}

/// A header name lower-cased, character by character.
pub open spec fn lower_spec(s: Seq<char>) -> Seq<char> {
    s.map(|i: int, c: char| lower_char(c))
}

/// A legal header value: no control characters other than horizontal tab.
pub open spec fn valid_header_value(s: Seq<char>) -> bool {
    forall|i: int|
        0 <= i < s.len() ==> (#[trigger] s[i] == '\t' || (' ' <= s[i] && s[i] != '\u{7f}'))
}

/// A validated, lower-cased header name.
#[derive(Debug)]
pub struct HeaderName {
    pub name: String,
}

impl HeaderName {
    pub open spec fn wf(self) -> bool {
        valid_header_name(self.name@) && self.name@ == lower_spec(self.name@)
    }
}

/// A validated header value.
#[derive(Debug)]
pub struct HeaderValue {
    pub value: String,
}

impl HeaderValue {
    pub open spec fn wf(self) -> bool {
        valid_header_value(self.value@)
    }
}

/// Validates a header name for the wire: accepted exactly when every
/// character is a token character and the name is non-empty; the result
/// carries the lower-cased name.
#[verifier::loop_isolation(false)]
pub fn header_name(raw: &str) -> (r: Result<HeaderName, CoreError>)
    ensures
        match r {
            Ok(h) => valid_header_name(raw@) && h.wf() && h.name@ == lower_spec(raw@),
            Err(e) => !valid_header_name(raw@) && e is ResponseBuild,
        },
{
    let n = raw.unicode_len();
    if n == 0 {
        return Err(CoreError::ResponseBuild(String::from_str("invalid header name")));
    }
    let mut out = String::new();
    let mut i: usize = 0;
    while i < n
        invariant
            i <= n,
            out@ =~= lower_spec(raw@.take(i as int)),
            forall|j: int| 0 <= j < i ==> is_name_char(#[trigger] raw@[j]),
        decreases n - i,
    {
        let c = raw.get_char(i);
        let ok = ('a' <= c && c <= 'z') || ('A' <= c && c <= 'Z') || ('0' <= c && c <= '9')
            || c == '!' || c == '#' || c == '$' || c == '%' || c == '&' || c == '\'' || c == '*'
            || c == '+' || c == '-' || c == '.' || c == '^' || c == '_' || c == '`' || c == '|'
            || c == '~';
        if !ok {
            return Err(CoreError::ResponseBuild(String::from_str("invalid header name")));
        }
        let l = if 'A' <= c && c <= 'Z' {
            (((c as u32) + 32) as u8) as char
        } else {
            c
        };
        proof {
            assert(l == lower_char(c));
        }
        push_char(&mut out, l);
        proof {
            assert(out@ =~= lower_spec(raw@.take(i + 1)));
        }
        i += 1;
    }
    proof {
        assert(raw@.take(n as int) =~= raw@);
        assert(lower_spec(lower_spec(raw@)) =~= lower_spec(raw@));
    }
    Ok(HeaderName { name: out })
}

/// Lower-cases the ASCII letters of a string.
#[verifier::loop_isolation(false)]
pub fn lower_ascii(s: &str) -> (r: String)
    ensures
        r@ == lower_spec(s@),
{
    let n = s.unicode_len();
    let mut out = String::new();
    let mut i: usize = 0;
    while i < n
        invariant
            i <= n,
            out@ =~= lower_spec(s@.take(i as int)),
        decreases n - i,
    {
        let c = s.get_char(i);
        let l = if 'A' <= c && c <= 'Z' {
            (((c as u32) + 32) as u8) as char
        } else {
            c
        };
        proof {
            assert(l == lower_char(c));
        }
        push_char(&mut out, l);
        proof {
            assert(out@ =~= lower_spec(s@.take(i + 1)));
        }
        i += 1;
    }
    proof {
        assert(s@.take(n as int) =~= s@);
    }
    out
}

/// Validates a header value for the wire: accepted exactly when it holds
/// no control character other than horizontal tab.
#[verifier::loop_isolation(false)]
pub fn header_value(raw: &str) -> (r: Result<HeaderValue, CoreError>)
    ensures
        match r {
            Ok(h) => valid_header_value(raw@) && h.wf() && h.value@ == raw@,
            Err(e) => !valid_header_value(raw@) && e is ResponseBuild,
        },
{
    let n = raw.unicode_len();
    let mut i: usize = 0;
    while i < n
        invariant
            i <= n,
            forall|j: int|
                0 <= j < i ==> (#[trigger] raw@[j] == '\t' || (' ' <= raw@[j] && raw@[j]
                    != '\u{7f}')),
        decreases n - i,
    {
        let c = raw.get_char(i);
        if !(c == '\t' || (' ' <= c && c != '\u{7f}')) {
            return Err(CoreError::ResponseBuild(String::from_str("invalid header value")));
        }
        i += 1;
    }
    Ok(HeaderValue { value: raw.to_owned() })
}

} // verus!
