//! Mapping a handler's returned value to the canonical response.
//!
//! The handler environment hands its result back as a [`HandlerResult`]
//! over plain values.  A bare value becomes a `200` response whose body
//! and content type follow the inference policy; a positional result of
//! two or three elements is read as `(body, status[, headers])`, and any
//! other arity is a response-build fault.

use vstd::prelude::*;
use vstd::string::*;
use crate::errors::core_error::CoreError;
use crate::http::headers::{lower_ascii, lower_spec};
use crate::http::response::{OutgoingResponse, ResponseBody};
use crate::serialization::content_type::{
    application_json_utf8, spec_application_json_utf8, spec_text_plain_utf8, text_plain_utf8,
};
use crate::serialization::json::{ser_json, to_json_bytes, JsonValue};
use crate::strmap::StringMap;

verus! {

/// A plain value a handler can hand back as a body (or as one element of
/// a positional result).
#[derive(Debug)]
pub enum HandlerValue {
    /// The absent result.
    Null,
    /// A raw byte payload.
    Bytes(Vec<u8>),
    /// A text payload.
    Text(String),
    /// A filesystem-path-like result, streamed by the transport.
    FilePath(String),
    /// A structured payload, serialized to JSON.
    Structured(JsonValue),
}

/// What a handler invocation returned: a bare value, or a positional
/// result.
#[derive(Debug)]
pub enum HandlerResult {
    Single(HandlerValue),
    Positional(Vec<HandlerValue>),
}

/// The content-type header key.
pub open spec fn spec_content_type_key() -> Seq<char> {
    "content-type"@
}

/// The body and inferred content type a handler value denotes.
pub open spec fn body_post(v: HandlerValue, body: ResponseBody, ct: Option<String>) -> bool {
    match v {
        HandlerValue::Null => {
            &&& body matches ResponseBody::Bytes(b) && b@ == Seq::<u8>::empty()
            &&& ct matches Some(c) && c@ == spec_application_json_utf8()
        },
        HandlerValue::Bytes(bs) => {
            &&& body matches ResponseBody::Bytes(b) && b@ == bs@
            &&& ct is None
        },
        HandlerValue::Text(s) => {
            &&& body matches ResponseBody::Bytes(b) && b@ == vstd::utf8::encode_utf8(s@)
            &&& ct matches Some(c) && c@ == spec_text_plain_utf8()
        },
        HandlerValue::FilePath(p) => {
            &&& body matches ResponseBody::File(q) && q@ == p@
            &&& ct is None
        },
        HandlerValue::Structured(j) => {
            &&& body matches ResponseBody::Bytes(b) && b@ == vstd::utf8::encode_utf8(ser_json(j))
            &&& ct matches Some(c) && c@ == spec_application_json_utf8()
        },
    }
}

/// The status code a positional element denotes, if it is an integer in
/// the range of a status code.
pub open spec fn status_of(v: HandlerValue) -> Option<u16> {
    match v {
        HandlerValue::Structured(j) => match j {
            JsonValue::Int(i) => if 0 <= i <= 65535 {
                Some(i as u16)
            } else {
                None
            },
            _ => None,
        },
        _ => None,
    }
}

/// Whether a positional element is a string-to-string mapping: the only
/// accepted shape for positional headers.
pub open spec fn is_header_dict(v: HandlerValue) -> bool {
    v matches HandlerValue::Structured(j) && j matches JsonValue::Obj(_)
}

/// The header pairs of a positional headers element, if every value is a
/// string.
pub open spec fn header_pairs_of(v: HandlerValue) -> Option<Seq<(Seq<char>, Seq<char>)>> {
    match v {
        HandlerValue::Structured(j) => match j {
            JsonValue::Obj(pairs) => {
                if forall|i: int| 0 <= i < pairs@.len() ==> (#[trigger] pairs@[i]).1 is Str {
                    Some(
                        pairs@.map(
                            |i: int, p: (String, JsonValue)| (p.0@, p.1->Str_0@),
                        ),
                    )
                } else {
                    None
                }
            },
            _ => None,
        },
        _ => None,
    }
}

/// Last-wins lookup in a pair list.
pub open spec fn lookup_last(pairs: Seq<(Seq<char>, Seq<char>)>, k: Seq<char>) -> Option<
    Seq<char>,
>
    decreases pairs.len(),
{
    if pairs.len() == 0 {
        None
    } else if pairs.last().0 == k {
        Some(pairs.last().1)
    } else {
        lookup_last(pairs.drop_last(), k)
    }
}

/// The pairs with their keys lower-cased.
pub open spec fn lowered(pairs: Seq<(Seq<char>, Seq<char>)>) -> Seq<(Seq<char>, Seq<char>)> {
    pairs.map(|i: int, p: (Seq<char>, Seq<char>)| (lower_spec(p.0), p.1))
}

/// What the response's header mapping must say for key `k`: the explicit
/// headers, keys lower-cased and last value winning, and the inferred
/// content type only where none was given.
pub open spec fn headers_expected(
    pairs: Seq<(Seq<char>, Seq<char>)>,
    ct: Option<String>,
    k: Seq<char>,
) -> Option<Seq<char>> {
    let base = lookup_last(lowered(pairs), k);
    if k == spec_content_type_key() && base is None {
        match ct {
            Some(c) => Some(c@),
            None => None,
        }
    } else {
        base
    }
}

/// What `py_to_response` and `tuple_to_response` promise of a positional
/// result.
pub open spec fn tuple_post(
    items: Seq<HandlerValue>,
    r: Result<OutgoingResponse, CoreError>,
) -> bool {
    if items.len() != 2 && items.len() != 3 {
        r matches Err(e) && e is ResponseBuild
    } else if status_of(items[1]) is None {
        r matches Err(e) && e is Handler
    } else if items.len() == 3 && !is_header_dict(items[2]) {
        r matches Err(e) && e is ResponseBuild
    } else if items.len() == 3 && header_pairs_of(items[2]) is None {
        r matches Err(e) && e is Handler
    } else {
        let hp = if items.len() == 3 {
            header_pairs_of(items[2]).unwrap()
        } else {
            Seq::empty()
        };
        &&& r matches Ok(resp)
        &&& resp.wf()
        &&& resp.status == status_of(items[1]).unwrap()
        &&& exists|ct: Option<String>|
            #![trigger body_post(items[0], resp.body, ct)]
            body_post(items[0], resp.body, ct) && forall|k: Seq<char>|
                #[trigger] resp.headers.spec_get(k) == headers_expected(hp, ct, k)
    }
}

/// The body and inferred content type of a handler value.
pub fn value_to_body(v: HandlerValue) -> (r: (ResponseBody, Option<String>))
    ensures
        body_post(v, r.0, r.1),
{
    match v {
        HandlerValue::Null => (ResponseBody::Bytes(Vec::new()), Some(application_json_utf8())),
        HandlerValue::Bytes(bs) => (ResponseBody::Bytes(bs), None),
        HandlerValue::Text(s) => (
            ResponseBody::Bytes(s.as_str().as_bytes_vec()),
            Some(text_plain_utf8()),
        ),
        HandlerValue::FilePath(p) => (ResponseBody::File(p), None),
        HandlerValue::Structured(j) => (
            ResponseBody::Bytes(to_json_bytes(&j)),
            Some(application_json_utf8()),
        ),
    }
}

/// Reads a positional result `(body, status[, headers])`.
#[verifier::loop_isolation(false)]
pub fn tuple_to_response(items: Vec<HandlerValue>) -> (r: Result<OutgoingResponse, CoreError>)
    ensures
        tuple_post(items@, r),
{
    let ghost orig = items@;
    let arity = items.len();
    if arity != 2 && arity != 3 {
        return Err(
            CoreError::ResponseBuild(
                String::from_str("tuple response must be (body, status) or (body, status, headers)"),
            ),
        );
    }
    let mut items = items;
    let body_item = items.remove(0);
    let status_item = items.remove(0);
    proof {
        assert(body_item == orig[0]);
        assert(status_item == orig[1]);
    }
    let status: u16 = match status_item {
        HandlerValue::Structured(JsonValue::Int(i)) => {
            if 0 <= i && i <= 65535 {
                i as u16
            } else {
                return Err(
                    CoreError::Handler(String::from_str("tuple status must be a status code")),
                );
            }
        },
        _ => {
            return Err(
                CoreError::Handler(String::from_str("tuple status must be a status code")),
            );
        },
    };
    let mut headers = StringMap::new();
    if arity == 3 {
        let headers_item = items.remove(0);
        proof {
            assert(headers_item == orig[2]);
        }
        let pairs = match headers_item {
            HandlerValue::Structured(JsonValue::Obj(pairs)) => pairs,
            _ => {
                return Err(
                    CoreError::ResponseBuild(String::from_str("headers must be a dict[str, str]")),
                );
            },
        };
        let n = pairs.len();
        let mut i: usize = 0;
        while i < n
            invariant
                i <= n,
                n == pairs@.len(),
                headers.wf(),
                orig[2] == HandlerValue::Structured(JsonValue::Obj(pairs)),
                forall|j: int| 0 <= j < i ==> (#[trigger] pairs@[j]).1 is Str,
                header_pairs_of(orig[2]) is Some ==> forall|k: Seq<char>|
                    #[trigger] headers.spec_get(k) == lookup_last(
                        lowered(header_pairs_of(orig[2]).unwrap()).take(i as int),
                        k,
                    ),
            decreases n - i,
        {
            let value = match &pairs[i].1 {
                JsonValue::Str(s) => s.clone(),
                _ => {
                    return Err(
                        CoreError::Handler(
                            String::from_str("header values must be strings"),
                        ),
                    );
                },
            };
            let key = lower_ascii(pairs[i].0.as_str());
            let ghost pre = headers;
            headers.insert(key, value);
            proof {
                if header_pairs_of(orig[2]) is Some {
                    let lw = lowered(header_pairs_of(orig[2]).unwrap());
                    assert(lw[i as int] == (
                        lower_spec(pairs@[i as int].0@),
                        pairs@[i as int].1->Str_0@,
                    ));
                    assert(lw.take(i + 1).drop_last() =~= lw.take(i as int));
                    assert(lw.take(i + 1).last() == lw[i as int]);
                    assert forall|k: Seq<char>| #[trigger] headers.spec_get(k) == lookup_last(
                        lw.take(i + 1),
                        k,
                    ) by {
                        if k == lw[i as int].0 {
                            assert(headers.spec_get(k) == Some(lw[i as int].1));
                        } else {
                            assert(headers.spec_get(k) == pre.spec_get(k));
                        }
                    }
                }
            }
            i += 1;
        }
        proof {
            assert(header_pairs_of(orig[2]) is Some);
            assert(lowered(header_pairs_of(orig[2]).unwrap()).take(n as int) =~= lowered(
                header_pairs_of(orig[2]).unwrap(),
            ));
        }
    }
    let (body, ct) = value_to_body(body_item);
    let ghost hp_final: Seq<(Seq<char>, Seq<char>)> = if orig.len() == 3 {
        header_pairs_of(orig[2]).unwrap()
    } else {
        Seq::empty()
    };
    let mut headers = headers;
    let has_ct = headers.contains_key("content-type");
    let ct2 = match ct {
        Some(c) => {
            if !has_ct {
                let ghost pre = headers;
                headers.insert(String::from_str("content-type"), c.clone());
                proof {
                    assert forall|k: Seq<char>| #[trigger] headers.spec_get(k)
                        == headers_expected(hp_final, Some(c), k) by {
                        if k == "content-type"@ {
                        } else {
                            assert(headers.spec_get(k) == pre.spec_get(k));
                        }
                    }
                }
            } else {
                proof {
                    assert forall|k: Seq<char>| #[trigger] headers.spec_get(k)
                        == headers_expected(hp_final, Some(c), k) by {}
                }
            }
            Some(c)
        },
        None => {
            proof {
                assert forall|k: Seq<char>| #[trigger] headers.spec_get(k) == headers_expected(
                    hp_final,
                    None,
                    k,
                ) by {}
            }
            None
        },
    };
    let resp = OutgoingResponse { status, headers, body };
    proof {
        assert(body_post(orig[0], resp.body, ct2));
        assert(tuple_post(orig, Ok(resp)));
    }
    Ok(resp)
}

/// Maps the handler's returned value to the canonical response: a bare
/// value becomes a `200` response with the inferred content type, a
/// positional result is read as `(body, status[, headers])`.
pub fn py_to_response(result: HandlerResult) -> (r: Result<OutgoingResponse, CoreError>)
    ensures
        match result {
            HandlerResult::Positional(items) => tuple_post(items@, r),
            HandlerResult::Single(v) => {
                &&& r matches Ok(resp)
                &&& resp.wf()
                &&& resp.status == 200
                &&& exists|ct: Option<String>|
                    #![trigger body_post(v, resp.body, ct)]
                    body_post(v, resp.body, ct) && forall|k: Seq<char>|
                        #[trigger] resp.headers.spec_get(k) == headers_expected(
                            Seq::empty(),
                            ct,
                            k,
                        )
            },
        },
{
    match result {
        HandlerResult::Positional(items) => tuple_to_response(items),
        HandlerResult::Single(v) => {
            let (body, ct) = value_to_body(v);
            let mut headers = StringMap::new();
            let ct2 = match ct {
                Some(c) => {
                    let ghost pre = headers;
                    headers.insert(String::from_str("content-type"), c.clone());
                    proof {
                        assert forall|k: Seq<char>| #[trigger] headers.spec_get(k)
                            == headers_expected(Seq::empty(), Some(c), k) by {
                            if k != "content-type"@ {
                                assert(headers.spec_get(k) == pre.spec_get(k));
                            }
                        }
                    }
                    Some(c)
                },
                None => {
                    proof {
                        assert forall|k: Seq<char>| #[trigger] headers.spec_get(k)
                            == headers_expected(Seq::empty(), None, k) by {}
                    }
                    None
                },
            };
            let resp = OutgoingResponse { status: 200, headers, body };
            proof {
                assert(body_post(v, resp.body, ct2));
            }
            Ok(resp)
        },
    }
}

} // verus!
