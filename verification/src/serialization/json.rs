//! The structured-value model and its encoding to JSON text.
//!
//! A handler's structured result (a mapping or a sequence of scalars and
//! nested values) is modeled as a [`JsonValue`] and serialized by
//! [`to_json_bytes`].  Strings are escaped: `"` and `\` with a backslash,
//! control characters as `\u00XX`; all other characters stand as
//! themselves.

use vstd::prelude::*;
use vstd::string::*;
use crate::strutil::push_char;

verus! {

/// A structured value: the shapes JSON can carry, without floats.
#[derive(Debug)]
pub enum JsonValue {
    Null,
    Bool(bool),
    Int(i64),
    Str(String),
    Arr(Vec<JsonValue>),
    Obj(Vec<(String, JsonValue)>),
}

/// The decimal digits of `n`, most significant first.
pub open spec fn dec_digits(n: nat) -> Seq<char>
    decreases n,
{
    if n < 10 {
        seq![digit_of(n)]
    } else {
        dec_digits(n / 10).push(digit_of(n % 10))
    }
}

/// The character of one decimal digit.
pub open spec fn digit_of(n: nat) -> char {
    ((48 + (n % 10)) as u32) as char
}

/// The decimal rendering of an integer.
pub open spec fn ser_int(i: int) -> Seq<char> {
    if i < 0 {
        seq!['-'] + dec_digits((-i) as nat)
    } else {
        dec_digits(i as nat)
    }
}

/// The character of one hexadecimal digit.
pub open spec fn hex_of(n: nat) -> char {
    if n % 16 < 10 {
        ((48 + (n % 16)) as u32) as char
    } else {
        ((87 + (n % 16)) as u32) as char
    }
}

/// How one character appears inside a JSON string literal.
pub open spec fn esc_char(c: char) -> Seq<char> {
    if c == '"' {
        seq!['\\', '"']
    } else if c == '\\' {
        seq!['\\', '\\']
    } else if (c as u32) < 32 {
        seq!['\\', 'u', '0', '0', hex_of(((c as u32) / 16) as nat), hex_of((c as u32) as nat)]
    } else {
        seq![c]
    }
}

/// The escaped form of a string body, from position `i` on.
pub open spec fn esc_from(s: Seq<char>, i: int) -> Seq<char>
    decreases s.len() - i,
{
    if i < 0 || i >= s.len() {
        Seq::empty()
    } else {
        esc_char(s[i]) + esc_from(s, i + 1)
    }
}

/// The JSON text of a value.
pub open spec fn ser_json(v: JsonValue) -> Seq<char>
    decreases v, 1int, 0int,
{
    match v {
        JsonValue::Null => "null"@,
        JsonValue::Bool(b) => if b {
            "true"@
        } else {
            "false"@
        },
        JsonValue::Int(i) => ser_int(i as int),
        JsonValue::Str(s) => seq!['"'] + esc_from(s@, 0) + seq!['"'],
        JsonValue::Arr(items) => seq!['['] + ser_items(items@, items@.len() as int) + seq![']'],
        JsonValue::Obj(pairs) => seq!['{'] + ser_pairs(pairs@, pairs@.len() as int) + seq!['}'],
    }
}

/// The JSON text of the first `n` items of an array, comma-separated.
pub open spec fn ser_items(items: Seq<JsonValue>, n: int) -> Seq<char>
    decreases items, 0int, n,
{
    if n <= 0 || n > items.len() {
        Seq::empty()
    } else if n == 1 {
        ser_json(items[0])
    } else {
        ser_items(items, n - 1) + seq![','] + ser_json(items[n - 1])
    }
}

/// The JSON text of the first `n` members of an object, comma-separated.
pub open spec fn ser_pairs(pairs: Seq<(String, JsonValue)>, n: int) -> Seq<char>
    decreases pairs, 0int, n,
{
    if n <= 0 || n > pairs.len() {
        Seq::empty()
    } else if n == 1 {
        ser_pair(pairs[0])
    } else {
        ser_pairs(pairs, n - 1) + seq![','] + ser_pair(pairs[n - 1])
    }
}

/// The JSON text of one object member.
pub open spec fn ser_pair(p: (String, JsonValue)) -> Seq<char>
    decreases p, 1int, 0int,
{
    seq!['"'] + esc_from(p.0@, 0) + seq!['"', ':'] + ser_json(p.1)
}

/// Appends the decimal digits of `n`.
fn write_digits(n: u64, out: &mut String)
    ensures
        final(out)@ == old(out)@ + dec_digits(n as nat),
    decreases n,
{
    if n < 10 {
        push_char(out, ((48 + n) as u8) as char);
        proof {
            assert(((48 + n) as u8) as char == digit_of(n as nat));
            assert(old(out)@.push(digit_of(n as nat)) =~= old(out)@ + dec_digits(n as nat));
        }
    } else {
        write_digits(n / 10, out);
        let d = n % 10;
        push_char(out, ((48 + d) as u8) as char);
        proof {
            assert(((48 + d) as u8) as char == digit_of((n % 10) as nat));
            assert((old(out)@ + dec_digits((n / 10) as nat)).push(digit_of((n % 10) as nat))
                =~= old(out)@ + dec_digits(n as nat));
        }
    }
}

/// Appends one hexadecimal digit.
fn write_hex(d: u32, out: &mut String)
    requires
        d < 16,
    ensures
        final(out)@ == old(out)@.push(hex_of(d as nat)),
{
    if d < 10 {
        push_char(out, ((48 + d) as u8) as char);
    } else {
        push_char(out, ((87 + d) as u8) as char);
    }
}

/// Appends the escaped form of a string body.
#[verifier::loop_isolation(false)]
fn write_escaped(s: &str, out: &mut String)
    ensures
        final(out)@ == old(out)@ + esc_from(s@, 0),
{
    let n = s.unicode_len();
    let mut i: usize = 0;
    proof {
        assert(old(out)@ + esc_from(s@, n as int) =~= old(out)@);
    }
    while i < n
        invariant
            i <= n,
            out@ + esc_from(s@, i as int) =~= old(out)@ + esc_from(s@, 0),
        decreases n - i,
    {
        let ghost pre = out@;
        let c = s.get_char(i);
        if c == '"' {
            push_char(out, '\\');
            push_char(out, '"');
        } else if c == '\\' {
            push_char(out, '\\');
            push_char(out, '\\');
        } else if (c as u32) < 32 {
            push_char(out, '\\');
            push_char(out, 'u');
            push_char(out, '0');
            push_char(out, '0');
            write_hex((c as u32) / 16, out);
            write_hex((c as u32) % 16, out);
        } else {
            push_char(out, c);
        }
        proof {
            assert(out@ =~= pre + esc_char(c));
            assert(esc_from(s@, i as int) =~= esc_char(c) + esc_from(s@, i + 1));
            assert(out@ + esc_from(s@, i + 1) =~= pre + esc_from(s@, i as int));
        }
        i += 1;
    }
}

/// Appends the JSON text of a value.
#[verifier::loop_isolation(false)]
fn write_json(v: &JsonValue, out: &mut String)
    ensures
        final(out)@ == old(out)@ + ser_json(*v),
    decreases v,
{
    match v {
        JsonValue::Null => {
            out.append("null");
        },
        JsonValue::Bool(b) => {
            if *b {
                out.append("true");
            } else {
                out.append("false");
            }
        },
        JsonValue::Int(i) => {
            if *i < 0 {
                push_char(out, '-');
                let m: u64 = ((-1 - *i) as u64) + 1;
                write_digits(m, out);
                proof {
                    assert(m as nat == (-(*i as int)) as nat);
                    assert(old(out)@.push('-') + dec_digits(m as nat) =~= old(out)@ + ser_json(
                        *v,
                    ));
                }
            } else {
                write_digits(*i as u64, out);
            }
        },
        JsonValue::Str(s) => {
            push_char(out, '"');
            write_escaped(s.as_str(), out);
            push_char(out, '"');
            proof {
                assert(old(out)@.push('"') + esc_from(s@, 0) =~= old(out)@ + (seq!['"']
                    + esc_from(s@, 0)));
                assert((old(out)@ + (seq!['"'] + esc_from(s@, 0))).push('"') =~= old(out)@
                    + ser_json(*v));
            }
        },
        JsonValue::Arr(items) => {
            let ghost vm = items@;
            push_char(out, '[');
            proof {
                assert(out@ =~= old(out)@ + seq!['['] + ser_items(vm, 0));
            }
            let n = items.len();
            let mut i: usize = 0;
            while i < n
                invariant
                    i <= n,
                    n == items@.len(),
                    vm == items@,
                    vm.len() == n,
                    out@ =~= old(out)@ + seq!['['] + ser_items(vm, i as int),
                decreases n - i,
            {
                let ghost pre = out@;
                if i > 0 {
                    push_char(out, ',');
                }
                write_json(&items[i], out);
                proof {
                    if i == 0 {
                        assert(ser_items(vm, 1) =~= ser_json(vm[0]));
                        assert(out@ =~= pre + ser_json(items@[0]));
                    } else {
                        assert(ser_items(vm, i + 1) =~= ser_items(vm, i as int) + seq![',']
                            + ser_json(vm[i as int]));
                        assert(out@ =~= pre.push(',') + ser_json(items@[i as int]));
                    }
                    assert(out@ =~= old(out)@ + seq!['['] + ser_items(vm, i + 1));
                }
                i += 1;
            }
            push_char(out, ']');
            proof {
                assert(out@ =~= old(out)@ + ser_json(*v));
            }
        },
        JsonValue::Obj(pairs) => {
            let ghost vm = pairs@;
            push_char(out, '{');
            proof {
                assert(out@ =~= old(out)@ + seq!['{'] + ser_pairs(vm, 0));
            }
            let n = pairs.len();
            let mut i: usize = 0;
            while i < n
                invariant
                    i <= n,
                    n == pairs@.len(),
                    vm == pairs@,
                    vm.len() == n,
                    out@ =~= old(out)@ + seq!['{'] + ser_pairs(vm, i as int),
                decreases n - i,
            {
                let ghost pre = out@;
                if i > 0 {
                    push_char(out, ',');
                }
                let ghost mid = out@;
                push_char(out, '"');
                write_escaped(pairs[i].0.as_str(), out);
                push_char(out, '"');
                push_char(out, ':');
                write_json(&pairs[i].1, out);
                proof {
                    assert(out@ =~= mid + ser_pair(vm[i as int])) by {
                        assert(out@ =~= mid.push('"') + esc_from(pairs@[i as int].0@, 0)
                            + seq!['"', ':'] + ser_json(pairs@[i as int].1));
                    }
                    if i == 0 {
                        assert(ser_pairs(vm, 1) =~= ser_pair(vm[0]));
                    } else {
                        assert(ser_pairs(vm, i + 1) =~= ser_pairs(vm, i as int) + seq![',']
                            + ser_pair(vm[i as int]));
                    }
                    assert(out@ =~= old(out)@ + seq!['{'] + ser_pairs(vm, i + 1));
                }
                i += 1;
            }
            push_char(out, '}');
            proof {
                assert(out@ =~= old(out)@ + ser_json(*v));
            }
        },
    }
}

/// A decoded scalar: what one value of a flat mapping decodes to.
pub enum Scalar {
    Null,
    Bool(bool),
    Int(int),
    Str(Seq<char>),
}

/// Whether a value is a scalar: no nesting.
pub open spec fn is_scalar(v: JsonValue) -> bool {
    v is Null || v is Bool || v is Int || v is Str
}

/// The scalar a scalar value denotes.
pub open spec fn scalar_model(v: JsonValue) -> Scalar {
    match v {
        JsonValue::Null => Scalar::Null,
        JsonValue::Bool(b) => Scalar::Bool(b),
        JsonValue::Int(i) => Scalar::Int(i as int),
        JsonValue::Str(s) => Scalar::Str(s@),
        JsonValue::Arr(_) => Scalar::Null,
        JsonValue::Obj(_) => Scalar::Null,
    }
}

/// The decoded form of a mapping's pairs.
pub open spec fn pairs_model(pairs: Seq<(String, JsonValue)>) -> Seq<(Seq<char>, Scalar)> {
    pairs.map(|i: int, p: (String, JsonValue)| (p.0@, scalar_model(p.1)))
}

/// A hexadecimal digit as the serializer writes them.
pub open spec fn is_hex_char(c: char) -> bool {
    ('0' <= c && c <= '9') || ('a' <= c && c <= 'f')
}

/// The value of such a digit.
pub open spec fn hex_char_val(c: char) -> int {
    if c <= '9' {
        c as int - 48
    } else {
        c as int - 87
    }
}

/// Decodes a JSON string body: everything up to the closing quote,
/// escapes resolved.  Returns the decoded content and the rest of the
/// text after the quote.
pub open spec fn parse_string_body(s: Seq<char>) -> Option<(Seq<char>, Seq<char>)>
    decreases s.len(),
{
    if s.len() == 0 {
        None
    } else if s[0] == '"' {
        Some((Seq::empty(), s.drop_first()))
    } else if s[0] == '\\' {
        if s.len() >= 2 && (s[1] == '"' || s[1] == '\\') {
            match parse_string_body(s.skip(2)) {
                Some((t, r)) => Some((seq![s[1]] + t, r)),
                None => None,
            }
        } else if s.len() >= 6 && s[1] == 'u' && is_hex_char(s[2]) && is_hex_char(s[3])
            && is_hex_char(s[4]) && is_hex_char(s[5]) {
            let code = 4096 * hex_char_val(s[2]) + 256 * hex_char_val(s[3]) + 16 * hex_char_val(
                s[4],
            ) + hex_char_val(s[5]);
            if code < 0xD800 {
                match parse_string_body(s.skip(6)) {
                    Some((t, r)) => Some((seq![(code as u32) as char] + t, r)),
                    None => None,
                }
            } else {
                None
            }
        } else {
            None
        }
    } else {
        match parse_string_body(s.drop_first()) {
            Some((t, r)) => Some((seq![s[0]] + t, r)),
            None => None,
        }
    }
}

/// The hexadecimal digit of `m % 16`, as a digit of known value.
pub proof fn lemma_hex_of(m: nat)
    ensures
        is_hex_char(hex_of(m)),
        hex_char_val(hex_of(m)) == (m % 16) as int,
{
}

/// Unescaping undoes escaping: the decoder recovers exactly the string
/// that was escaped and leaves exactly the trailing text.
pub proof fn lemma_unescape_escape(s: Seq<char>, i: int, rest: Seq<char>)
    requires
        0 <= i <= s.len(),
    ensures
        parse_string_body(esc_from(s, i) + seq!['"'] + rest) == Some((s.skip(i), rest)),
    decreases s.len() - i,
{
    let t = esc_from(s, i) + seq!['"'] + rest;
    if i >= s.len() {
        assert(t =~= seq!['"'] + rest);
        assert(t.drop_first() =~= rest);
        assert(s.skip(i) =~= Seq::<char>::empty());
    } else {
        let c = s[i];
        lemma_unescape_escape(s, i + 1, rest);
        let t2 = esc_from(s, i + 1) + seq!['"'] + rest;
        assert(esc_from(s, i) == esc_char(c) + esc_from(s, i + 1));
        assert(seq![c] + s.skip(i + 1) =~= s.skip(i));
        if c == '"' {
            assert(t =~= seq!['\\', '"'] + t2);
            assert(t[0] == '\\' && t[1] == '"');
            assert(t.skip(2) =~= t2);
        } else if c == '\\' {
            assert(t =~= seq!['\\', '\\'] + t2);
            assert(t[0] == '\\' && t[1] == '\\');
            assert(t.skip(2) =~= t2);
        } else if (c as u32) < 32 {
            let cu = c as u32;
            let h1 = hex_of((cu / 16) as nat);
            let h2 = hex_of(cu as nat);
            assert(t =~= seq!['\\', 'u', '0', '0', h1, h2] + t2);
            assert(t[0] == '\\' && t[1] == 'u' && t[2] == '0' && t[3] == '0' && t[4] == h1 && t[5]
                == h2);
            assert(t.len() >= 6);
            assert(is_hex_char('0') && hex_char_val('0') == 0);
            lemma_hex_of((cu / 16) as nat);
            lemma_hex_of(cu as nat);
            assert(hex_char_val(h1) == ((cu / 16) as nat % 16) as int);
            assert((cu / 16) as nat % 16 == (cu / 16) as nat);
            assert(hex_char_val(h2) == (cu as nat % 16) as int);
            let code = 4096 * hex_char_val(t[2]) + 256 * hex_char_val(t[3]) + 16 * hex_char_val(
                t[4],
            ) + hex_char_val(t[5]);
            assert(code == 16 * ((cu / 16) as int) + (cu % 16) as int);
            assert(code == cu as int);
            assert(code as u32 == cu);
            vstd::utf8::char_u32_cast(c, cu);
            assert((code as u32) as char == c);
            assert(t.skip(6) =~= t2);
        } else {
            assert(t[0] == c);
            assert(t.drop_first() =~= t2);
        }
    }
}

/// The length of the leading run of decimal digits.
pub open spec fn digit_run(s: Seq<char>) -> int
    decreases s.len(),
{
    if s.len() == 0 || !('0' <= s[0] && s[0] <= '9') {
        0
    } else {
        1 + digit_run(s.drop_first())
    }
}

/// The number the digits denote.
pub open spec fn digits_val(ds: Seq<char>) -> int
    decreases ds.len(),
{
    if ds.len() == 0 {
        0
    } else {
        10 * digits_val(ds.drop_last()) + (ds.last() as int - 48)
    }
}

/// Decodes an optionally signed decimal integer at the head of the text.
pub open spec fn parse_int(s: Seq<char>) -> Option<(int, Seq<char>)> {
    if s.len() > 0 && s[0] == '-' {
        let k = digit_run(s.skip(1));
        if k > 0 {
            Some((-digits_val(s.skip(1).take(k)), s.skip(1).skip(k)))
        } else {
            None
        }
    } else {
        let k = digit_run(s);
        if k > 0 {
            Some((digits_val(s.take(k)), s.skip(k)))
        } else {
            None
        }
    }
}

/// The decimal rendering of `n` consists of digits and denotes `n`.
pub proof fn lemma_dec_digits(n: nat)
    ensures
        dec_digits(n).len() >= 1,
        forall|i: int| 0 <= i < dec_digits(n).len() ==> '0' <= #[trigger] dec_digits(n)[i]
            && dec_digits(n)[i] <= '9',
        digits_val(dec_digits(n)) == n,
    decreases n,
{
    if n < 10 {
        assert(dec_digits(n) == seq![digit_of(n)]);
        assert(digit_of(n) as int == 48 + n);
        assert(dec_digits(n).drop_last() =~= Seq::<char>::empty());
        assert(dec_digits(n).last() == digit_of(n));
        assert(digits_val(dec_digits(n)) == 10 * digits_val(Seq::<char>::empty()) + (digit_of(n)
            as int - 48));
    } else {
        lemma_dec_digits(n / 10);
        let ds = dec_digits(n / 10);
        assert(dec_digits(n) == ds.push(digit_of(n % 10)));
        assert(digit_of(n % 10) as int == 48 + (n % 10));
        assert forall|i: int| 0 <= i < dec_digits(n).len() implies '0' <= #[trigger] dec_digits(
            n,
        )[i] && dec_digits(n)[i] <= '9' by {
            if i < ds.len() {
                assert(dec_digits(n)[i] == ds[i]);
            }
        }
        assert(ds.push(digit_of(n % 10)).drop_last() =~= ds);
        assert(ds.push(digit_of(n % 10)).last() == digit_of(n % 10));
        assert(digits_val(dec_digits(n)) == 10 * (n / 10) + (n % 10));
        assert(10 * (n / 10) + (n % 10) == n);
    }
}

/// The digit run of digits followed by a non-digit is exactly the digits.
pub proof fn lemma_digit_run(ds: Seq<char>, rest: Seq<char>)
    requires
        forall|i: int| 0 <= i < ds.len() ==> '0' <= #[trigger] ds[i] && ds[i] <= '9',
        rest.len() > 0 ==> !('0' <= rest[0] && rest[0] <= '9'),
    ensures
        digit_run(ds + rest) == ds.len(),
        (ds + rest).take(ds.len() as int) =~= ds,
        (ds + rest).skip(ds.len() as int) =~= rest,
    decreases ds.len(),
{
    if ds.len() == 0 {
        assert(ds + rest =~= rest);
    } else {
        lemma_digit_run(ds.drop_first(), rest);
        assert((ds + rest).drop_first() =~= ds.drop_first() + rest);
        assert((ds + rest)[0] == ds[0]);
    }
}

/// The rendering of an integer decodes back to it, whatever follows,
/// provided what follows does not begin with a digit.
pub proof fn lemma_parse_int_ser(i: int, rest: Seq<char>)
    requires
        rest.len() > 0 ==> !('0' <= rest[0] && rest[0] <= '9'),
    ensures
        parse_int(ser_int(i) + rest) == Some((i, rest)),
{
    let t = ser_int(i) + rest;
    if i < 0 {
        let ds = dec_digits((-i) as nat);
        lemma_dec_digits((-i) as nat);
        assert(t =~= seq!['-'] + (ds + rest));
        assert(t[0] == '-');
        assert(t.skip(1) =~= ds + rest);
        lemma_digit_run(ds, rest);
        assert(digits_val((ds + rest).take(ds.len() as int)) == -i);
    } else {
        let ds = dec_digits(i as nat);
        lemma_dec_digits(i as nat);
        assert(t =~= ds + rest);
        assert(t[0] == ds[0]);
        assert('0' <= t[0] && t[0] <= '9');
        lemma_digit_run(ds, rest);
        assert(digits_val(t.take(ds.len() as int)) == i);
    }
}

/// Decodes one scalar at the head of the text.
pub open spec fn parse_scalar(s: Seq<char>) -> Option<(Scalar, Seq<char>)> {
    if s.len() == 0 {
        None
    } else if s[0] == '"' {
        match parse_string_body(s.drop_first()) {
            Some((t, r)) => Some((Scalar::Str(t), r)),
            None => None,
        }
    } else if s[0] == '-' || ('0' <= s[0] && s[0] <= '9') {
        match parse_int(s) {
            Some((i, r)) => Some((Scalar::Int(i), r)),
            None => None,
        }
    } else if s.len() >= 4 && s.take(4) == "null"@ {
        Some((Scalar::Null, s.skip(4)))
    } else if s.len() >= 4 && s.take(4) == "true"@ {
        Some((Scalar::Bool(true), s.skip(4)))
    } else if s.len() >= 5 && s.take(5) == "false"@ {
        Some((Scalar::Bool(false), s.skip(5)))
    } else {
        None
    }
}

/// A serialized scalar decodes back to itself, provided the text that
/// follows begins with a separator.
pub proof fn lemma_parse_scalar_ser(v: JsonValue, rest: Seq<char>)
    requires
        is_scalar(v),
        rest.len() > 0,
        rest[0] == ',' || rest[0] == '}',
    ensures
        parse_scalar(ser_json(v) + rest) == Some((scalar_model(v), rest)),
{
    let t = ser_json(v) + rest;
    reveal_strlit("null");
    reveal_strlit("true");
    reveal_strlit("false");
    match v {
        JsonValue::Null => {
            assert(t =~= "null"@ + rest);
            assert(t[0] == 'n');
            assert(t.take(4) =~= "null"@);
            assert(t.len() >= 4 && t.skip(4) =~= rest);
            assert(!(t.take(4) == "true"@)) by {
                assert("null"@[0] != "true"@[0]);
            }
        },
        JsonValue::Bool(b) => {
            if b {
                assert(t =~= "true"@ + rest);
                assert(t[0] == 't');
                assert(t.take(4) =~= "true"@);
                assert(t.skip(4) =~= rest);
                assert(!(t.take(4) == "null"@)) by {
                    assert("null"@[0] != "true"@[0]);
                }
            } else {
                assert(t =~= "false"@ + rest);
                assert(t[0] == 'f');
                assert(t.take(5) =~= "false"@);
                assert(t.skip(5) =~= rest);
                assert(!(t.len() >= 4 && t.take(4) == "null"@)) by {
                    assert(t.take(4)[0] == 'f' && "null"@[0] == 'n');
                }
                assert(!(t.len() >= 4 && t.take(4) == "true"@)) by {
                    assert(t.take(4)[0] == 'f' && "true"@[0] == 't');
                }
            }
        },
        JsonValue::Int(i) => {
            lemma_parse_int_ser(i as int, rest);
            if i < 0 {
                assert(t[0] == '-') by {
                    assert(t =~= (seq!['-'] + dec_digits((-(i as int)) as nat)) + rest);
                }
            } else {
                lemma_dec_digits(i as nat);
                assert(t[0] == dec_digits(i as nat)[0]) by {
                    assert(t =~= dec_digits(i as nat) + rest);
                }
                assert('0' <= t[0] && t[0] <= '9');
            }
        },
        JsonValue::Str(s) => {
            assert(t =~= seq!['"'] + (esc_from(s@, 0) + seq!['"'] + rest));
            assert(t[0] == '"');
            assert(t.drop_first() =~= esc_from(s@, 0) + seq!['"'] + rest);
            lemma_unescape_escape(s@, 0, rest);
            assert(s@.skip(0) =~= s@);
        },
        JsonValue::Arr(_) => {},
        JsonValue::Obj(_) => {},
    }
}

/// Decodes the members of a flat mapping up to and including the closing
/// brace; returns the pairs and the rest of the text.
pub open spec fn parse_members(s: Seq<char>) -> Option<(Seq<(Seq<char>, Scalar)>, Seq<char>)>
    decreases s.len(),
{
    if s.len() == 0 || s[0] != '"' {
        None
    } else {
        match parse_string_body(s.drop_first()) {
            None => None,
            Some((k, r1)) => {
                if r1.len() == 0 || r1[0] != ':' {
                    None
                } else {
                    match parse_scalar(r1.drop_first()) {
                        None => None,
                        Some((v, r2)) => {
                            if r2.len() == 0 {
                                None
                            } else if r2[0] == '}' {
                                Some((seq![(k, v)], r2.drop_first()))
                            } else if r2[0] == ',' && r2.len() - 1 < s.len() {
                                match parse_members(r2.skip(1)) {
                                    None => None,
                                    Some((ps, r3)) => Some((seq![(k, v)] + ps, r3)),
                                }
                            } else {
                                None
                            }
                        },
                    }
                }
            },
        }
    }
}

/// Decodes a whole flat mapping: the entire text must be consumed.
pub open spec fn parse_flat_obj(s: Seq<char>) -> Option<Seq<(Seq<char>, Scalar)>> {
    if s.len() >= 2 && s[0] == '{' {
        if s.len() == 2 && s[1] == '}' {
            Some(Seq::empty())
        } else {
            match parse_members(s.drop_first()) {
                Some((ps, r)) => if r.len() == 0 {
                    Some(ps)
                } else {
                    None
                },
                None => None,
            }
        }
    } else {
        None
    }
}

/// The serialized first `n` pairs, decomposed at the front.
proof fn lemma_ser_pairs_front(pairs: Seq<(String, JsonValue)>, n: int)
    requires
        2 <= n <= pairs.len(),
    ensures
        ser_pairs(pairs, n) =~= ser_pair(pairs[0]) + seq![','] + ser_pairs(
            pairs.drop_first(),
            n - 1,
        ),
    decreases n,
{
    if n == 2 {
        assert(ser_pairs(pairs, 2) == ser_pairs(pairs, 1) + seq![','] + ser_pair(pairs[1]));
        assert(ser_pairs(pairs, 1) == ser_pair(pairs[0]));
        assert(pairs.drop_first()[0] == pairs[1]);
        assert(ser_pairs(pairs.drop_first(), 1) == ser_pair(pairs[1]));
    } else {
        lemma_ser_pairs_front(pairs, n - 1);
        assert(ser_pairs(pairs, n) == ser_pairs(pairs, n - 1) + seq![','] + ser_pair(
            pairs[n - 1],
        ));
        assert(pairs.drop_first()[n - 2] == pairs[n - 1]);
        assert(ser_pairs(pairs.drop_first(), n - 1) == ser_pairs(pairs.drop_first(), n - 2)
            + seq![','] + ser_pair(pairs.drop_first()[n - 2]));
    }
}

/// The members of a serialized flat mapping decode back to exactly its
/// pairs, consuming the closing brace.
proof fn lemma_parse_members_ser(pairs: Seq<(String, JsonValue)>)
    requires
        pairs.len() >= 1,
        forall|i: int| 0 <= i < pairs.len() ==> is_scalar((#[trigger] pairs[i]).1),
    ensures
        parse_members(ser_pairs(pairs, pairs.len() as int) + seq!['}']) == Some(
            (pairs_model(pairs), Seq::<char>::empty()),
        ),
    decreases pairs.len(),
{
    let n = pairs.len() as int;
    let p0 = pairs[0];
    if n == 1 {
        let t = ser_pairs(pairs, 1) + seq!['}'];
        assert(ser_pairs(pairs, 1) == ser_pair(p0));
        let after_key = seq![':'] + ser_json(p0.1) + seq!['}'];
        assert(t =~= seq!['"'] + (esc_from(p0.0@, 0) + seq!['"'] + after_key));
        assert(t[0] == '"');
        assert(t.drop_first() =~= esc_from(p0.0@, 0) + seq!['"'] + after_key);
        lemma_unescape_escape(p0.0@, 0, after_key);
        assert(p0.0@.skip(0) =~= p0.0@);
        assert(after_key[0] == ':');
        assert(after_key.drop_first() =~= ser_json(p0.1) + seq!['}']);
        lemma_parse_scalar_ser(p0.1, seq!['}']);
        assert(seq!['}'].drop_first() =~= Seq::<char>::empty());
        assert(seq![(p0.0@, scalar_model(p0.1))] =~= pairs_model(pairs));
    } else {
        let tail = pairs.drop_first();
        lemma_ser_pairs_front(pairs, n);
        lemma_parse_members_ser(tail);
        let tail_text = ser_pairs(tail, n - 1) + seq!['}'];
        let after_val = seq![','] + tail_text;
        let after_key = seq![':'] + ser_json(p0.1) + after_val;
        let t = ser_pairs(pairs, n) + seq!['}'];
        assert(t =~= seq!['"'] + (esc_from(p0.0@, 0) + seq!['"'] + after_key));
        assert(t[0] == '"');
        assert(t.drop_first() =~= esc_from(p0.0@, 0) + seq!['"'] + after_key);
        lemma_unescape_escape(p0.0@, 0, after_key);
        assert(p0.0@.skip(0) =~= p0.0@);
        assert(after_key[0] == ':');
        assert(after_key.drop_first() =~= ser_json(p0.1) + after_val);
        lemma_parse_scalar_ser(p0.1, after_val);
        assert(after_val[0] == ',');
        assert(after_val.len() - 1 < t.len());
        assert(after_val.skip(1) =~= tail_text);
        assert(seq![(p0.0@, scalar_model(p0.1))] + pairs_model(tail) =~= pairs_model(pairs));
    }
}

/// The first character of a serialized pair list is a quote.
proof fn lemma_ser_pairs_first_char(pairs: Seq<(String, JsonValue)>, n: int)
    requires
        1 <= n <= pairs.len(),
    ensures
        ser_pairs(pairs, n).len() >= 1,
        ser_pairs(pairs, n)[0] == '"',
    decreases n,
{
    if n == 1 {
        assert(ser_pairs(pairs, 1) == ser_pair(pairs[0]));
        assert(ser_pair(pairs[0])[0] == '"');
    } else {
        lemma_ser_pairs_first_char(pairs, n - 1);
        assert(ser_pairs(pairs, n) == ser_pairs(pairs, n - 1) + seq![','] + ser_pair(
            pairs[n - 1],
        ));
        assert(ser_pairs(pairs, n)[0] == ser_pairs(pairs, n - 1)[0]);
    }
}

/// Law: a structured mapping with scalar values serializes to JSON text
/// that, decoded, reconstructs exactly its keys and values.
pub proof fn lemma_structured_mapping_round_trip(v: JsonValue)
    requires
        v is Obj,
        forall|i: int| 0 <= i < v->Obj_0@.len() ==> is_scalar((#[trigger] v->Obj_0@[i]).1),
    ensures
        parse_flat_obj(ser_json(v)) == Some(pairs_model(v->Obj_0@)),
{
    let pairs = v->Obj_0@;
    let n = pairs.len() as int;
    let t = ser_json(v);
    assert(t == seq!['{'] + ser_pairs(pairs, n) + seq!['}']);
    if n == 0 {
        assert(ser_pairs(pairs, 0) =~= Seq::<char>::empty());
        assert(t =~= seq!['{', '}']);
        assert(t.len() == 2 && t[0] == '{' && t[1] == '}');
        assert(pairs_model(pairs) =~= Seq::<(Seq<char>, Scalar)>::empty());
    } else {
        lemma_ser_pairs_first_char(pairs, n);
        assert(t[0] == '{');
        assert(t[1] == ser_pairs(pairs, n)[0]);
        assert(t[1] == '"');
        assert(t.len() >= 3);
        assert(t.drop_first() =~= ser_pairs(pairs, n) + seq!['}']);
        lemma_parse_members_ser(pairs);
    }
}

/// Serializes a structured value to its JSON text, as UTF-8 bytes.
pub fn to_json_bytes(v: &JsonValue) -> (r: Vec<u8>)
    ensures
        r@ == vstd::utf8::encode_utf8(ser_json(*v)),
{
    let mut out = String::new();
    write_json(v, &mut out);
    out.as_str().as_bytes_vec()
}

} // verus!
