//! Decoding of a query string in form-urlencoded syntax.
//!
//! The raw query is split on `&` (empty pieces dropped), each piece is
//! split at its first `=`, and both sides are decoded: `+` becomes a
//! space and `%XX` with two hex digits becomes one byte (an ill-formed
//! `%` stands for itself).  The last value wins per key.

use vstd::prelude::*;
use vstd::string::*;
use crate::response_map::lookup_last;
use crate::strmap::StringMap;
use crate::strutil::utf8_lossy;

verus! {

/// Index of the first occurrence of `sep` in `s`, or `s.len()`.
pub open spec fn first_sep(s: Seq<u8>, sep: u8) -> int
    decreases s.len(),
{
    if s.len() == 0 {
        0
    } else if s[0] == sep {
        0
    } else {
        1 + first_sep(s.drop_first(), sep)
    }
}

pub proof fn lemma_first_sep_is(s: Seq<u8>, sep: u8, k: int)
    requires
        0 <= k <= s.len(),
        forall|j: int| 0 <= j < k ==> s[j] != sep,
        k < s.len() ==> s[k] == sep,
    ensures
        first_sep(s, sep) == k,
    decreases s.len(),
{
    if s.len() > 0 && s[0] != sep {
        assert(k > 0);
        lemma_first_sep_is(s.drop_first(), sep, k - 1);
    }
}

/// `s` split on `sep`, separators dropped, empty pieces kept.
pub open spec fn split_sep(s: Seq<u8>, sep: u8) -> Seq<Seq<u8>>
    decreases s.len(),
{
    let i = first_sep(s, sep);
    if 0 <= i < s.len() {
        seq![s.take(i)] + split_sep(s.skip(i + 1), sep)
    } else {
        seq![s]
    }
}

/// The pieces that are not empty.
pub open spec fn keep_nonempty(ss: Seq<Seq<u8>>) -> Seq<Seq<u8>>
    decreases ss.len(),
{
    if ss.len() == 0 {
        Seq::empty()
    } else if ss.last().len() == 0 {
        keep_nonempty(ss.drop_last())
    } else {
        keep_nonempty(ss.drop_last()).push(ss.last())
    }
}

/// A piece split at its first `=`: name and value.
pub open spec fn name_value(piece: Seq<u8>) -> (Seq<u8>, Seq<u8>) {
    let i = first_sep(piece, 61);
    if i < piece.len() {
        (piece.take(i), piece.skip(i + 1))
    } else {
        (piece, Seq::empty())
    }
}

/// `+` replaced by a space.
pub open spec fn plus_to_space(s: Seq<u8>) -> Seq<u8> {
    s.map(|i: int, b: u8| if b == 43 { 32u8 } else { b })
}

/// Whether a byte is a hexadecimal digit.
pub open spec fn is_hex_digit(b: u8) -> bool {
    (48 <= b <= 57) || (97 <= b <= 102) || (65 <= b <= 70)
}

/// The value of a hexadecimal digit.
pub open spec fn hex_val(b: u8) -> u8 {
    if 48 <= b <= 57 {
        (b - 48) as u8
    } else if 97 <= b <= 102 {
        (b - 87) as u8
    } else {
        (b - 55) as u8
    }
}

/// Percent-decoding: `%XX` with two hex digits yields one byte, an
/// ill-formed `%` stands for itself.
pub open spec fn pct_decode(s: Seq<u8>) -> Seq<u8>
    decreases s.len(),
{
    if s.len() == 0 {
        Seq::empty()
    } else if s[0] == 37 && s.len() >= 3 && is_hex_digit(s[1]) && is_hex_digit(s[2]) {
        seq![(16 * hex_val(s[1]) + hex_val(s[2])) as u8] + pct_decode(s.skip(3))
    } else {
        seq![s[0]] + pct_decode(s.skip(1))
    }
}

/// A decoded component: plus replacement, then percent-decoding.
pub open spec fn decode_comp(s: Seq<u8>) -> Seq<u8> {
    pct_decode(plus_to_space(s))
}

/// The decoded pairs of a raw query, in order.
pub open spec fn query_pairs(bytes: Seq<u8>) -> Seq<(Seq<u8>, Seq<u8>)> {
    keep_nonempty(split_sep(bytes, 38)).map(
        |i: int, p: Seq<u8>| (decode_comp(name_value(p).0), decode_comp(name_value(p).1)),
    )
}

/// Whether every decoded name and value is valid UTF-8.
pub open spec fn pairs_utf8(ps: Seq<(Seq<u8>, Seq<u8>)>) -> bool {
    forall|i: int|
        0 <= i < ps.len() ==> vstd::utf8::valid_utf8((#[trigger] ps[i]).0) && vstd::utf8::valid_utf8(
            ps[i].1,
        )
}

/// The pairs as character strings.
pub open spec fn pairs_chars(ps: Seq<(Seq<u8>, Seq<u8>)>) -> Seq<(Seq<char>, Seq<char>)> {
    ps.map(
        |i: int, p: (Seq<u8>, Seq<u8>)| (vstd::utf8::decode_utf8(p.0), vstd::utf8::decode_utf8(
            p.1,
        )),
    )
}

/// Splits a byte string on `sep`, keeping empty pieces.
#[verifier::loop_isolation(false)]
fn split_bytes(s: &[u8], sep: u8) -> (r: Vec<Vec<u8>>)
    ensures
        r@.map(|k: int, x: Vec<u8>| x@) == split_sep(s@, sep),
{
    let n = s.len();
    let mut r: Vec<Vec<u8>> = Vec::new();
    let mut cur: Vec<u8> = Vec::new();
    let mut start: usize = 0;
    let mut i: usize = 0;
    proof {
        assert(s@.skip(0) =~= s@);
        assert(r@.map(|k: int, x: Vec<u8>| x@) + seq![split_sep(s@.skip(0), sep)][0].take(0)
            =~= Seq::<Seq<u8>>::empty());
        assert(cur@ =~= s@.subrange(0, 0));
        assert(split_sep(s@, sep) =~= r@.map(|k: int, x: Vec<u8>| x@) + split_sep(
            s@.skip(0),
            sep,
        ));
    }
    while i < n
        invariant
            start <= i <= n,
            n == s@.len(),
            forall|j: int| start <= j < i ==> s@[j] != sep,
            cur@ =~= s@.subrange(start as int, i as int),
            split_sep(s@, sep) =~= r@.map(|k: int, x: Vec<u8>| x@) + split_sep(
                s@.skip(start as int),
                sep,
            ),
        decreases n - i,
    {
        if s[i] == sep {
            proof {
                let tail = s@.skip(start as int);
                assert forall|j: int| 0 <= j < i - start implies tail[j] != sep by {
                    assert(tail[j] == s@[start + j]);
                }
                assert(tail[i - start] == s@[i as int]);
                lemma_first_sep_is(tail, sep, i - start);
                assert(tail.take(i - start) =~= s@.subrange(start as int, i as int));
                assert(tail.skip(i - start + 1) =~= s@.skip(i + 1));
                assert(split_sep(tail, sep) == seq![s@.subrange(start as int, i as int)]
                    + split_sep(s@.skip(i + 1), sep));
                assert(r@.push(cur).map(|k: int, x: Vec<u8>| x@) =~= r@.map(
                    |k: int, x: Vec<u8>| x@,
                ).push(cur@));
            }
            r.push(cur);
            cur = Vec::new();
            start = i + 1;
            proof {
                assert(cur@ =~= s@.subrange(start as int, start as int));
            }
        } else {
            cur.push(s[i]);
            proof {
                assert(cur@ =~= s@.subrange(start as int, i + 1));
            }
        }
        i += 1;
    }
    proof {
        let tail = s@.skip(start as int);
        assert forall|j: int| 0 <= j < n - start implies tail[j] != sep by {
            assert(tail[j] == s@[start + j]);
        }
        lemma_first_sep_is(tail, sep, n - start);
        assert(split_sep(tail, sep) == seq![tail]);
        assert(cur@ =~= tail);
        assert(r@.push(cur).map(|k: int, x: Vec<u8>| x@) =~= r@.map(
            |k: int, x: Vec<u8>| x@,
        ).push(cur@));
    }
    r.push(cur);
    r
}

/// Decodes one component: plus replacement and percent-decoding.
#[verifier::loop_isolation(false)]
fn decode_component(s: &Vec<u8>) -> (r: Vec<u8>)
    ensures
        r@ == decode_comp(s@),
{
    let ghost ps = plus_to_space(s@);
    let n = s.len();
    let mut out: Vec<u8> = Vec::new();
    let mut i: usize = 0;
    proof {
        assert(ps.skip(0) =~= ps);
        assert(pct_decode(ps) =~= out@ + pct_decode(ps.skip(0)));
    }
    while i < n
        invariant
            i <= n,
            n == s@.len() == ps.len(),
            pct_decode(ps) =~= out@ + pct_decode(ps.skip(i as int)),
        decreases n - i,
    {
        let b = if s[i] == 43 {
            32u8
        } else {
            s[i]
        };
        proof {
            assert(b == ps[i as int]);
        }
        if b == 37 && n - i > 2 {
            let h1 = if s[i + 1] == 43 {
                32u8
            } else {
                s[i + 1]
            };
            let h2 = if s[i + 2] == 43 {
                32u8
            } else {
                s[i + 2]
            };
            proof {
                assert(h1 == ps[i + 1]);
                assert(h2 == ps[i + 2]);
            }
            let ok1 = (48 <= h1 && h1 <= 57) || (97 <= h1 && h1 <= 102) || (65 <= h1 && h1
                <= 70);
            let ok2 = (48 <= h2 && h2 <= 57) || (97 <= h2 && h2 <= 102) || (65 <= h2 && h2
                <= 70);
            if ok1 && ok2 {
                let v1 = if h1 <= 57 {
                    h1 - 48
                } else if h1 >= 97 {
                    h1 - 87
                } else {
                    h1 - 55
                };
                let v2 = if h2 <= 57 {
                    h2 - 48
                } else if h2 >= 97 {
                    h2 - 87
                } else {
                    h2 - 55
                };
                out.push(16 * v1 + v2);
                proof {
                    let tail = ps.skip(i as int);
                    assert(tail[0] == ps[i as int] && tail[1] == ps[i + 1] && tail[2] == ps[i
                        + 2]);
                    assert(pct_decode(tail) =~= seq![(16 * hex_val(ps[i + 1]) + hex_val(
                        ps[i + 2],
                    )) as u8] + pct_decode(tail.skip(3)));
                    assert(tail.skip(3) =~= ps.skip(i + 3));
                }
                i += 3;
                continue ;
            }
        }
        out.push(b);
        proof {
            let tail = ps.skip(i as int);
            assert(tail[0] == ps[i as int]);
            if tail[0] == 37 && tail.len() >= 3 && is_hex_digit(tail[1]) && is_hex_digit(
                tail[2],
            ) {
                assert(tail[1] == ps[i + 1] && tail[2] == ps[i + 2]);
                assert(i + 2 < n);
                assert(false);
            }
            assert(pct_decode(tail) =~= seq![ps[i as int]] + pct_decode(tail.skip(1)));
            assert(tail.skip(1) =~= ps.skip(i + 1));
        }
        i += 1;
    }
    proof {
        assert(ps.skip(n as int) =~= Seq::<u8>::empty());
        assert(pct_decode(ps.skip(n as int)) =~= Seq::<u8>::empty());
        assert(out@ =~= pct_decode(ps));
    }
    out
}

/// Decodes the query string into the canonical mapping, last value
/// winning per key.  Where every decoded name and value is well-formed
/// UTF-8 (in particular, always for ASCII queries) the mapping is
/// exactly the decoded pairs.
#[verifier::loop_isolation(false)]
pub fn parse_query(query: Option<&str>) -> (r: StringMap)
    ensures
        r.wf(),
        match query {
            None => r.entries().len() == 0,
            Some(q) => pairs_utf8(query_pairs(q.spec_bytes())) ==> forall|k: Seq<char>|
                #[trigger] r.spec_get(k) == lookup_last(
                    pairs_chars(query_pairs(q.spec_bytes())),
                    k,
                ),
        },
{
    let q = match query {
        Some(q) => q,
        None => {
            return StringMap::new();
        },
    };
    let ghost qp = query_pairs(q.spec_bytes());
    let pieces = split_bytes(q.as_bytes(), 38);
    let mut out = StringMap::new();
    let n = pieces.len();
    let mut i: usize = 0;
    let ghost pieces_v = pieces@.map(|k: int, x: Vec<u8>| x@);
    proof {
        assert(keep_nonempty(pieces_v.take(0)) =~= Seq::<Seq<u8>>::empty());
    }
    while i < n
        invariant
            i <= n,
            n == pieces@.len(),
            out.wf(),
            pieces_v == pieces@.map(|k: int, x: Vec<u8>| x@),
            pieces_v == split_sep(q.spec_bytes(), 38),
            pairs_utf8(qp) ==> forall|k: Seq<char>|
                #[trigger] out.spec_get(k) == lookup_last(
                    pairs_chars(
                        keep_nonempty(pieces_v.take(i as int)).map(
                            |x: int, p: Seq<u8>| (
                                decode_comp(name_value(p).0),
                                decode_comp(name_value(p).1),
                            ),
                        ),
                    ),
                    k,
                ),
        decreases n - i,
    {
        let ghost prefix = keep_nonempty(pieces_v.take(i as int)).map(
            |x: int, p: Seq<u8>| (decode_comp(name_value(p).0), decode_comp(name_value(p).1)),
        );
        proof {
            assert(pieces_v.take(i + 1).drop_last() =~= pieces_v.take(i as int));
            assert(pieces_v.take(i + 1).last() == pieces_v[i as int]);
            assert(pieces@[i as int]@ == pieces_v[i as int]);
        }
        if pieces[i].len() == 0 {
            proof {
                assert(keep_nonempty(pieces_v.take(i + 1)) =~= keep_nonempty(
                    pieces_v.take(i as int),
                ));
            }
            i += 1;
            continue ;
        }
        let piece = &pieces[i];
        let m = piece.len();
        // split the piece at its first `=`
        let mut e: usize = 0;
        while e < m && piece[e] != 61
            invariant
                e <= m,
                m == piece@.len(),
                forall|j: int| 0 <= j < e ==> piece@[j] != 61,
            decreases m - e,
        {
            e += 1;
        }
        proof {
            lemma_first_sep_is(piece@, 61, e as int);
        }
        let mut name: Vec<u8> = Vec::new();
        let mut x: usize = 0;
        while x < e
            invariant
                x <= e <= m,
                m == piece@.len(),
                name@ =~= piece@.take(e as int).take(x as int),
            decreases e - x,
        {
            name.push(piece[x]);
            proof {
                assert(name@ =~= piece@.take(e as int).take(x + 1));
            }
            x += 1;
        }
        let mut value: Vec<u8> = Vec::new();
        if e < m {
            let mut y: usize = e + 1;
            while y < m
                invariant
                    e + 1 <= y <= m,
                    m == piece@.len(),
                    value@ =~= piece@.skip(e + 1).take(y - e - 1),
                decreases m - y,
            {
                value.push(piece[y]);
                proof {
                    assert(value@ =~= piece@.skip(e + 1).take(y + 1 - e - 1));
                }
                y += 1;
            }
            proof {
                assert(piece@.skip(e + 1).take(m - e - 1) =~= piece@.skip(e + 1));
            }
        }
        proof {
            assert(name@ =~= name_value(piece@).0) by {
                if (e as int) < m {
                    assert(piece@.take(e as int).take(e as int) =~= piece@.take(e as int));
                } else {
                    assert(piece@.take(e as int).take(e as int) =~= piece@);
                }
            }
            assert(value@ =~= name_value(piece@).1);
        }
        let dk = decode_component(&name);
        let dv = decode_component(&value);
        let ks = utf8_lossy(&dk);
        let vs = utf8_lossy(&dv);
        let ghost pre = out;
        out.insert(ks, vs);
        proof {
            assert(keep_nonempty(pieces_v.take(i + 1)) =~= keep_nonempty(
                pieces_v.take(i as int),
            ).push(piece@));
            let np = prefix.push(
                (decode_comp(name_value(piece@).0), decode_comp(name_value(piece@).1)),
            );
            assert(keep_nonempty(pieces_v.take(i + 1)).map(
                |x: int, p: Seq<u8>| (decode_comp(name_value(p).0), decode_comp(name_value(p).1)),
            ) =~= np);
            if pairs_utf8(qp) {
                // this piece is one of the final pairs, so its bytes are valid
                let kn = keep_nonempty(pieces_v.take(i as int)).len() as int;
                lemma_keep_nonempty_prefix(pieces_v, i + 1);
                assert(keep_nonempty(pieces_v.take(i + 1)).len() == kn + 1);
                assert(kn + 1 <= keep_nonempty(pieces_v).len());
                assert(0 <= kn < qp.len());
                assert(keep_nonempty(pieces_v).take(kn + 1) =~= keep_nonempty(
                    pieces_v.take(i + 1),
                ));
                assert(keep_nonempty(pieces_v)[kn] == keep_nonempty(pieces_v.take(i + 1))[kn]);
                assert(keep_nonempty(pieces_v)[kn] == piece@);
                assert(qp[kn] == (
                    decode_comp(name_value(piece@).0),
                    decode_comp(name_value(piece@).1),
                ));
                assert(vstd::utf8::valid_utf8(qp[kn].0) && vstd::utf8::valid_utf8(qp[kn].1));
                assert(vstd::utf8::valid_utf8(dk@) && vstd::utf8::valid_utf8(dv@));
                assert(ks@ == vstd::utf8::decode_utf8(dk@));
                assert(vs@ == vstd::utf8::decode_utf8(dv@));
                let pc = pairs_chars(np);
                assert(pc.drop_last() =~= pairs_chars(prefix));
                assert(pc.last() == (ks@, vs@));
                assert forall|k: Seq<char>| #[trigger] out.spec_get(k) == lookup_last(pc, k) by {
                    if k == ks@ {
                        assert(out.spec_get(k) == Some(vs@));
                    } else {
                        assert(out.spec_get(k) == pre.spec_get(k));
                    }
                }
            }
        }
        i += 1;
    }
    proof {
        assert(pieces_v.take(n as int) =~= pieces_v);
    }
    out
}

/// A prefix of the pieces keeps a prefix of the non-empty pieces.
proof fn lemma_keep_nonempty_prefix(ss: Seq<Seq<u8>>, i: int)
    requires
        0 <= i <= ss.len(),
    ensures
        keep_nonempty(ss.take(i)).len() <= keep_nonempty(ss).len(),
        keep_nonempty(ss).take(keep_nonempty(ss.take(i)).len() as int) =~= keep_nonempty(
            ss.take(i),
        ),
    decreases ss.len() - i,
{
    if i == ss.len() {
        assert(ss.take(i) =~= ss);
    } else {
        lemma_keep_nonempty_prefix(ss, i + 1);
        assert(ss.take(i + 1).drop_last() =~= ss.take(i));
        assert(ss.take(i + 1).last() == ss[i]);
        if ss[i].len() == 0 {
            assert(keep_nonempty(ss.take(i + 1)) =~= keep_nonempty(ss.take(i)));
        } else {
            assert(keep_nonempty(ss.take(i + 1)) =~= keep_nonempty(ss.take(i)).push(ss[i]));
            assert(keep_nonempty(ss).take(keep_nonempty(ss.take(i)).len() as int)
                =~= keep_nonempty(ss.take(i + 1)).take(keep_nonempty(ss.take(i)).len() as int));
        }
    }
}

} // verus!
