//! Route templates: parsing, matching and tie-break priority.
//!
//! A template is a sequence of path segments.  A literal segment matches
//! verbatim, `{name}` matches exactly one non-empty segment and binds it,
//! and a trailing `{*name}` matches the non-empty remainder of the path,
//! separators included.  Among overlapping candidates a literal segment
//! takes priority over a named parameter, and a named parameter over a
//! catch-all, decided at the first position where the templates differ.

use vstd::prelude::*;
use vstd::string::*;

verus! {

/// One segment of a parsed route template.
#[derive(Debug)]
pub enum Segment {
    Literal(String),
    Param(String),
    CatchAll(String),
}

/// The mathematical shape of a segment.
pub enum SegModel {
    Literal(Seq<char>),
    Param(Seq<char>),
    CatchAll(Seq<char>),
}

impl View for Segment {
    type V = SegModel;

    open spec fn view(&self) -> SegModel {
        match self {
            Segment::Literal(s) => SegModel::Literal(s@),
            Segment::Param(s) => SegModel::Param(s@),
            Segment::CatchAll(s) => SegModel::CatchAll(s@),
        }
    }
}

/// The shared handle to a matched capability, opaque to the router.
#[derive(Debug, Clone, Copy, PartialEq, Eq, Structural)]
pub struct RouteHandler {
    pub handler: usize,
}

/// One route as handed to registry construction: consumed once, not
/// retained afterward.
#[derive(Debug)]
pub struct RouteDefinition {
    pub method: String,
    pub path: String,
    pub handler: usize,
}

/// The segments of a template vector, as shapes.
pub open spec fn segs_view(v: Seq<Segment>) -> Seq<SegModel> {
    v.map(|i: int, s: Segment| s@)
}

/// Index of the first `/` in `s`, or `s.len()` if there is none.
pub open spec fn first_slash(s: Seq<char>) -> int
    decreases s.len(),
{
    if s.len() == 0 {
        0
    } else if s[0] == '/' {
        0
    } else {
        1 + first_slash(s.drop_first())
    }
}

pub proof fn lemma_first_slash(s: Seq<char>)
    ensures
        0 <= first_slash(s) <= s.len(),
        first_slash(s) < s.len() ==> s[first_slash(s)] == '/',
        forall|j: int| 0 <= j < first_slash(s) ==> s[j] != '/',
    decreases s.len(),
{
    if s.len() > 0 && s[0] != '/' {
        lemma_first_slash(s.drop_first());
        assert forall|j: int| 0 <= j < first_slash(s) implies s[j] != '/' by {
            if j > 0 {
                assert(s.drop_first()[j - 1] == s[j]);
            }
        }
    }
}

pub proof fn lemma_first_slash_is(s: Seq<char>, k: int)
    requires
        0 <= k <= s.len(),
        forall|j: int| 0 <= j < k ==> s[j] != '/',
        k < s.len() ==> s[k] == '/',
    ensures
        first_slash(s) == k,
    decreases s.len(),
{
    if s.len() > 0 && s[0] != '/' {
        assert(k > 0);
        lemma_first_slash_is(s.drop_first(), k - 1);
    }
}

/// `s` split on `/`; the separators are dropped, empty segments kept.
pub open spec fn split_slash(s: Seq<char>) -> Seq<Seq<char>>
    decreases s.len(),
{
    let i = first_slash(s);
    if 0 <= i < s.len() {
        seq![s.take(i)] + split_slash(s.skip(i + 1))
    } else {
        seq![s]
    }
}

/// Segments joined with `/` between them.
pub open spec fn join_slash(ss: Seq<Seq<char>>) -> Seq<char>
    decreases ss.len(),
{
    if ss.len() == 0 {
        Seq::empty()
    } else if ss.len() == 1 {
        ss[0]
    } else {
        ss[0] + seq!['/'] + join_slash(ss.drop_first())
    }
}

pub proof fn lemma_join_push(ss: Seq<Seq<char>>, x: Seq<char>)
    ensures
        ss.len() == 0 ==> join_slash(ss.push(x)) == x,
        ss.len() > 0 ==> join_slash(ss.push(x)) =~= join_slash(ss) + seq!['/'] + x,
    decreases ss.len(),
{
    if ss.len() == 0 {
        assert(ss.push(x)[0] == x);
        assert(join_slash(ss.push(x)) == x);
    } else if ss.len() == 1 {
        assert(ss.push(x).drop_first() =~= seq![x]);
        assert(join_slash(seq![x]) == x);
        assert(join_slash(ss.push(x)) =~= ss[0] + seq!['/'] + x);
    } else {
        lemma_join_push(ss.drop_first(), x);
        assert(ss.push(x).drop_first() =~= ss.drop_first().push(x));
        assert(join_slash(ss.push(x)) =~= ss[0] + seq!['/'] + join_slash(ss.drop_first().push(x)));
    }
}

pub proof fn lemma_split_nonempty(s: Seq<char>)
    ensures
        split_slash(s).len() >= 1,
    decreases s.len(),
{
    let i = first_slash(s);
    lemma_first_slash(s);
    if 0 <= i < s.len() {
        lemma_split_nonempty(s.skip(i + 1));
    }
}

/// The path split into segments: everything after the leading `/`.
pub open spec fn raw_segs(p: Seq<char>) -> Seq<Seq<char>> {
    split_slash(p).drop_first()
}

pub proof fn lemma_raw_segs(p: Seq<char>)
    requires
        p.len() > 0,
        p[0] == '/',
    ensures
        raw_segs(p) == split_slash(p.skip(1)),
{
    assert(first_slash(p) == 0);
    assert(split_slash(p) == seq![p.take(0)] + split_slash(p.skip(1)));
    assert((seq![p.take(0)] + split_slash(p.skip(1))).drop_first() =~= split_slash(p.skip(1)));
}

/// The segments of a request path, or `None` if the path has no leading `/`.
pub open spec fn path_model(p: Seq<char>) -> Option<Seq<Seq<char>>> {
    if p.len() > 0 && p[0] == '/' {
        Some(raw_segs(p))
    } else {
        None
    }
}

/// A usable parameter name: non-empty, free of the template metacharacters.
pub open spec fn valid_name(n: Seq<char>) -> bool {
    n.len() > 0 && forall|i: int|
        0 <= i < n.len() ==> n[i] != '{' && n[i] != '}' && n[i] != '*'
}

/// What a raw template segment denotes, or `None` if it is malformed.
pub open spec fn classify_seg(cs: Seq<char>, is_last: bool) -> Option<SegModel> {
    if forall|i: int| 0 <= i < cs.len() ==> cs[i] != '{' && cs[i] != '}' {
        Some(SegModel::Literal(cs))
    } else if cs.len() >= 2 && cs[0] == '{' && cs[cs.len() - 1] == '}' {
        let inner = cs.subrange(1, cs.len() - 1);
        if inner.len() > 0 && inner[0] == '*' {
            if is_last && valid_name(inner.drop_first()) {
                Some(SegModel::CatchAll(inner.drop_first()))
            } else {
                None
            }
        } else if valid_name(inner) {
            Some(SegModel::Param(inner))
        } else {
            None
        }
    } else {
        None
    }
}

/// The name a segment binds, if any.
pub open spec fn name_of(m: SegModel) -> Option<Seq<char>> {
    match m {
        SegModel::Literal(_) => None,
        SegModel::Param(n) => Some(n),
        SegModel::CatchAll(n) => Some(n),
    }
}

/// No two segments of the template bind the same name.
pub open spec fn distinct_names(t: Seq<SegModel>) -> bool {
    forall|i: int, j: int|
        0 <= i < j < t.len() ==> !(name_of(#[trigger] t[i]) is Some && name_of(
            #[trigger] t[j],
        ) is Some && name_of(t[i]) == name_of(t[j]))
}

/// The template a path string denotes, or `None` if it is not a valid
/// template: it must begin with `/`, every segment must be well-formed,
/// a catch-all may stand only at the end, and bound names are distinct.
pub open spec fn template_model(p: Seq<char>) -> Option<Seq<SegModel>> {
    if p.len() == 0 || p[0] != '/' {
        None
    } else {
        let raw = raw_segs(p);
        if forall|i: int|
            0 <= i < raw.len() ==> classify_seg(#[trigger] raw[i], i == raw.len() - 1) is Some {
            let t = Seq::new(raw.len(), |i: int| classify_seg(raw[i], i == raw.len() - 1).unwrap());
            if distinct_names(t) {
                Some(t)
            } else {
                None
            }
        } else {
            None
        }
    }
}

/// A template shape the matcher can rely on: non-empty, catch-all only in
/// the last position, distinct names.
pub open spec fn wf_template(t: Seq<SegModel>) -> bool {
    &&& t.len() > 0
    &&& forall|i: int| 0 <= i < t.len() - 1 ==> !((#[trigger] t[i]) is CatchAll)
    &&& distinct_names(t)
}

pub proof fn lemma_template_model_wf(p: Seq<char>)
    requires
        template_model(p) is Some,
    ensures
        wf_template(template_model(p).unwrap()),
{
    let raw = raw_segs(p);
    let t = template_model(p).unwrap();
    assert(first_slash(p) == 0);
    lemma_split_nonempty(p.skip(1));
    assert(split_slash(p) == seq![p.take(0)] + split_slash(p.skip(1)));
    assert(split_slash(p).len() >= 2);
    assert(t.len() == raw.len());
    assert forall|i: int| 0 <= i < t.len() - 1 implies !((#[trigger] t[i]) is CatchAll) by {
        assert(classify_seg(raw[i], i == raw.len() - 1) is Some);
    }
}

/// Whether one segment of the template accepts one segment of the path.
pub open spec fn seg_matches(m: SegModel, ps: Seq<char>) -> bool {
    match m {
        SegModel::Literal(l) => ps == l,
        SegModel::Param(_) => ps.len() > 0,
        SegModel::CatchAll(_) => true,
    }
}

/// Whether the template accepts the path segments.
pub open spec fn template_matches(t: Seq<SegModel>, segs: Seq<Seq<char>>) -> bool {
    if t.len() == 0 {
        false
    } else if t.last() is CatchAll {
        &&& segs.len() >= t.len()
        &&& (forall|i: int| 0 <= i < t.len() - 1 ==> seg_matches(#[trigger] t[i], segs[i]))
        &&& join_slash(segs.skip(t.len() - 1)).len() > 0
    } else {
        &&& segs.len() == t.len()
        &&& (forall|i: int| 0 <= i < t.len() ==> seg_matches(#[trigger] t[i], segs[i]))
    }
}

/// The value a matching template binds to `name` on these path segments.
pub open spec fn binding_of(t: Seq<SegModel>, segs: Seq<Seq<char>>, i: int) -> Seq<char> {
    if t[i] is CatchAll {
        join_slash(segs.skip(t.len() - 1))
    } else {
        segs[i]
    }
}

/// Tie-break rank of a segment: lower matches first.
pub open spec fn seg_rank(m: SegModel) -> int {
    match m {
        SegModel::Literal(_) => 0,
        SegModel::Param(_) => 1,
        SegModel::CatchAll(_) => 2,
    }
}

/// Whether two segments have the same shape (parameter names ignored).
pub open spec fn shape_eq(a: SegModel, b: SegModel) -> bool {
    match (a, b) {
        (SegModel::Literal(x), SegModel::Literal(y)) => x == y,
        (SegModel::Param(_), SegModel::Param(_)) => true,
        (SegModel::CatchAll(_), SegModel::CatchAll(_)) => true,
        _ => false,
    }
}

/// Two templates are ambiguous when their shapes agree everywhere.
pub open spec fn same_shape(a: Seq<SegModel>, b: Seq<SegModel>) -> bool {
    a.len() == b.len() && forall|i: int| 0 <= i < a.len() ==> shape_eq(#[trigger] a[i], b[i])
}

/// Strict priority: `a` wins over `b` at the first position where their
/// shapes differ.
pub open spec fn beats(a: Seq<SegModel>, b: Seq<SegModel>) -> bool
    decreases a.len(),
{
    if a.len() == 0 || b.len() == 0 {
        false
    } else if shape_eq(a[0], b[0]) {
        beats(a.drop_first(), b.drop_first())
    } else {
        seg_rank(a[0]) < seg_rank(b[0])
    }
}

pub proof fn lemma_beats_asymmetric(a: Seq<SegModel>, b: Seq<SegModel>)
    ensures
        !(beats(a, b) && beats(b, a)),
    decreases a.len(),
{
    if a.len() > 0 && b.len() > 0 && shape_eq(a[0], b[0]) {
        lemma_beats_asymmetric(a.drop_first(), b.drop_first());
    }
}

pub proof fn lemma_beats_transitive(a: Seq<SegModel>, b: Seq<SegModel>, c: Seq<SegModel>)
    requires
        beats(a, b),
        beats(b, c),
    ensures
        beats(a, c),
    decreases a.len(),
{
    if shape_eq(a[0], b[0]) && shape_eq(b[0], c[0]) {
        lemma_beats_transitive(a.drop_first(), b.drop_first(), c.drop_first());
    }
}

/// Among well-formed templates of different shapes that both accept the
/// same path, the tie-break order always decides.
pub proof fn lemma_match_total(a: Seq<SegModel>, b: Seq<SegModel>, segs: Seq<Seq<char>>)
    requires
        wf_template(a),
        wf_template(b),
        template_matches(a, segs),
        template_matches(b, segs),
        !same_shape(a, b),
    ensures
        beats(a, b) || beats(b, a),
    decreases a.len(),
{
    if shape_eq(a[0], b[0]) {
        if a[0] is CatchAll {
            // catch-all stands last, so both templates are a lone catch-all
            // and their shapes agree
            assert(a.len() == 1 && b.len() == 1);
            assert(false);
        } else if a.len() == 1 {
            // `a` consumes the whole path, so `b` must be longer, and then
            // it cannot accept the same single segment
            if b.len() == 1 {
                assert(same_shape(a, b));
                assert(false);
            } else {
                assert(segs.len() == 1);
                if b.last() is CatchAll {
                    assert(segs.len() >= b.len() >= 2);
                } else {
                    assert(segs.len() == b.len());
                }
                assert(false);
            }
        } else if b.len() == 1 {
            assert(segs.len() == 1);
            if a.last() is CatchAll {
                assert(segs.len() >= a.len() >= 2);
            } else {
                assert(segs.len() == a.len());
            }
            assert(false);
        } else {
            let a2 = a.drop_first();
            let b2 = b.drop_first();
            let s2 = segs.drop_first();
            assert(wf_template(a2)) by {
                assert forall|i: int| 0 <= i < a2.len() - 1 implies !(
                (#[trigger] a2[i]) is CatchAll) by {
                    assert(a2[i] == a[i + 1]);
                }
                assert forall|i: int, j: int|
                    0 <= i < j < a2.len() implies !(name_of(#[trigger] a2[i]) is Some && name_of(
                    #[trigger] a2[j],
                ) is Some && name_of(a2[i]) == name_of(a2[j])) by {
                    assert(a2[i] == a[i + 1] && a2[j] == a[j + 1]);
                }
            }
            assert(wf_template(b2)) by {
                assert forall|i: int| 0 <= i < b2.len() - 1 implies !(
                (#[trigger] b2[i]) is CatchAll) by {
                    assert(b2[i] == b[i + 1]);
                }
                assert forall|i: int, j: int|
                    0 <= i < j < b2.len() implies !(name_of(#[trigger] b2[i]) is Some && name_of(
                    #[trigger] b2[j],
                ) is Some && name_of(b2[i]) == name_of(b2[j])) by {
                    assert(b2[i] == b[i + 1] && b2[j] == b[j + 1]);
                }
            }
            assert(template_matches(a2, s2)) by {
                lemma_tail_matches(a, segs);
            }
            assert(template_matches(b2, s2)) by {
                lemma_tail_matches(b, segs);
            }
            assert(!same_shape(a2, b2)) by {
                if same_shape(a2, b2) {
                    assert forall|i: int| 0 <= i < a.len() implies shape_eq(
                        #[trigger] a[i],
                        b[i],
                    ) by {
                        if i > 0 {
                            assert(shape_eq(a2[i - 1], b2[i - 1]));
                            assert(a2[i - 1] == a[i] && b2[i - 1] == b[i]);
                        }
                    }
                    assert(same_shape(a, b));
                }
            }
            lemma_match_total(a2, b2, s2);
        }
    } else {
        if seg_rank(a[0]) == seg_rank(b[0]) {
            // same rank without shape equality: two different literals,
            // which cannot both accept the first path segment
            assert(segs.len() > 0);
            assert(seg_matches(a[0], segs[0]));
            assert(seg_matches(b[0], segs[0]));
            assert(false);
        }
    }
}

/// A matching template with more than one segment still matches after its
/// first segment and the first path segment are dropped.
pub proof fn lemma_tail_matches(t: Seq<SegModel>, segs: Seq<Seq<char>>)
    requires
        wf_template(t),
        t.len() > 1,
        template_matches(t, segs),
    ensures
        template_matches(t.drop_first(), segs.drop_first()),
{
    let t2 = t.drop_first();
    let s2 = segs.drop_first();
    assert(t2.last() == t.last());
    if t.last() is CatchAll {
        assert forall|i: int| 0 <= i < t2.len() - 1 implies seg_matches(
            #[trigger] t2[i],
            s2[i],
        ) by {
            assert(t2[i] == t[i + 1] && s2[i] == segs[i + 1]);
            assert(seg_matches(t[i + 1], segs[i + 1]));
        }
        assert(s2.skip(t2.len() - 1) =~= segs.skip(t.len() - 1));
    } else {
        assert forall|i: int| 0 <= i < t2.len() implies seg_matches(#[trigger] t2[i], s2[i]) by {
            assert(t2[i] == t[i + 1] && s2[i] == segs[i + 1]);
            assert(seg_matches(t[i + 1], segs[i + 1]));
        }
    }
}

/// The views of a vector of strings.
pub open spec fn str_views(v: Seq<String>) -> Seq<Seq<char>> {
    v.map(|i: int, s: String| s@)
}

/// Splits a string on `/`, keeping empty segments.
#[verifier::loop_isolation(false)]
pub fn split_path(s: &str) -> (r: Vec<String>)
    ensures
        str_views(r@) == split_slash(s@),
{
    let n = s.unicode_len();
    let mut r: Vec<String> = Vec::new();
    let mut start: usize = 0;
    let mut i: usize = 0;
    proof {
        assert(s@.skip(0) =~= s@);
        assert(str_views(r@) + split_slash(s@.skip(0)) =~= split_slash(s@));
    }
    while i < n
        invariant
            start <= i <= n,
            n == s@.len(),
            forall|j: int| start <= j < i ==> s@[j] != '/',
            split_slash(s@) =~= str_views(r@) + split_slash(s@.skip(start as int)),
        decreases n - i,
    {
        if s.get_char(i) == '/' {
            let piece = s.substring_char(start, i).to_owned();
            proof {
                let tail = s@.skip(start as int);
                assert forall|j: int| 0 <= j < i - start implies tail[j] != '/' by {
                    assert(tail[j] == s@[start + j]);
                }
                assert(tail[i - start] == s@[i as int]);
                lemma_first_slash_is(tail, i - start);
                assert(tail.take(i - start) =~= s@.subrange(start as int, i as int));
                assert(tail.skip(i - start + 1) =~= s@.skip(i + 1));
                assert(split_slash(tail) == seq![s@.subrange(start as int, i as int)]
                    + split_slash(s@.skip(i + 1)));
                assert(str_views(r@.push(piece)) =~= str_views(r@).push(piece@));
            }
            r.push(piece);
            start = i + 1;
        }
        i += 1;
    }
    let piece = s.substring_char(start, n).to_owned();
    proof {
        let tail = s@.skip(start as int);
        assert forall|j: int| 0 <= j < n - start implies tail[j] != '/' by {
            assert(tail[j] == s@[start + j]);
        }
        lemma_first_slash_is(tail, n - start);
        assert(split_slash(tail) == seq![tail]);
        assert(piece@ =~= tail);
        assert(str_views(r@.push(piece)) =~= str_views(r@).push(piece@));
    }
    r.push(piece);
    r
}

/// Whether `s` is a usable parameter name.
#[verifier::loop_isolation(false)]
fn name_ok(s: &str) -> (r: bool)
    ensures
        r == valid_name(s@),
{
    let n = s.unicode_len();
    if n == 0 {
        return false;
    }
    let mut i: usize = 0;
    while i < n
        invariant
            i <= n,
            n == s@.len(),
            forall|j: int| 0 <= j < i ==> s@[j] != '{' && s@[j] != '}' && s@[j] != '*',
        decreases n - i,
    {
        let c = s.get_char(i);
        if c == '{' || c == '}' || c == '*' {
            return false;
        }
        i += 1;
    }
    true
}

/// Parses one raw template segment.
#[verifier::loop_isolation(false)]
fn classify_segment(cs: &String, is_last: bool) -> (r: Option<Segment>)
    ensures
        match r {
            Some(s) => classify_seg(cs@, is_last) == Some(s@),
            None => classify_seg(cs@, is_last) is None,
        },
{
    let n = cs.as_str().unicode_len();
    let mut i: usize = 0;
    let mut brace = false;
    while i < n
        invariant
            i <= n,
            n == cs@.len(),
            brace <==> exists|j: int| 0 <= j < i && (cs@[j] == '{' || cs@[j] == '}'),
        decreases n - i,
    {
        let c = cs.as_str().get_char(i);
        if c == '{' || c == '}' {
            brace = true;
        }
        i += 1;
    }
    if !brace {
        return Some(Segment::Literal(cs.clone()));
    }
    if n < 2 || cs.as_str().get_char(0) != '{' || cs.as_str().get_char(n - 1) != '}' {
        return None;
    }
    let inner = cs.as_str().substring_char(1, n - 1);
    proof {
        assert(inner@ == cs@.subrange(1, n - 1));
    }
    let il = inner.unicode_len();
    if il > 0 && inner.get_char(0) == '*' {
        if !is_last {
            return None;
        }
        let name = inner.substring_char(1, il);
        proof {
            assert(name@ =~= cs@.subrange(1, n - 1).drop_first());
        }
        if name_ok(name) {
            Some(Segment::CatchAll(name.to_owned()))
        } else {
            None
        }
    } else {
        if name_ok(inner) {
            Some(Segment::Param(inner.to_owned()))
        } else {
            None
        }
    }
}

/// The name a segment binds, if any.
fn seg_name(seg: &Segment) -> (r: Option<&String>)
    ensures
        match r {
            Some(n) => name_of(seg@) == Some(n@),
            None => name_of(seg@) is None,
        },
{
    match seg {
        Segment::Literal(_) => None,
        Segment::Param(n) => Some(n),
        Segment::CatchAll(n) => Some(n),
    }
}

/// Parses a whole route template, or returns `None` where the template
/// is not valid.
#[verifier::loop_isolation(false)]
pub fn parse_template(path: &str) -> (r: Option<Vec<Segment>>)
    ensures
        match r {
            Some(v) => template_model(path@) == Some(segs_view(v@)),
            None => template_model(path@) is None,
        },
{
    let n = path.unicode_len();
    if n == 0 || path.get_char(0) != '/' {
        return None;
    }
    let rest = path.substring_char(1, n);
    proof {
        lemma_raw_segs(path@);
        assert(rest@ =~= path@.skip(1));
    }
    let raw = split_path(rest);
    let m = raw.len();
    proof {
        assert(str_views(raw@) == raw_segs(path@));
        lemma_split_nonempty(path@.skip(1));
    }
    let mut segs: Vec<Segment> = Vec::new();
    let mut k: usize = 0;
    while k < m
        invariant
            k <= m,
            segs@.len() == k,
            m == raw@.len(),
            str_views(raw@) == raw_segs(path@),
            forall|j: int|
                0 <= j < k ==> classify_seg(raw_segs(path@)[j], j == m - 1) == Some(
                    (#[trigger] segs@[j])@,
                ),
        decreases m - k,
    {
        proof {
            assert(raw@[k as int]@ == raw_segs(path@)[k as int]);
        }
        match classify_segment(&raw[k], k == m - 1) {
            Some(s) => segs.push(s),
            None => {
                proof {
                    assert(classify_seg(raw_segs(path@)[k as int], k as int == m - 1) is None);
                }
                return None;
            },
        }
        k += 1;
    }
    let ghost rawv = raw_segs(path@);
    let ghost t = segs_view(segs@);
    proof {
        assert(m == rawv.len());
        assert forall|i: int|
            0 <= i < rawv.len() implies classify_seg(#[trigger] rawv[i], i == rawv.len() - 1) is Some by {
            assert(classify_seg(rawv[i], i == rawv.len() - 1) == Some(segs@[i]@));
        }
        assert(t =~= Seq::new(rawv.len(), |i: int| classify_seg(rawv[i], i == rawv.len() - 1).unwrap())) by {
            assert forall|i: int| 0 <= i < rawv.len() implies t[i] == classify_seg(
                rawv[i],
                i == rawv.len() - 1,
            ).unwrap() by {
                assert(classify_seg(rawv[i], i == rawv.len() - 1) == Some(segs@[i]@));
            }
        }
    }
    if !names_distinct(&segs) {
        proof {
            assert(template_model(path@) is None);
        }
        return None;
    }
    proof {
        assert(template_model(path@) == Some(t));
    }
    Some(segs)
}

/// Whether the names bound by the segments are pairwise distinct.
#[verifier::loop_isolation(false)]
fn names_distinct(segs: &Vec<Segment>) -> (r: bool)
    ensures
        r == distinct_names(segs_view(segs@)),
{
    let ghost t = segs_view(segs@);
    let m = segs.len();
    let mut i: usize = 0;
    while i < m
        invariant
            i <= m,
            forall|a: int, b: int|
                0 <= a < b < t.len() && a < i ==> !(name_of(#[trigger] t[a]) is Some && name_of(
                    #[trigger] t[b],
                ) is Some && name_of(t[a]) == name_of(t[b])),
        decreases m - i,
    {
        let mut j: usize = i + 1;
        while j < m
            invariant
                i < j <= m,
                forall|b: int|
                    i < b < j ==> !(name_of(#[trigger] t[i as int]) is Some && name_of(
                        #[trigger] t[b],
                    ) is Some && name_of(t[i as int]) == name_of(t[b])),
            decreases m - j,
        {
            proof {
                assert(t[i as int] == segs@[i as int]@);
                assert(t[j as int] == segs@[j as int]@);
            }
            let ni = seg_name(&segs[i]);
            let nj = seg_name(&segs[j]);
            if let (Some(a), Some(b)) = (ni, nj) {
                if *a == *b {
                    proof {
                        assert(name_of(t[i as int]) == name_of(t[j as int]));
                        assert(!distinct_names(t));
                    }
                    return false;
                }
            }
            j += 1;
        }
        i += 1;
    }
    true
}

/// Whether one template segment accepts one path segment.
fn seg_match_one(seg: &Segment, ps: &String) -> (r: bool)
    ensures
        r == seg_matches(seg@, ps@),
{
    match seg {
        Segment::Literal(l) => *l == *ps,
        Segment::Param(_) => !ps.as_str().is_empty(),
        Segment::CatchAll(_) => true,
    }
}

/// Whether a template accepts the given path segments.
#[verifier::loop_isolation(false)]
pub fn route_matches(t: &Vec<Segment>, segs: &Vec<String>) -> (r: bool)
    ensures
        r == template_matches(segs_view(t@), str_views(segs@)),
{
    let n = t.len();
    if n == 0 {
        return false;
    }
    let is_catch = match &t[n - 1] {
        Segment::CatchAll(_) => true,
        _ => false,
    };
    proof {
        assert(segs_view(t@)[n - 1] == t@[n - 1]@);
        assert(is_catch == (segs_view(t@).last() is CatchAll));
    }
    if is_catch {
        if segs.len() < n {
            return false;
        }
        let mut i: usize = 0;
        while i < n - 1
            invariant
                i <= n - 1,
                n == t@.len(),
                segs@.len() >= n,
                forall|j: int| 0 <= j < i ==> seg_matches(segs_view(t@)[j], str_views(segs@)[j]),
            decreases n - 1 - i,
        {
            proof {
                assert(segs_view(t@)[i as int] == t@[i as int]@);
                assert(str_views(segs@)[i as int] == segs@[i as int]@);
            }
            if !seg_match_one(&t[i], &segs[i]) {
                return false;
            }
            i += 1;
        }
        if segs.len() == n {
            let nonempty = !segs[n - 1].as_str().is_empty();
            proof {
                assert(str_views(segs@).skip(n - 1) =~= seq![segs@[n - 1]@]);
                assert(join_slash(seq![segs@[n - 1]@]) == segs@[n - 1]@);
            }
            nonempty
        } else {
            proof {
                let rest = str_views(segs@).skip(n - 1);
                assert(rest.len() >= 2);
                assert(join_slash(rest) == rest[0] + seq!['/'] + join_slash(rest.drop_first()));
            }
            true
        }
    } else {
        if segs.len() != n {
            return false;
        }
        let mut i: usize = 0;
        while i < n
            invariant
                i <= n,
                n == t@.len(),
                segs@.len() == n,
                forall|j: int| 0 <= j < i ==> seg_matches(segs_view(t@)[j], str_views(segs@)[j]),
            decreases n - i,
        {
            proof {
                assert(segs_view(t@)[i as int] == t@[i as int]@);
                assert(str_views(segs@)[i as int] == segs@[i as int]@);
            }
            if !seg_match_one(&t[i], &segs[i]) {
                return false;
            }
            i += 1;
        }
        true
    }
}

/// Whether two segments have the same shape.
fn shape_eq_exec(a: &Segment, b: &Segment) -> (r: bool)
    ensures
        r == shape_eq(a@, b@),
{
    match (a, b) {
        (Segment::Literal(x), Segment::Literal(y)) => *x == *y,
        (Segment::Param(_), Segment::Param(_)) => true,
        (Segment::CatchAll(_), Segment::CatchAll(_)) => true,
        _ => false,
    }
}

/// Tie-break rank of a segment.
fn seg_rank_exec(s: &Segment) -> (r: u8)
    ensures
        r as int == seg_rank(s@),
{
    match s {
        Segment::Literal(_) => 0,
        Segment::Param(_) => 1,
        Segment::CatchAll(_) => 2,
    }
}

/// Whether template `a` wins the tie-break against template `b`.
#[verifier::loop_isolation(false)]
pub fn beats_exec(a: &Vec<Segment>, b: &Vec<Segment>) -> (r: bool)
    ensures
        r == beats(segs_view(a@), segs_view(b@)),
{
    let mut i: usize = 0;
    proof {
        assert(segs_view(a@).skip(0) =~= segs_view(a@));
        assert(segs_view(b@).skip(0) =~= segs_view(b@));
    }
    while i < a.len() && i < b.len()
        invariant
            i <= a.len(),
            i <= b.len(),
            beats(segs_view(a@), segs_view(b@)) == beats(
                segs_view(a@).skip(i as int),
                segs_view(b@).skip(i as int),
            ),
        decreases a.len() - i,
    {
        let ghost va = segs_view(a@).skip(i as int);
        let ghost vb = segs_view(b@).skip(i as int);
        proof {
            assert(va[0] == segs_view(a@)[i as int]);
            assert(vb[0] == segs_view(b@)[i as int]);
        }
        if shape_eq_exec(&a[i], &b[i]) {
            proof {
                assert(va.drop_first() =~= segs_view(a@).skip(i + 1));
                assert(vb.drop_first() =~= segs_view(b@).skip(i + 1));
            }
            i += 1;
        } else {
            let ra = seg_rank_exec(&a[i]);
            let rb = seg_rank_exec(&b[i]);
            return ra < rb;
        }
    }
    proof {
        assert(segs_view(a@).skip(i as int).len() == 0 || segs_view(b@).skip(i as int).len()
            == 0);
    }
    false
}

/// Whether two templates are ambiguous: the same shape everywhere.
#[verifier::loop_isolation(false)]
pub fn same_shape_exec(a: &Vec<Segment>, b: &Vec<Segment>) -> (r: bool)
    ensures
        r == same_shape(segs_view(a@), segs_view(b@)),
{
    if a.len() != b.len() {
        return false;
    }
    let n = a.len();
    let mut i: usize = 0;
    while i < n
        invariant
            i <= n,
            n == a@.len() == b@.len(),
            forall|j: int| 0 <= j < i ==> shape_eq(#[trigger] segs_view(a@)[j], segs_view(b@)[j]),
        decreases n - i,
    {
        proof {
            assert(segs_view(a@)[i as int] == a@[i as int]@);
            assert(segs_view(b@)[i as int] == b@[i as int]@);
        }
        if !shape_eq_exec(&a[i], &b[i]) {
            return false;
        }
        i += 1;
    }
    true
}

/// Joins the path segments from position `k` on, separated by `/`.
#[verifier::loop_isolation(false)]
pub fn join_from(segs: &Vec<String>, k: usize) -> (r: String)
    requires
        k < segs@.len(),
    ensures
        r@ == join_slash(str_views(segs@).skip(k as int)),
{
    let n = segs.len();
    let mut r = segs[k].clone();
    proof {
        assert(str_views(segs@).subrange(k as int, k + 1) =~= seq![segs@[k as int]@]);
    }
    let mut i: usize = k + 1;
    while i < n
        invariant
            k < i <= segs@.len(),
            r@ == join_slash(str_views(segs@).subrange(k as int, i as int)),
        decreases segs@.len() - i,
    {
        r.append("/");
        r.append(segs[i].as_str());
        proof {
            reveal_strlit("/");
            assert("/"@ =~= seq!['/']);
            let pre = str_views(segs@).subrange(k as int, i as int);
            lemma_join_push(pre, segs@[i as int]@);
            assert(pre.push(segs@[i as int]@) =~= str_views(segs@).subrange(k as int, i + 1));
        }
        i += 1;
    }
    proof {
        assert(str_views(segs@).subrange(k as int, segs@.len() as int) =~= str_views(
            segs@,
        ).skip(k as int));
    }
    r
}

} // verus!
