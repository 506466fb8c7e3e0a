//! The route registry: one independently built route table per HTTP
//! method, built once at startup and read-only thereafter.

use vstd::prelude::*;
use vstd::string::*;
use crate::errors::core_error::CoreError;
use crate::routing::params::LookupResult;
use crate::routing::radix::{
    beats, beats_exec, binding_of, join_from, lemma_beats_transitive, lemma_match_total,
    lemma_template_model_wf, name_of, parse_template, path_model, route_matches, same_shape,
    same_shape_exec, segs_view, split_path, str_views, template_matches, template_model,
    wf_template, RouteDefinition, RouteHandler, SegModel, Segment,
};
use crate::strmap::StringMap;
use crate::strutil::push_char;

verus! {

/// One registered route of a per-method table.
#[derive(Debug)]
pub struct Route {
    pub segments: Vec<Segment>,
    pub handler: RouteHandler,
}

/// The mathematical content of a route.
pub struct RouteModel {
    pub segs: Seq<SegModel>,
    pub handler: usize,
}

impl View for Route {
    type V = RouteModel;

    open spec fn view(&self) -> RouteModel {
        RouteModel { segs: segs_view(self.segments@), handler: self.handler.handler }
    }
}

/// The routes of one HTTP method.
#[derive(Debug)]
pub struct MethodTable {
    pub method: String,
    pub routes: Vec<Route>,
}

/// The mathematical content of a per-method table.
pub struct TableModel {
    pub method: Seq<char>,
    pub routes: Seq<RouteModel>,
}

impl View for MethodTable {
    type V = TableModel;

    open spec fn view(&self) -> TableModel {
        TableModel { method: self.method@, routes: self.routes@.map(|i: int, r: Route| r@) }
    }
}

/// The upper-case form of an ASCII letter; any other character is kept.
pub open spec fn upper_char(c: char) -> char {
    if 'a' <= c && c <= 'z' {
        ((c as u32) - 32) as char
    } else {
        c
    }
}

/// Method names compare case-insensitively: both sides are upper-cased.
pub open spec fn normalize_spec(s: Seq<char>) -> Seq<char> {
    s.map(|i: int, c: char| upper_char(c))
}

/// Upper-cases an HTTP method name.
#[verifier::loop_isolation(false)]
pub fn normalize_method(method: &str) -> (r: String)
    ensures
        r@ == normalize_spec(method@),
{
    let n = method.unicode_len();
    let mut r = String::new();
    let mut i: usize = 0;
    while i < n
        invariant
            i <= n,
            r@ =~= normalize_spec(method@.take(i as int)),
        decreases n - i,
    {
        let c = method.get_char(i);
        let u = if 'a' <= c && c <= 'z' {
            (((c as u32) - 32) as u8) as char
        } else {
            c
        };
        proof {
            assert(u == upper_char(c));
        }
        push_char(&mut r, u);
        proof {
            assert(r@ =~= normalize_spec(method@.take(i + 1)));
        }
        i += 1;
    }
    proof {
        assert(method@.take(n as int) =~= method@);
    }
    r
}

/// A table's routes are usable: well-formed templates, no two ambiguous.
pub open spec fn table_wf(rs: Seq<RouteModel>) -> bool {
    &&& forall|a: int| 0 <= a < rs.len() ==> wf_template((#[trigger] rs[a]).segs)
    &&& forall|a: int, b: int|
        0 <= a < b < rs.len() ==> !same_shape((#[trigger] rs[a]).segs, (#[trigger] rs[b]).segs)
}

/// Whether some route of the table accepts these path segments.
pub open spec fn table_has_match(rs: Seq<RouteModel>, segs: Seq<Seq<char>>) -> bool {
    exists|a: int| 0 <= a < rs.len() && template_matches((#[trigger] rs[a]).segs, segs)
}

/// The registry: an immutable mapping from normalized method name to its
/// route table, shared read-only by every request.
#[derive(Debug)]
pub struct RouteRegistry {
    tables: Vec<MethodTable>,
}

impl RouteRegistry {
    /// The per-method tables.
    pub closed spec fn tables_model(self) -> Seq<TableModel> {
        self.tables@.map(|i: int, t: MethodTable| t@)
    }

    /// Well-formed: method names are normalized and unique, every table
    /// is conflict-free.
    pub open spec fn wf(self) -> bool {
        let ts = self.tables_model();
        &&& forall|i: int, j: int|
            0 <= i < j < ts.len() ==> (#[trigger] ts[i]).method != (#[trigger] ts[j]).method
        &&& forall|i: int|
            0 <= i < ts.len() ==> (#[trigger] ts[i]).method == normalize_spec(ts[i].method)
        &&& forall|i: int| 0 <= i < ts.len() ==> table_wf((#[trigger] ts[i]).routes)
    }

    /// The routes registered for a (normalized) method, if any.
    pub open spec fn spec_table(self, m: Seq<char>) -> Option<Seq<RouteModel>> {
        let ts = self.tables_model();
        if exists|i: int| 0 <= i < ts.len() && (#[trigger] ts[i]).method == m {
            let i = choose|i: int| 0 <= i < ts.len() && (#[trigger] ts[i]).method == m;
            Some(ts[i].routes)
        } else {
            None
        }
    }

    /// Whether a route registered for (normalized) method `m` accepts `p`.
    pub open spec fn matches_path(self, m: Seq<char>, p: Seq<char>) -> bool {
        &&& path_model(p) is Some
        &&& self.spec_table(m) is Some
        &&& table_has_match(self.spec_table(m).unwrap(), path_model(p).unwrap())
    }

    /// Route `a` accepts the path and wins the tie-break against every
    /// other accepting route of its table, and `res` carries its handler
    /// and its parameter bindings.
    pub open spec fn is_best_match(
        self,
        m: Seq<char>,
        p: Seq<char>,
        a: int,
        res: LookupResult,
    ) -> bool {
        let rs = self.spec_table(m).unwrap();
        let segs = path_model(p).unwrap();
        &&& 0 <= a < rs.len()
        &&& template_matches(rs[a].segs, segs)
        &&& forall|b: int|
            0 <= b < rs.len() && b != a && template_matches((#[trigger] rs[b]).segs, segs)
                ==> beats(rs[a].segs, rs[b].segs)
        &&& res.handler == rs[a].handler
        &&& params_bound(rs[a].segs, segs, res.path_params)
    }

    /// What `lookup` promises: `None` exactly when nothing matches, and
    /// otherwise the winning route's handler and bindings.
    pub open spec fn lookup_post(self, m: Seq<char>, p: Seq<char>, r: Option<LookupResult>) -> bool {
        let mm = normalize_spec(m);
        match r {
            None => !self.matches_path(mm, p),
            Some(res) => {
                &&& self.matches_path(mm, p)
                &&& res.path_params.wf()
                &&& exists|a: int| self.is_best_match(mm, p, a, res)
            },
        }
    }

    /// The position of the table for method `m`, if one exists.
    #[verifier::loop_isolation(false)]
    fn table_index(&self, m: &String) -> (r: Option<usize>)
        ensures
            match r {
                Some(i) => i < self.tables_model().len() && self.tables_model()[i as int].method
                    == m@,
                None => forall|i: int|
                    0 <= i < self.tables_model().len() ==> (
                    #[trigger] self.tables_model()[i]).method != m@,
            },
    {
        let n = self.tables.len();
        let mut i: usize = 0;
        while i < n
            invariant
                i <= n,
                forall|j: int|
                    0 <= j < i ==> (#[trigger] self.tables_model()[j]).method != m@,
            decreases n - i,
        {
            proof {
                assert(self.tables_model()[i as int] == self.tables@[i as int]@);
            }
            if self.tables[i].method == *m {
                return Some(i);
            }
            i += 1;
        }
        None
    }

    /// Method-aware lookup with path-parameter extraction.  The method is
    /// normalized, so a registry built with `GET` answers queries for
    /// `get`.  A miss is a normal outcome, not a fault.
    #[verifier::loop_isolation(false)]
    pub fn lookup(&self, method: &str, path: &str) -> (r: Option<LookupResult>)
        requires
            self.wf(),
        ensures
            self.lookup_post(method@, path@, r),
    {
        let m = normalize_method(method);
        let n = path.unicode_len();
        if n == 0 || path.get_char(0) != '/' {
            return None;
        }
        let rest = path.substring_char(1, n);
        proof {
            crate::routing::radix::lemma_raw_segs(path@);
            assert(rest@ =~= path@.skip(1));
        }
        let segs = split_path(rest);
        proof {
            assert(str_views(segs@) == path_model(path@).unwrap());
        }
        let ti = match self.table_index(&m) {
            Some(ti) => ti,
            None => {
                return None;
            },
        };
        proof {
            let ts = self.tables_model();
            let w = choose|i: int| 0 <= i < ts.len() && (#[trigger] ts[i]).method == m@;
            assert(ts[w] == ts[ti as int]);
        }
        let tb = &self.tables[ti];
        let ghost rs = self.spec_table(m@).unwrap();
        proof {
            assert(rs == tb@.routes);
        }
        let rn = tb.routes.len();
        let mut best: Option<usize> = None;
        let mut bi: usize = 0;
        while bi < rn
            invariant
                bi <= rn,
                rn == rs.len(),
                rs == tb@.routes,
                match best {
                    None => forall|j: int|
                        0 <= j < bi ==> !template_matches(
                            (#[trigger] rs[j]).segs,
                            str_views(segs@),
                        ),
                    Some(x) => {
                        &&& x < bi
                        &&& template_matches(rs[x as int].segs, str_views(segs@))
                        &&& forall|j: int|
                            0 <= j < bi && j != x && template_matches(
                                (#[trigger] rs[j]).segs,
                                str_views(segs@),
                            ) ==> beats(rs[x as int].segs, rs[j].segs)
                    },
                },
            decreases rn - bi,
        {
            proof {
                assert(rs[bi as int] == tb.routes@[bi as int]@);
            }
            if route_matches(&tb.routes[bi].segments, &segs) {
                match best {
                    None => {
                        best = Some(bi);
                    },
                    Some(x) => {
                        proof {
                            assert(rs[x as int] == tb.routes@[x as int]@);
                        }
                        if beats_exec(&tb.routes[bi].segments, &tb.routes[x].segments) {
                            proof {
                                assert forall|j: int|
                                    0 <= j < bi && j != bi && template_matches(
                                        (#[trigger] rs[j]).segs,
                                        str_views(segs@),
                                    ) implies beats(rs[bi as int].segs, rs[j].segs) by {
                                    if j != x {
                                        lemma_beats_transitive(
                                            rs[bi as int].segs,
                                            rs[x as int].segs,
                                            rs[j].segs,
                                        );
                                    }
                                }
                            }
                            best = Some(bi);
                        } else {
                            proof {
                                lemma_match_total(
                                    rs[x as int].segs,
                                    rs[bi as int].segs,
                                    str_views(segs@),
                                );
                            }
                        }
                    },
                }
            }
            bi += 1;
        }
        let x = match best {
            Some(x) => x,
            None => {
                return None;
            },
        };
        let rt = &tb.routes[x];
        proof {
            assert(rs[x as int] == tb.routes@[x as int]@);
            assert(wf_template(rs[x as int].segs));
        }
        let pp = extract_params(&rt.segments, &segs);
        let res = LookupResult { handler: rt.handler.handler, path_params: pp };
        proof {
            assert(template_matches(rs[x as int].segs, str_views(segs@)));
            assert(table_has_match(rs, str_views(segs@)));
            assert(self.matches_path(m@, path@));
            assert(self.is_best_match(m@, path@, x as int, res));
            assert(m@ == normalize_spec(method@));
            assert(self.is_best_match(normalize_spec(method@), path@, x as int, res));
            assert(exists|a: int| self.is_best_match(normalize_spec(method@), path@, a, res));
            assert(self.lookup_post(method@, path@, Some(res)));
        }
        Some(res)
    }

    /// Whether any table other than the one for the (normalized) method
    /// accepts the path: distinguishes 404 from 405.
    #[verifier::loop_isolation(false)]
    pub fn path_exists_for_other_method(&self, method: &str, path: &str) -> (r: bool)
        requires
            self.wf(),
        ensures
            r == self.other_method_matches(normalize_spec(method@), path@),
    {
        let m = normalize_method(method);
        let n = path.unicode_len();
        if n == 0 || path.get_char(0) != '/' {
            return false;
        }
        let rest = path.substring_char(1, n);
        proof {
            crate::routing::radix::lemma_raw_segs(path@);
            assert(rest@ =~= path@.skip(1));
        }
        let segs = split_path(rest);
        proof {
            assert(str_views(segs@) == path_model(path@).unwrap());
        }
        let tn = self.tables.len();
        let mut ti: usize = 0;
        while ti < tn
            invariant
                ti <= tn,
                forall|i: int|
                    0 <= i < ti ==> !((#[trigger] self.tables_model()[i]).method != m@
                        && table_has_match(self.tables_model()[i].routes, str_views(segs@))),
            decreases tn - ti,
        {
            proof {
                assert(self.tables_model()[ti as int] == self.tables@[ti as int]@);
            }
            let tb = &self.tables[ti];
            if !(tb.method == m) {
                let rn = tb.routes.len();
                let mut a: usize = 0;
                while a < rn
                    invariant
                        a <= rn,
                        rn == tb.routes@.len(),
                        forall|j: int|
                            0 <= j < a ==> !template_matches(
                                (#[trigger] tb@.routes[j]).segs,
                                str_views(segs@),
                            ),
                    decreases rn - a,
                {
                    proof {
                        assert(tb@.routes[a as int] == tb.routes@[a as int]@);
                    }
                    if route_matches(&tb.routes[a].segments, &segs) {
                        proof {
                            assert(table_has_match(
                                self.tables_model()[ti as int].routes,
                                str_views(segs@),
                            ));
                        }
                        return true;
                    }
                    a += 1;
                }
            }
            ti += 1;
        }
        false
    }

    /// Whether a table for a method other than `m` accepts `p`.
    pub open spec fn other_method_matches(self, m: Seq<char>, p: Seq<char>) -> bool {
        &&& path_model(p) is Some
        &&& exists|i: int|
            0 <= i < self.tables_model().len() && (#[trigger] self.tables_model()[i]).method != m
                && table_has_match(self.tables_model()[i].routes, path_model(p).unwrap())
    }
}

/// The mathematical content of one route definition.
pub struct DefModel {
    pub method: Seq<char>,
    pub path: Seq<char>,
    pub handler: usize,
}

impl View for RouteDefinition {
    type V = DefModel;

    open spec fn view(&self) -> DefModel {
        DefModel { method: self.method@, path: self.path@, handler: self.handler }
    }
}

/// The views of a route list.
pub open spec fn defs_view(ds: Seq<RouteDefinition>) -> Seq<DefModel> {
    ds.map(|i: int, d: RouteDefinition| d@)
}

/// A route list the registry accepts: every template is valid, and no two
/// templates for the same method are ambiguous.
pub open spec fn routes_buildable(ds: Seq<DefModel>) -> bool {
    &&& forall|i: int| 0 <= i < ds.len() ==> template_model((#[trigger] ds[i]).path) is Some
    &&& forall|i: int, j: int|
        0 <= i < j < ds.len() && normalize_spec((#[trigger] ds[i]).method) == normalize_spec(
            (#[trigger] ds[j]).method,
        ) ==> !same_shape(
            template_model(ds[i].path).unwrap(),
            template_model(ds[j].path).unwrap(),
        )
}

/// The definition's template and handler stand at position `a` of the
/// table of its method.
pub open spec fn registered_at(reg: RouteRegistry, d: DefModel, a: int) -> bool {
    let rs = reg.spec_table(normalize_spec(d.method)).unwrap();
    &&& 0 <= a < rs.len()
    &&& rs[a].segs == template_model(d.path).unwrap()
    &&& rs[a].handler == d.handler
}

/// The definition's template stands in the table of its method, with its
/// handler.
pub open spec fn route_registered(reg: RouteRegistry, d: DefModel) -> bool {
    &&& reg.spec_table(normalize_spec(d.method)) is Some
    &&& exists|a: int| registered_at(reg, d, a)
}

/// Every definition of the list is registered.
pub open spec fn registry_covers(reg: RouteRegistry, ds: Seq<DefModel>) -> bool {
    forall|i: int| 0 <= i < ds.len() ==> route_registered(reg, #[trigger] ds[i])
}

/// Definition `i` is where the route at position `a` of table `t` comes
/// from.
pub open spec fn origin_of(ds: Seq<DefModel>, t: TableModel, a: int, i: int) -> bool {
    &&& 0 <= i < ds.len()
    &&& normalize_spec(ds[i].method) == t.method
    &&& template_model(ds[i].path) == Some(t.routes[a].segs)
    &&& ds[i].handler == t.routes[a].handler
}

/// The route at position `a` of table `ti` comes from some definition.
pub open spec fn table_entry_from(ds: Seq<DefModel>, reg: RouteRegistry, ti: int, a: int) -> bool {
    exists|i: int| origin_of(ds, reg.tables_model()[ti], a, i)
}

/// Every registered route comes from the list: nothing is invented.
pub open spec fn registry_only(reg: RouteRegistry, ds: Seq<DefModel>) -> bool {
    forall|ti: int, a: int|
        #![trigger table_entry_from(ds, reg, ti, a)]
        0 <= ti < reg.tables_model().len() && 0 <= a < reg.tables_model()[ti].routes.len()
            ==> table_entry_from(ds, reg, ti, a)
}

pub proof fn lemma_upper_idempotent(s: Seq<char>)
    ensures
        normalize_spec(normalize_spec(s)) =~= normalize_spec(s),
{
}

/// With unique method names, the table found for the method at `w` is the
/// table at `w`.
proof fn lemma_spec_table_at(reg: RouteRegistry, w: int)
    requires
        forall|i: int, j: int|
            0 <= i < j < reg.tables_model().len() ==> (#[trigger] reg.tables_model()[i]).method
                != (#[trigger] reg.tables_model()[j]).method,
        0 <= w < reg.tables_model().len(),
    ensures
        reg.spec_table(reg.tables_model()[w].method) == Some(reg.tables_model()[w].routes),
{
    let ts = reg.tables_model();
    let m = ts[w].method;
    assert(exists|i: int| 0 <= i < ts.len() && (#[trigger] ts[i]).method == m);
    let i = choose|i: int| 0 <= i < ts.len() && (#[trigger] ts[i]).method == m;
    if i != w {
        assert(ts[i].method == ts[w].method);
        assert(false);
    }
}

/// A conflict against a registered route traces back to a conflicting
/// pair in the definition list.
proof fn lemma_conflict_unbuildable(
    reg: RouteRegistry,
    ds: Seq<DefModel>,
    idx: int,
    ti: int,
    a: int,
    tm: Seq<SegModel>,
)
    requires
        registry_only(reg, ds.take(idx)),
        0 <= idx < ds.len(),
        0 <= ti < reg.tables_model().len(),
        0 <= a < reg.tables_model()[ti].routes.len(),
        reg.tables_model()[ti].method == normalize_spec(ds[idx].method),
        template_model(ds[idx].path) == Some(tm),
        same_shape(reg.tables_model()[ti].routes[a].segs, tm),
    ensures
        !routes_buildable(ds),
{
    let t = reg.tables_model()[ti];
    assert(reg.tables_model()[ti].routes[a] == t.routes[a]);
    assert(table_entry_from(ds.take(idx), reg, ti, a));
    let i = choose|i: int| origin_of(ds.take(idx), t, a, i);
    assert(origin_of(ds.take(idx), t, a, i));
    assert(ds.take(idx)[i] == ds[i]);
    if routes_buildable(ds) {
        assert(normalize_spec(ds[i].method) == normalize_spec(ds[idx].method));
        assert(!same_shape(
            template_model(ds[i].path).unwrap(),
            template_model(ds[idx].path).unwrap(),
        ));
        assert(false);
    }
}

/// Adding a fresh method's table preserves the build invariants.
#[verifier::rlimit(60)]
proof fn lemma_extend_new_table(
    pre: RouteRegistry,
    reg: RouteRegistry,
    ds: Seq<DefModel>,
    idx: int,
    tm: Seq<SegModel>,
)
    requires
        pre.wf(),
        routes_buildable(ds.take(idx)),
        registry_covers(pre, ds.take(idx)),
        registry_only(pre, ds.take(idx)),
        0 <= idx < ds.len(),
        template_model(ds[idx].path) == Some(tm),
        wf_template(tm),
        reg.tables_model().len() == pre.tables_model().len() + 1,
        forall|i: int|
            0 <= i < pre.tables_model().len() ==> #[trigger] reg.tables_model()[i]
                == pre.tables_model()[i],
        reg.tables_model().last().method == normalize_spec(ds[idx].method),
        reg.tables_model().last().routes =~= seq![
            RouteModel { segs: tm, handler: ds[idx].handler },
        ],
        forall|i: int|
            0 <= i < pre.tables_model().len() ==> (#[trigger] pre.tables_model()[i]).method
                != normalize_spec(ds[idx].method),
    ensures
        reg.wf(),
        routes_buildable(ds.take(idx + 1)),
        registry_covers(reg, ds.take(idx + 1)),
        registry_only(reg, ds.take(idx + 1)),
{
    let ts = reg.tables_model();
    let pts = pre.tables_model();
    let w = pts.len() as int;
    let nm = normalize_spec(ds[idx].method);
    lemma_upper_idempotent(ds[idx].method);
    assert(reg.wf()) by {
        assert forall|i: int, j: int| 0 <= i < j < ts.len() implies (#[trigger] ts[i]).method != (
        #[trigger] ts[j]).method by {
            if j < w {
                assert(ts[i] == pts[i] && ts[j] == pts[j]);
            } else {
                assert(ts[i] == pts[i]);
            }
        }
        assert forall|i: int| 0 <= i < ts.len() implies (#[trigger] ts[i]).method
            == normalize_spec(ts[i].method) by {
            if i < w {
                assert(ts[i] == pts[i]);
            }
        }
        assert forall|i: int| 0 <= i < ts.len() implies table_wf((#[trigger] ts[i]).routes) by {
            if i < w {
                assert(ts[i] == pts[i]);
            } else {
                assert(ts[i].routes[0].segs == tm);
            }
        }
    }
    assert(routes_buildable(ds.take(idx + 1))) by {
        assert forall|i: int| 0 <= i < idx + 1 implies template_model(
            (#[trigger] ds.take(idx + 1)[i]).path,
        ) is Some by {
            assert(ds.take(idx + 1)[i] == ds[i]);
            if i < idx {
                assert(ds.take(idx)[i] == ds[i]);
            }
        }
        assert forall|i: int, j: int|
            0 <= i < j < idx + 1 && normalize_spec((#[trigger] ds.take(idx + 1)[i]).method)
                == normalize_spec((#[trigger] ds.take(idx + 1)[j]).method) implies !same_shape(
            template_model(ds.take(idx + 1)[i].path).unwrap(),
            template_model(ds.take(idx + 1)[j].path).unwrap(),
        ) by {
            assert(ds.take(idx + 1)[i] == ds[i] && ds.take(idx + 1)[j] == ds[j]);
            if j < idx {
                assert(ds.take(idx)[i] == ds[i] && ds.take(idx)[j] == ds[j]);
            } else {
                // an earlier route with the same method would mean `pre`
                // already had a table for it
                assert(ds.take(idx)[i] == ds[i]);
                assert(route_registered(pre, ds[i]));
                let v = choose|v: int| 0 <= v < pts.len() && (#[trigger] pts[v]).method
                    == normalize_spec(ds[i].method);
                assert(pts[v].method != nm);
                assert(false);
            }
        }
    }
    assert(registry_covers(reg, ds.take(idx + 1))) by {
        assert forall|i: int| 0 <= i < idx + 1 implies route_registered(
            reg,
            #[trigger] ds.take(idx + 1)[i],
        ) by {
            assert(ds.take(idx + 1)[i] == ds[i]);
            if i < idx {
                assert(ds.take(idx)[i] == ds[i]);
                assert(route_registered(pre, ds[i]));
                let mi = normalize_spec(ds[i].method);
                let v = choose|v: int| 0 <= v < pts.len() && (#[trigger] pts[v]).method == mi;
                assert(ts[v] == pts[v]);
                lemma_spec_table_at(pre, v);
                lemma_spec_table_at(reg, v);
                assert(reg.spec_table(mi) == pre.spec_table(mi));
                let a = choose|a: int| registered_at(pre, ds[i], a);
                assert(registered_at(reg, ds[i], a));
            } else {
                lemma_spec_table_at(reg, w);
                assert(reg.spec_table(nm) == Some(ts[w].routes));
                assert(ts[w].routes[0].segs == tm);
                assert(registered_at(reg, ds[i], 0));
            }
        }
    }
    assert(registry_only(reg, ds.take(idx + 1))) by {
        let ds1 = ds.take(idx + 1);
        assert forall|ti: int, a: int|
            #![trigger table_entry_from(ds1, reg, ti, a)]
            0 <= ti < reg.tables_model().len() && 0 <= a < reg.tables_model()[ti].routes.len()
            implies table_entry_from(ds1, reg, ti, a) by {
            if ti < w {
                assert(ts[ti] == pts[ti]);
                assert(0 <= a < pts[ti].routes.len());
                assert(pts[ti].routes[a] == ts[ti].routes[a]);
                assert(table_entry_from(ds.take(idx), pre, ti, a));
                let i = choose|i: int| origin_of(ds.take(idx), pts[ti], a, i);
                assert(origin_of(ds.take(idx), pts[ti], a, i));
                assert(ds1[i] == ds[i] && ds.take(idx)[i] == ds[i]);
                assert(origin_of(ds1, reg.tables_model()[ti], a, i));
            } else {
                assert(ts[ti].routes[a] == RouteModel { segs: tm, handler: ds[idx].handler });
                assert(ds1[idx] == ds[idx]);
                assert(origin_of(ds1, reg.tables_model()[ti], a, idx));
            }
        }
    }
}

/// Adding a route to an existing method's table preserves the build
/// invariants, given no shape conflict inside that table.
#[verifier::rlimit(60)]
proof fn lemma_extend_existing_table(
    pre: RouteRegistry,
    reg: RouteRegistry,
    ds: Seq<DefModel>,
    idx: int,
    ti: int,
    tm: Seq<SegModel>,
)
    requires
        pre.wf(),
        routes_buildable(ds.take(idx)),
        registry_covers(pre, ds.take(idx)),
        registry_only(pre, ds.take(idx)),
        0 <= idx < ds.len(),
        template_model(ds[idx].path) == Some(tm),
        wf_template(tm),
        0 <= ti < pre.tables_model().len(),
        reg.tables_model().len() == pre.tables_model().len(),
        forall|i: int|
            0 <= i < pre.tables_model().len() && i != ti ==> #[trigger] reg.tables_model()[i]
                == pre.tables_model()[i],
        reg.tables_model()[ti].method == pre.tables_model()[ti].method,
        pre.tables_model()[ti].method == normalize_spec(ds[idx].method),
        reg.tables_model()[ti].routes =~= pre.tables_model()[ti].routes.push(
            RouteModel { segs: tm, handler: ds[idx].handler },
        ),
        forall|b: int|
            0 <= b < pre.tables_model()[ti].routes.len() ==> !same_shape(
                (#[trigger] pre.tables_model()[ti].routes[b]).segs,
                tm,
            ),
    ensures
        reg.wf(),
        routes_buildable(ds.take(idx + 1)),
        registry_covers(reg, ds.take(idx + 1)),
        registry_only(reg, ds.take(idx + 1)),
{
    let ts = reg.tables_model();
    let pts = pre.tables_model();
    let nm = normalize_spec(ds[idx].method);
    let oldlen = pts[ti].routes.len() as int;
    assert(reg.wf()) by {
        assert forall|i: int, j: int| 0 <= i < j < ts.len() implies (#[trigger] ts[i]).method != (
        #[trigger] ts[j]).method by {
            assert(ts[i].method == pts[i].method && ts[j].method == pts[j].method);
        }
        assert forall|i: int| 0 <= i < ts.len() implies (#[trigger] ts[i]).method
            == normalize_spec(ts[i].method) by {
            assert(ts[i].method == pts[i].method);
        }
        assert forall|i: int| 0 <= i < ts.len() implies table_wf((#[trigger] ts[i]).routes) by {
            if i != ti {
                assert(ts[i] == pts[i]);
            } else {
                let rs = ts[ti].routes;
                assert forall|x: int| 0 <= x < rs.len() implies wf_template(
                    (#[trigger] rs[x]).segs,
                ) by {
                    if x < oldlen {
                        assert(rs[x] == pts[ti].routes[x]);
                    }
                }
                assert forall|x: int, y: int| 0 <= x < y < rs.len() implies !same_shape(
                    (#[trigger] rs[x]).segs,
                    (#[trigger] rs[y]).segs,
                ) by {
                    assert(rs[x] == pts[ti].routes[x]);
                    if y < oldlen {
                        assert(rs[y] == pts[ti].routes[y]);
                    } else {
                        assert(rs[y].segs == tm);
                    }
                }
            }
        }
    }
    assert(routes_buildable(ds.take(idx + 1))) by {
        assert forall|i: int| 0 <= i < idx + 1 implies template_model(
            (#[trigger] ds.take(idx + 1)[i]).path,
        ) is Some by {
            assert(ds.take(idx + 1)[i] == ds[i]);
            if i < idx {
                assert(ds.take(idx)[i] == ds[i]);
            }
        }
        assert forall|i: int, j: int|
            0 <= i < j < idx + 1 && normalize_spec((#[trigger] ds.take(idx + 1)[i]).method)
                == normalize_spec((#[trigger] ds.take(idx + 1)[j]).method) implies !same_shape(
            template_model(ds.take(idx + 1)[i].path).unwrap(),
            template_model(ds.take(idx + 1)[j].path).unwrap(),
        ) by {
            assert(ds.take(idx + 1)[i] == ds[i] && ds.take(idx + 1)[j] == ds[j]);
            if j < idx {
                assert(ds.take(idx)[i] == ds[i] && ds.take(idx)[j] == ds[j]);
            } else {
                // the earlier route with this method sits in table `ti`,
                // and the conflict scan cleared every route there
                assert(ds.take(idx)[i] == ds[i]);
                assert(route_registered(pre, ds[i]));
                let mi = normalize_spec(ds[i].method);
                let v = choose|v: int| 0 <= v < pts.len() && (#[trigger] pts[v]).method == mi;
                if v != ti {
                    assert(pts[v].method == pts[ti].method);
                    assert(false);
                }
                lemma_spec_table_at(pre, ti);
                let a = choose|a: int| registered_at(pre, ds[i], a);
                assert(registered_at(pre, ds[i], a));
                assert(!same_shape(pts[ti].routes[a].segs, tm));
            }
        }
    }
    assert(registry_covers(reg, ds.take(idx + 1))) by {
        assert forall|i: int| 0 <= i < idx + 1 implies route_registered(
            reg,
            #[trigger] ds.take(idx + 1)[i],
        ) by {
            assert(ds.take(idx + 1)[i] == ds[i]);
            if i < idx {
                assert(ds.take(idx)[i] == ds[i]);
                assert(route_registered(pre, ds[i]));
                let mi = normalize_spec(ds[i].method);
                let v = choose|v: int| 0 <= v < pts.len() && (#[trigger] pts[v]).method == mi;
                lemma_spec_table_at(pre, v);
                lemma_spec_table_at(reg, v);
                if v != ti {
                    assert(ts[v] == pts[v]);
                    assert(reg.spec_table(mi) == pre.spec_table(mi));
                    let a = choose|a: int| registered_at(pre, ds[i], a);
                    assert(registered_at(reg, ds[i], a));
                } else {
                    let a = choose|a: int| registered_at(pre, ds[i], a);
                    assert(registered_at(pre, ds[i], a));
                    assert(ts[ti].routes[a] == pts[ti].routes[a]);
                    assert(registered_at(reg, ds[i], a));
                }
            } else {
                lemma_spec_table_at(reg, ti);
                assert(ts[ti].routes[oldlen].segs == tm);
                assert(registered_at(reg, ds[i], oldlen));
            }
        }
    }
    assert(registry_only(reg, ds.take(idx + 1))) by {
        let ds1 = ds.take(idx + 1);
        assert forall|tj: int, a: int|
            #![trigger table_entry_from(ds1, reg, tj, a)]
            0 <= tj < reg.tables_model().len() && 0 <= a < reg.tables_model()[tj].routes.len()
            implies table_entry_from(ds1, reg, tj, a) by {
            if tj != ti || a < oldlen {
                assert(ts[tj].routes[a] == pts[tj].routes[a]) by {
                    if tj != ti {
                        assert(ts[tj] == pts[tj]);
                    }
                }
                assert(0 <= a < pts[tj].routes.len());
                assert(table_entry_from(ds.take(idx), pre, tj, a));
                let i = choose|i: int| origin_of(ds.take(idx), pts[tj], a, i);
                assert(origin_of(ds.take(idx), pts[tj], a, i));
                assert(ds1[i] == ds[i] && ds.take(idx)[i] == ds[i]);
                assert(ts[tj].method == pts[tj].method);
                assert(origin_of(ds1, reg.tables_model()[tj], a, i));
            } else {
                assert(ts[ti].routes[a] == RouteModel { segs: tm, handler: ds[idx].handler });
                assert(ds1[idx] == ds[idx]);
                assert(origin_of(ds1, reg.tables_model()[tj], a, idx));
            }
        }
    }
}

impl RouteRegistry {
    /// Builds the registry from an ordered route list.  The whole list is
    /// processed before the registry exists: a conflicting or invalid
    /// template fails the build with `InvalidConfig`, and a partial
    /// registry is never exposed.
    #[verifier::loop_isolation(false)]
    pub fn from_routes(routes: Vec<RouteDefinition>) -> (r: Result<RouteRegistry, CoreError>)
        ensures
            match r {
                Ok(reg) => {
                    &&& reg.wf()
                    &&& routes_buildable(defs_view(routes@))
                    &&& registry_covers(reg, defs_view(routes@))
                    &&& registry_only(reg, defs_view(routes@))
                },
                Err(e) => {
                    &&& !routes_buildable(defs_view(routes@))
                    &&& e is InvalidConfig
                },
            },
    {
        let ghost ds = defs_view(routes@);
        let mut reg = RouteRegistry { tables: Vec::new() };
        let n = routes.len();
        let mut idx: usize = 0;
        while idx < n
            invariant
                idx <= n,
                reg.wf(),
                routes_buildable(ds.take(idx as int)),
                registry_covers(reg, ds.take(idx as int)),
                registry_only(reg, ds.take(idx as int)),
            decreases n - idx,
        {
            proof {
                assert(ds[idx as int] == routes@[idx as int]@);
            }
            let tsegs = match parse_template(routes[idx].path.as_str()) {
                Some(t) => t,
                None => {
                    proof {
                        assert(template_model(ds[idx as int].path) is None);
                    }
                    return Err(
                        CoreError::InvalidConfig(
                            String::from_str("route conflict: invalid route template"),
                        ),
                    );
                },
            };
            let ghost tm = template_model(ds[idx as int].path).unwrap();
            let m = normalize_method(routes[idx].method.as_str());
            proof {
                lemma_template_model_wf(ds[idx as int].path);
                lemma_upper_idempotent(routes@[idx as int].method@);
            }
            let handler = RouteHandler { handler: routes[idx].handler };
            let ghost pre = reg;
            match reg.table_index(&m) {
                None => {
                    let mut rts: Vec<Route> = Vec::new();
                    rts.push(Route { segments: tsegs, handler });
                    reg.tables.push(MethodTable { method: m, routes: rts });
                    proof {
                        assert(reg.tables_model() =~= pre.tables_model().push(
                            reg.tables@.last()@,
                        ));
                        let nt = reg.tables_model().last();
                        assert(nt.method == normalize_spec(ds[idx as int].method));
                        assert(nt.routes =~= seq![
                            RouteModel { segs: tm, handler: ds[idx as int].handler },
                        ]);
                        lemma_extend_new_table(pre, reg, ds, idx as int, tm);
                    }
                },
                Some(ti) => {
                    let rn = reg.tables[ti].routes.len();
                    let mut a: usize = 0;
                    while a < rn
                        invariant
                            a <= rn,
                            forall|b: int|
                                0 <= b < a ==> !same_shape(
                                    (#[trigger] reg.tables_model()[ti as int].routes[b]).segs,
                                    tm,
                                ),
                        decreases rn - a,
                    {
                        proof {
                            assert(reg.tables_model()[ti as int] == reg.tables@[ti as int]@);
                            assert(reg.tables_model()[ti as int].routes[a as int]
                                == reg.tables@[ti as int].routes@[a as int]@);
                        }
                        if same_shape_exec(&reg.tables[ti].routes[a].segments, &tsegs) {
                            proof {
                                lemma_conflict_unbuildable(reg, ds, idx as int, ti as int, a as int, tm);
                            }
                            return Err(
                                CoreError::InvalidConfig(
                                    String::from_str("route conflict: ambiguous route templates"),
                                ),
                            );
                        }
                        a += 1;
                    }
                    let mut tb = reg.tables.remove(ti);
                    tb.routes.push(Route { segments: tsegs, handler });
                    reg.tables.insert(ti, tb);
                    proof {
                        assert(reg.tables@ =~= pre.tables@.update(
                            ti as int,
                            reg.tables@[ti as int],
                        ));
                        assert(reg.tables_model() =~= pre.tables_model().update(
                            ti as int,
                            reg.tables_model()[ti as int],
                        ));
                        assert(reg.tables_model()[ti as int].method
                            == pre.tables_model()[ti as int].method);
                        assert(reg.tables_model()[ti as int].routes
                            =~= pre.tables_model()[ti as int].routes.push(
                            RouteModel { segs: tm, handler: ds[idx as int].handler },
                        ));
                        lemma_extend_existing_table(pre, reg, ds, idx as int, ti as int, tm);
                    }
                },
            }
            idx += 1;
        }
        proof {
            assert(ds.take(n as int) =~= ds);
        }
        Ok(reg)
    }
}

/// Law: when a conflict-free route list has been built into a registry,
/// every registered route is reachable: any path its template accepts
/// (its parameters replaced by concrete segments) is matched under the
/// route's method.
pub proof fn lemma_registered_route_reachable(
    reg: RouteRegistry,
    ds: Seq<DefModel>,
    i: int,
    p: Seq<char>,
)
    requires
        reg.wf(),
        registry_covers(reg, ds),
        0 <= i < ds.len(),
        template_model(ds[i].path) is Some,
        path_model(p) is Some,
        template_matches(template_model(ds[i].path).unwrap(), path_model(p).unwrap()),
    ensures
        reg.matches_path(normalize_spec(ds[i].method), p),
{
    assert(route_registered(reg, ds[i]));
    let a = choose|a: int| registered_at(reg, ds[i], a);
    assert(registered_at(reg, ds[i], a));
    let rs = reg.spec_table(normalize_spec(ds[i].method)).unwrap();
    assert(template_matches(rs[a].segs, path_model(p).unwrap()));
    assert(table_has_match(rs, path_model(p).unwrap()));
}

/// Law: a lookup on a matched (method, path) pair cannot miss: whenever
/// the registry matches the path under the normalized method, `lookup`
/// returns a result.
pub proof fn lemma_match_means_found(
    reg: RouteRegistry,
    method: Seq<char>,
    p: Seq<char>,
    r: Option<LookupResult>,
)
    requires
        reg.lookup_post(method, p, r),
        reg.matches_path(normalize_spec(method), p),
    ensures
        r is Some,
{
}

/// Law: two templates for the same method that differ only in parameter
/// names at identical positions (the same shape) make the route list
/// unbuildable, so construction fails with a configuration fault rather
/// than silently overriding one of them.
pub proof fn lemma_ambiguous_routes_rejected(ds: Seq<DefModel>, i: int, j: int)
    requires
        0 <= i < j < ds.len(),
        normalize_spec(ds[i].method) == normalize_spec(ds[j].method),
        template_model(ds[i].path) is Some,
        template_model(ds[j].path) is Some,
        same_shape(template_model(ds[i].path).unwrap(), template_model(ds[j].path).unwrap()),
    ensures
        !routes_buildable(ds),
{
}

/// Law: method normalization is total and case-insensitive: lookups whose
/// methods normalize alike return identical results — the same handler
/// and pointwise the same parameter bindings — for any path and any
/// registry.
pub proof fn lemma_lookup_case_insensitive(
    reg: RouteRegistry,
    m1: Seq<char>,
    m2: Seq<char>,
    p: Seq<char>,
    r1: Option<LookupResult>,
    r2: Option<LookupResult>,
)
    requires
        reg.wf(),
        normalize_spec(m1) == normalize_spec(m2),
        reg.lookup_post(m1, p, r1),
        reg.lookup_post(m2, p, r2),
    ensures
        r1 is Some <==> r2 is Some,
        r1 is Some ==> r1.unwrap().handler == r2.unwrap().handler,
        r1 is Some ==> forall|k: Seq<char>|
            r1.unwrap().path_params.spec_get(k) == r2.unwrap().path_params.spec_get(k),
{
    let mm = normalize_spec(m1);
    if r1 is Some && r2 is Some {
        let res1 = r1.unwrap();
        let res2 = r2.unwrap();
        let a1 = choose|a: int| reg.is_best_match(mm, p, a, res1);
        let a2 = choose|a: int| reg.is_best_match(mm, p, a, res2);
        assert(reg.is_best_match(mm, p, a1, res1));
        assert(reg.is_best_match(mm, p, a2, res2));
        let rs = reg.spec_table(mm).unwrap();
        let segs = path_model(p).unwrap();
        if a1 != a2 {
            assert(beats(rs[a1].segs, rs[a2].segs));
            assert(beats(rs[a2].segs, rs[a1].segs));
            crate::routing::radix::lemma_beats_asymmetric(rs[a1].segs, rs[a2].segs);
            assert(false);
        }
        let t = rs[a1].segs;
        let pp1 = res1.path_params;
        let pp2 = res2.path_params;
        assert forall|k: Seq<char>| pp1.spec_get(k) == pp2.spec_get(k) by {
            if pp1.spec_contains(k) {
                let i = choose|i: int| 0 <= i < t.len() && name_of(#[trigger] t[i]) == Some(k);
                assert(pp1.spec_get(k) == Some(binding_of(t, segs, i)));
                assert(pp2.spec_get(k) == Some(binding_of(t, segs, i)));
            } else if pp2.spec_contains(k) {
                let i = choose|i: int| 0 <= i < t.len() && name_of(#[trigger] t[i]) == Some(k);
                assert(pp1.spec_get(k) == Some(binding_of(t, segs, i)));
                assert(pp2.spec_get(k) == Some(binding_of(t, segs, i)));
            }
        }
    }
}

/// Two route tables hold the same routes, in whatever order.
pub open spec fn same_route_sets(rs1: Seq<RouteModel>, rs2: Seq<RouteModel>) -> bool {
    &&& forall|i: int|
        0 <= i < rs1.len() ==> exists|j: int| 0 <= j < rs2.len() && rs2[j] == #[trigger] rs1[i]
    &&& forall|j: int|
        0 <= j < rs2.len() ==> exists|i: int| 0 <= i < rs1.len() && rs1[i] == #[trigger] rs2[j]
}

/// Law: matching is deterministic and independent of insertion order:
/// two well-formed registries that register the same routes for every
/// method answer every lookup alike — the same handler and pointwise the
/// same bindings.
#[verifier::rlimit(80)]
pub proof fn lemma_lookup_order_independent(
    reg1: RouteRegistry,
    reg2: RouteRegistry,
    m: Seq<char>,
    p: Seq<char>,
    r1: Option<LookupResult>,
    r2: Option<LookupResult>,
)
    requires
        reg1.wf(),
        reg2.wf(),
        forall|mm: Seq<char>|
            (#[trigger] reg1.spec_table(mm)) is Some <==> (#[trigger] reg2.spec_table(
                mm,
            )) is Some,
        forall|mm: Seq<char>|
            (#[trigger] reg1.spec_table(mm)) is Some ==> same_route_sets(
                reg1.spec_table(mm).unwrap(),
                reg2.spec_table(mm).unwrap(),
            ),
        reg1.lookup_post(m, p, r1),
        reg2.lookup_post(m, p, r2),
    ensures
        r1 is Some <==> r2 is Some,
        r1 is Some ==> r1.unwrap().handler == r2.unwrap().handler,
        r1 is Some ==> forall|k: Seq<char>|
            r1.unwrap().path_params.spec_get(k) == r2.unwrap().path_params.spec_get(k),
{
    let mm = normalize_spec(m);
    if reg1.matches_path(mm, p) && !reg2.matches_path(mm, p) {
        let rs1 = reg1.spec_table(mm).unwrap();
        let rs2 = reg2.spec_table(mm).unwrap();
        let segs = path_model(p).unwrap();
        let a = choose|a: int| 0 <= a < rs1.len() && template_matches(
            (#[trigger] rs1[a]).segs,
            segs,
        );
        let b = choose|j: int| 0 <= j < rs2.len() && rs2[j] == rs1[a];
        assert(template_matches(rs2[b].segs, segs));
        assert(false);
    }
    if reg2.matches_path(mm, p) && !reg1.matches_path(mm, p) {
        let rs1 = reg1.spec_table(mm).unwrap();
        let rs2 = reg2.spec_table(mm).unwrap();
        let segs = path_model(p).unwrap();
        let a = choose|a: int| 0 <= a < rs2.len() && template_matches(
            (#[trigger] rs2[a]).segs,
            segs,
        );
        let b = choose|i: int| 0 <= i < rs1.len() && rs1[i] == rs2[a];
        assert(template_matches(rs1[b].segs, segs));
        assert(false);
    }
    if r1 is Some && r2 is Some {
        let res1 = r1.unwrap();
        let res2 = r2.unwrap();
        let a1 = choose|a: int| reg1.is_best_match(mm, p, a, res1);
        let a2 = choose|a: int| reg2.is_best_match(mm, p, a, res2);
        assert(reg1.is_best_match(mm, p, a1, res1));
        assert(reg2.is_best_match(mm, p, a2, res2));
        let rs1 = reg1.spec_table(mm).unwrap();
        let rs2 = reg2.spec_table(mm).unwrap();
        let segs = path_model(p).unwrap();
        let b2 = choose|j: int| 0 <= j < rs2.len() && rs2[j] == rs1[a1];
        let b1 = choose|i: int| 0 <= i < rs1.len() && rs1[i] == rs2[a2];
        assert(rs2[b2] == rs1[a1] && rs1[b1] == rs2[a2]);
        if rs1[a1] != rs2[a2] {
            // each winner would have to beat the other's template
            assert(template_matches(rs2[b2].segs, segs));
            assert(b2 != a2);
            assert(beats(rs2[a2].segs, rs2[b2].segs));
            assert(template_matches(rs1[b1].segs, segs));
            assert(b1 != a1);
            assert(beats(rs1[a1].segs, rs1[b1].segs));
            crate::routing::radix::lemma_beats_asymmetric(rs1[a1].segs, rs2[a2].segs);
            assert(false);
        }
        let t = rs1[a1].segs;
        let pp1 = res1.path_params;
        let pp2 = res2.path_params;
        assert forall|k: Seq<char>| pp1.spec_get(k) == pp2.spec_get(k) by {
            if pp1.spec_contains(k) {
                let i = choose|i: int| 0 <= i < t.len() && name_of(#[trigger] t[i]) == Some(k);
                assert(pp1.spec_get(k) == Some(binding_of(t, segs, i)));
                assert(pp2.spec_get(k) == Some(binding_of(t, segs, i)));
            } else if pp2.spec_contains(k) {
                let i = choose|i: int| 0 <= i < t.len() && name_of(#[trigger] t[i]) == Some(k);
                assert(pp1.spec_get(k) == Some(binding_of(t, segs, i)));
                assert(pp2.spec_get(k) == Some(binding_of(t, segs, i)));
            }
        }
    }
}

/// Every name the template binds maps to its bound value, and nothing
/// else is in the mapping.
pub open spec fn params_bound(t: Seq<SegModel>, segs: Seq<Seq<char>>, pp: StringMap) -> bool {
    &&& forall|i: int|
        0 <= i < t.len() && name_of(#[trigger] t[i]) is Some ==> pp.spec_get(
            name_of(t[i]).unwrap(),
        ) == Some(binding_of(t, segs, i))
    &&& forall|k: Seq<char>|
        #[trigger] pp.spec_contains(k) ==> exists|i: int|
            0 <= i < t.len() && name_of(#[trigger] t[i]) == Some(k)
}

/// Copies the parameter bindings of a matched template into an owned map.
#[verifier::loop_isolation(false)]
fn extract_params(t: &Vec<Segment>, segs: &Vec<String>) -> (pp: StringMap)
    requires
        wf_template(segs_view(t@)),
        template_matches(segs_view(t@), str_views(segs@)),
    ensures
        pp.wf(),
        params_bound(segs_view(t@), str_views(segs@), pp),
{
    let ghost tm = segs_view(t@);
    let ghost sv = str_views(segs@);
    let n = t.len();
    let mut pp = StringMap::new();
    let mut i: usize = 0;
    while i < n
        invariant
            i <= n,
            pp.wf(),
            forall|j: int|
                0 <= j < i && name_of(#[trigger] tm[j]) is Some ==> pp.spec_get(
                    name_of(tm[j]).unwrap(),
                ) == Some(binding_of(tm, sv, j)),
            forall|k: Seq<char>|
                #[trigger] pp.spec_contains(k) ==> exists|j: int|
                    0 <= j < i && name_of(#[trigger] tm[j]) == Some(k),
        decreases n - i,
    {
        proof {
            assert(tm[i as int] == t@[i as int]@);
        }
        match &t[i] {
            Segment::Literal(_) => {},
            Segment::Param(name) => {
                proof {
                    if tm.last() is CatchAll {
                        assert(sv.len() >= tm.len());
                    } else {
                        assert(sv.len() == tm.len());
                    }
                    assert(i < sv.len());
                }
                let v = segs[i].clone();
                let ghost prev = pp;
                pp.insert(name.clone(), v);
                proof {
                    assert forall|k: Seq<char>| #[trigger] pp.spec_contains(k) implies exists|j: int|
                        0 <= j < i + 1 && name_of(#[trigger] tm[j]) == Some(k) by {
                        if k == name@ {
                            assert(name_of(tm[i as int]) == Some(k));
                        } else {
                            assert(pp.spec_get(k) == prev.spec_get(k));
                            assert(prev.spec_contains(k));
                        }
                    }
                }
            },
            Segment::CatchAll(name) => {
                proof {
                    assert(!(tm[i as int] is CatchAll) || i == n - 1 || i < n - 1);
                    assert(i as int == tm.len() - 1) by {
                        if (i as int) < tm.len() - 1 {
                            assert(!(tm[i as int] is CatchAll));
                        }
                    }
                    assert(sv.len() >= tm.len());
                }
                let v = join_from(segs, i);
                let ghost prev = pp;
                pp.insert(name.clone(), v);
                proof {
                    assert forall|k: Seq<char>| #[trigger] pp.spec_contains(k) implies exists|j: int|
                        0 <= j < i + 1 && name_of(#[trigger] tm[j]) == Some(k) by {
                        if k == name@ {
                            assert(name_of(tm[i as int]) == Some(k));
                        } else {
                            assert(pp.spec_get(k) == prev.spec_get(k));
                            assert(prev.spec_contains(k));
                        }
                    }
                }
            },
        }
        i += 1;
    }
    pp
}

} // verus!
