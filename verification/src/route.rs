//! Method-and-path routing: patterns of literal and `:name` segments,
//! matching a request path against them, the 404/405 decision, and the
//! `OPTIONS` routes a CORS preflight needs.
use vstd::prelude::*;
use crate::text::{chars_of, string_of_range};
use crate::diff::last_value;

verus! {

// ---------------------------------------------------------------------------
// Splitting
// ---------------------------------------------------------------------------

/// The pieces `s` falls into between occurrences of `sep`, as `str::split`
/// makes them (`n` separators give `n + 1` pieces, empty ones included).
pub open spec fn split(s: Seq<char>, sep: char) -> Seq<Seq<char>>
    decreases s.len(),
{
    if s.len() == 0 {
        seq![Seq::empty()]
    } else {
        let r = split(s.drop_last(), sep);
        if s.last() == sep {
            r.push(Seq::empty())
        } else {
            r.update(r.len() - 1, r.last().push(s.last()))
        }
    }
}

pub proof fn lemma_split_len(s: Seq<char>, sep: char)
    ensures
        split(s, sep).len() >= 1,
    decreases s.len(),
{
    if s.len() > 0 {
        lemma_split_len(s.drop_last(), sep);
    }
}

/// The ranges of `v[a..b]` that `split` makes, as index pairs into `v`.
pub fn split_ranges(v: &Vec<char>, a: usize, b: usize, sep: char) -> (r: Vec<(usize, usize)>)
    requires
        a <= b <= v@.len(),
    ensures
        r@.len() == split(v@.subrange(a as int, b as int), sep).len(),
        forall|k: int|
            0 <= k < r@.len() ==> a <= (#[trigger] r@[k]).0 <= r@[k].1 <= b && v@.subrange(
                r@[k].0 as int,
                r@[k].1 as int,
            ) == split(v@.subrange(a as int, b as int), sep)[k],
{
    let mut r: Vec<(usize, usize)> = Vec::new();
    let mut start = a;
    let mut i = a;
    assert(v@.subrange(a as int, a as int) =~= Seq::<char>::empty());
    while i < b
        invariant
            a <= start <= i <= b <= v@.len(),
            r@.len() + 1 == split(v@.subrange(a as int, i as int), sep).len(),
            forall|k: int|
                0 <= k < r@.len() ==> a <= (#[trigger] r@[k]).0 <= r@[k].1 <= i && v@.subrange(
                    r@[k].0 as int,
                    r@[k].1 as int,
                ) == split(v@.subrange(a as int, i as int), sep)[k],
            v@.subrange(start as int, i as int) == split(v@.subrange(a as int, i as int), sep).last(),
        decreases b - i,
    {
        let ghost sp = split(v@.subrange(a as int, i as int), sep);
        proof {
            lemma_split_len(v@.subrange(a as int, i as int), sep);
            assert(v@.subrange(a as int, i + 1).drop_last() =~= v@.subrange(a as int, i as int));
        }
        if v[i] == sep {
            r.push((start, i));
            start = i + 1;
            assert(v@.subrange(start as int, i + 1) =~= Seq::<char>::empty());
        } else {
            assert(v@.subrange(start as int, i + 1) =~= v@.subrange(start as int, i as int).push(v@[i as int]));
        }
        i = i + 1;
    }
    r.push((start, b));
    r
}

/// The non-empty strings of `ps`, in order.
pub open spec fn nonempty(ps: Seq<Seq<char>>) -> Seq<Seq<char>>
    decreases ps.len(),
{
    if ps.len() == 0 {
        Seq::empty()
    } else {
        let r = nonempty(ps.drop_last());
        if ps.last().len() == 0 {
            r
        } else {
            r.push(ps.last())
        }
    }
}

/// The segments of a path: the non-empty pieces between slashes.
pub open spec fn path_parts(p: Seq<char>) -> Seq<Seq<char>> {
    nonempty(split(p, '/'))
}

pub open spec fn strs_model(s: Seq<String>) -> Seq<Seq<char>> {
    s.map_values(|x: String| x@)
}

/// The segments of `path`.
pub fn path_segments(path: &str) -> (r: Vec<String>)
    ensures
        strs_model(r@) == path_parts(path@),
{
    let v = chars_of(path);
    let ranges = split_ranges(&v, 0, v.len(), '/');
    let ghost sp = split(v@, '/');
    assert(v@.subrange(0, v@.len() as int) =~= v@);
    let mut r: Vec<String> = Vec::new();
    let mut k: usize = 0;
    assert(sp.subrange(0, 0) =~= Seq::<Seq<char>>::empty());
    while k < ranges.len()
        invariant
            k <= ranges@.len(),
            v@ == path@,
            sp == split(v@, '/'),
            ranges@.len() == sp.len(),
            forall|j: int|
                0 <= j < ranges@.len() ==> 0 <= (#[trigger] ranges@[j]).0 <= ranges@[j].1 <= v@.len()
                    && v@.subrange(ranges@[j].0 as int, ranges@[j].1 as int) == sp[j],
            strs_model(r@) == nonempty(sp.subrange(0, k as int)),
        decreases ranges@.len() - k,
    {
        let (x, y) = ranges[k];
        assert(sp.subrange(0, k + 1).drop_last() =~= sp.subrange(0, k as int));
        assert(ranges@[k as int] == (x, y));
        if x < y {
            let ghost before = r@;
            r.push(string_of_range(&v, x, y));
            assert(strs_model(r@) =~= strs_model(before).push(sp[k as int]));
        }
        k = k + 1;
    }
    assert(sp.subrange(0, sp.len() as int) =~= sp);
    r
}

// ---------------------------------------------------------------------------
// Patterns
// ---------------------------------------------------------------------------

/// One segment of a route pattern.
#[derive(Debug)]
pub enum Segment {
    /// Must equal the path segment.
    Literal(String),
    /// Matches any path segment and binds it to the name.
    Param(String),
}

pub enum SegM {
    Literal(Seq<char>),
    Param(Seq<char>),
}

impl Segment {
    pub open spec fn model(self) -> SegM {
        match self {
            Segment::Literal(s) => SegM::Literal(s@),
            Segment::Param(s) => SegM::Param(s@),
        }
    }
}

pub open spec fn seg_models(s: Seq<Segment>) -> Seq<SegM> {
    s.map_values(|x: Segment| x.model())
}

pub open spec fn segment_of(x: Seq<char>) -> SegM {
    if x.len() > 0 && x[0] == ':' {
        SegM::Param(x.drop_first())
    } else {
        SegM::Literal(x)
    }
}

/// A pattern's segments: each non-empty piece between slashes, a `:name`
/// piece being a parameter.
pub open spec fn pattern_model(p: Seq<char>) -> Seq<SegM> {
    path_parts(p).map_values(|x: Seq<char>| segment_of(x))
}

pub fn parse_pattern(pattern: &str) -> (r: Vec<Segment>)
    ensures
        seg_models(r@) == pattern_model(pattern@),
{
    let parts = path_segments(pattern);
    let ghost pm = strs_model(parts@);
    let mut r: Vec<Segment> = Vec::new();
    let mut k: usize = 0;
    while k < parts.len()
        invariant
            k <= parts@.len(),
            pm == strs_model(parts@),
            pm == path_parts(pattern@),
            seg_models(r@) == pm.subrange(0, k as int).map_values(|x: Seq<char>| segment_of(x)),
        decreases parts@.len() - k,
    {
        let v = chars_of(parts[k].as_str());
        let seg = if v.len() > 0 && v[0] == ':' {
            Segment::Param(string_of_range(&v, 1, v.len()))
        } else {
            Segment::Literal(parts[k].clone())
        };
        proof {
            if v@.len() > 0 && v@[0] == ':' {
                assert(v@.subrange(1, v@.len() as int) =~= v@.drop_first());
            }
        }
        assert(seg.model() == segment_of(pm[k as int]));
        let ghost before = r@;
        r.push(seg);
        assert(seg_models(r@) =~= seg_models(before).push(segment_of(pm[k as int])));
        assert(pm.subrange(0, k + 1) =~= pm.subrange(0, k as int).push(pm[k as int]));
        k = k + 1;
        assert(seg_models(r@) =~= pm.subrange(0, k as int).map_values(|x: Seq<char>| segment_of(x)));
    }
    assert(pm.subrange(0, pm.len() as int) =~= pm);
    r
}

// ---------------------------------------------------------------------------
// Matching
// ---------------------------------------------------------------------------

/// Path parameters bound by a match, in binding order; a name bound twice
/// keeps its last value.
pub struct Params(pub Vec<(String, String)>);

pub open spec fn pairs_model(s: Seq<(String, String)>) -> Seq<(Seq<char>, Seq<char>)> {
    s.map_values(|p: (String, String)| (p.0@, p.1@))
}

impl Params {
    pub open spec fn model(self) -> Seq<(Seq<char>, Seq<char>)> {
        pairs_model(self.0@)
    }

    /// The value bound to `key`.
    pub fn get(&self, key: &str) -> (r: Option<&str>)
        ensures
            match last_value(self.model(), key@) {
                Some(v) => r matches Some(s) && s@ == v,
                None => r is None,
            },
    {
        let ghost m = self.model();
        let mut i: usize = self.0.len();
        assert(m.subrange(0, i as int) =~= m);
        let k = key.to_owned();
        while i > 0
            invariant
                i <= self.0@.len(),
                m == self.model(),
                k@ == key@,
                last_value(m, key@) == last_value(m.subrange(0, i as int), key@),
            decreases i,
        {
            assert(m.subrange(0, i as int).drop_last() =~= m.subrange(0, i - 1));
            if self.0[i - 1].0 == k {
                return Some(self.0[i - 1].1.as_str());
            }
            i = i - 1;
        }
        assert(m.subrange(0, 0) =~= Seq::<(Seq<char>, Seq<char>)>::empty());
        None
    }
}

/// Matches the first `n` segments against the first `n` path parts:
/// literals must be equal, parameters bind.
pub open spec fn bind_upto(segs: Seq<SegM>, parts: Seq<Seq<char>>, n: int) -> Option<
    Seq<(Seq<char>, Seq<char>)>,
>
    decreases n,
{
    if n <= 0 {
        Some(Seq::empty())
    } else {
        match bind_upto(segs, parts, n - 1) {
            None => None,
            Some(ps) => match segs[n - 1] {
                SegM::Literal(l) => if l == parts[n - 1] {
                    Some(ps)
                } else {
                    None
                },
                SegM::Param(name) => Some(ps.push((name, parts[n - 1]))),
            },
        }
    }
}

/// The parameters a pattern binds on a path, `None` if it does not match
/// (different segment count, or a literal differs).
pub open spec fn bind(segs: Seq<SegM>, parts: Seq<Seq<char>>) -> Option<Seq<(Seq<char>, Seq<char>)>> {
    if segs.len() != parts.len() {
        None
    } else {
        bind_upto(segs, parts, segs.len() as int)
    }
}

fn bind_parts(segs: &Vec<Segment>, parts: &Vec<String>) -> (r: Option<Params>)
    ensures
        match bind(seg_models(segs@), strs_model(parts@)) {
            Some(ps) => r matches Some(p) && p.model() == ps,
            None => r is None,
        },
{
    let ghost sm = seg_models(segs@);
    let ghost pm = strs_model(parts@);
    if segs.len() != parts.len() {
        return None;
    }
    let mut out: Vec<(String, String)> = Vec::new();
    let mut i: usize = 0;
    while i < segs.len()
        invariant
            i <= segs@.len(),
            segs@.len() == parts@.len(),
            sm == seg_models(segs@),
            pm == strs_model(parts@),
            bind_upto(sm, pm, i as int) == Some(pairs_model(out@)),
        decreases segs@.len() - i,
    {
        match &segs[i] {
            Segment::Literal(l) => {
                if !(*l == parts[i]) {
                    assert(bind_upto(sm, pm, i + 1) is None);
                    proof {
                        lemma_bind_none_stays(sm, pm, i + 1, segs@.len() as int);
                    }
                    return None;
                }
            },
            Segment::Param(name) => {
                let ghost before = out@;
                out.push((name.clone(), parts[i].clone()));
                assert(pairs_model(out@) =~= pairs_model(before).push((sm[i as int]->Param_0, pm[i as int])));
            },
        }
        i = i + 1;
    }
    Some(Params(out))
}

/// The parameters `route`'s pattern binds on `path`, if it matches.
pub fn match_path(route: &Route, path: &str) -> (r: Option<Params>)
    ensures
        match bind(route.model().segments, path_parts(path@)) {
            Some(ps) => r matches Some(p) && p.model() == ps,
            None => r is None,
        },
{
    let parts = path_segments(path);
    bind_parts(&route.segments, &parts)
}

proof fn lemma_bind_none_stays(segs: Seq<SegM>, parts: Seq<Seq<char>>, i: int, n: int)
    requires
        0 <= i <= n,
        bind_upto(segs, parts, i) is None,
    ensures
        bind_upto(segs, parts, n) is None,
    decreases n - i,
{
    if i < n {
        lemma_bind_none_stays(segs, parts, i + 1, n);
    }
}

/// A registered route: the request method it answers (its text, such as
/// `GET`) and its pattern.
pub struct Route {
    pub method: String,
    pub segments: Vec<Segment>,
}

pub struct RouteM {
    pub method: Seq<char>,
    pub segments: Seq<SegM>,
}

impl Route {
    pub open spec fn model(self) -> RouteM {
        RouteM { method: self.method@, segments: seg_models(self.segments@) }
    }

    /// A route for `method` on `pattern`.
    pub fn new(method: &str, pattern: &str) -> (r: Route)
        ensures
            r.model() == (RouteM { method: method@, segments: pattern_model(pattern@) }),
    {
        Route { method: method.to_owned(), segments: parse_pattern(pattern) }
    }
}

pub open spec fn routes_model(rs: Seq<Route>) -> Seq<RouteM> {
    rs.map_values(|r: Route| r.model())
}

/// How a request is answered.
pub enum Resolution {
    /// The route at this index matched, binding these parameters.
    Found(usize, Params),
    /// Some route matches the path, none with the request's method.
    MethodNotAllowed,
    /// No route matches the path.
    NotFound,
}

/// The first route from index `i` on with the method whose pattern
/// matches.
pub open spec fn first_match(routes: Seq<RouteM>, method: Seq<char>, parts: Seq<Seq<char>>, i: int) -> Option<
    (int, Seq<(Seq<char>, Seq<char>)>),
>
    decreases routes.len() - i,
{
    if i < 0 || i >= routes.len() {
        None
    } else if routes[i].method == method && bind(routes[i].segments, parts) is Some {
        Some((i, bind(routes[i].segments, parts)->0))
    } else {
        first_match(routes, method, parts, i + 1)
    }
}

/// The route at `j` answers a request with `method` for the path `parts`:
/// it has that method and its pattern binds the parts.
pub open spec fn answers(routes: Seq<RouteM>, method: Seq<char>, parts: Seq<Seq<char>>, j: int) -> bool {
    routes[j].method == method && bind(routes[j].segments, parts) is Some
}

proof fn lemma_first_match_from(routes: Seq<RouteM>, method: Seq<char>, parts: Seq<Seq<char>>, i: int)
    requires
        0 <= i,
    ensures
        match first_match(routes, method, parts, i) {
            Some((k, ps)) => i <= k < routes.len() && answers(routes, method, parts, k) && bind(
                routes[k].segments,
                parts,
            ) == Some(ps) && forall|j: int| i <= j < k ==> !#[trigger] answers(routes, method, parts, j),
            None => forall|j: int| i <= j < routes.len() ==> !#[trigger] answers(routes, method, parts, j),
        },
    decreases routes.len() - i,
{
    if i < routes.len() && !answers(routes, method, parts, i) {
        lemma_first_match_from(routes, method, parts, i + 1);
    }
}

/// Dispatch gives a request to the earliest registered route that answers
/// it: the route it names has the request's method and a pattern that binds
/// the path, with those bindings, and no route registered before it has
/// both; when it names none, no route has both.
pub proof fn earliest_route_answers(routes: Seq<RouteM>, method: Seq<char>, parts: Seq<Seq<char>>)
    ensures
        match first_match(routes, method, parts, 0) {
            Some((i, ps)) => {
                &&& 0 <= i < routes.len()
                &&& routes[i].method == method
                &&& bind(routes[i].segments, parts) == Some(ps)
                &&& forall|j: int|
                    0 <= j < i ==> !(routes[j].method == method && #[trigger] bind(routes[j].segments, parts) is Some)
            },
            None => forall|j: int|
                0 <= j < routes.len() ==> !(routes[j].method == method && #[trigger] bind(
                    routes[j].segments,
                    parts,
                ) is Some),
        },
{
    lemma_first_match_from(routes, method, parts, 0);
    match first_match(routes, method, parts, 0) {
        Some((i, ps)) => {
            assert forall|j: int| 0 <= j < i implies !(routes[j].method == method && #[trigger] bind(
                routes[j].segments,
                parts,
            ) is Some) by {
                assert(!answers(routes, method, parts, j));
            }
        },
        None => {
            assert forall|j: int| 0 <= j < routes.len() implies !(routes[j].method == method && #[trigger] bind(
                routes[j].segments,
                parts,
            ) is Some) by {
                assert(!answers(routes, method, parts, j));
            }
        },
    }
}

pub open spec fn path_known(routes: Seq<RouteM>, parts: Seq<Seq<char>>) -> bool {
    exists|j: int| 0 <= j < routes.len() && (#[trigger] bind(routes[j].segments, parts)) is Some
}

/// Dispatch: the first route with the request's method whose pattern
/// matches the path; else 405 if another method's route matches the path;
/// else 404.
pub fn resolve(routes: &Vec<Route>, method: &str, path: &str) -> (r: Resolution)
    ensures
        match first_match(routes_model(routes@), method@, path_parts(path@), 0) {
            Some((i, ps)) => r matches Resolution::Found(j, p) && j == i && p.model() == ps
                && routes_model(routes@)[i].method == method@ && bind(routes_model(routes@)[i].segments, path_parts(path@))
                == Some(ps) && forall|k: int|
                0 <= k < i ==> !(routes_model(routes@)[k].method == method@ && #[trigger] bind(
                    routes_model(routes@)[k].segments,
                    path_parts(path@),
                ) is Some),
            None => if path_known(routes_model(routes@), path_parts(path@)) {
                r is MethodNotAllowed
            } else {
                r is NotFound
            },
        },
{
    let ghost rm = routes_model(routes@);
    let parts = path_segments(path);
    let ghost pm = path_parts(path@);
    let m = method.to_owned();
    let mut i: usize = 0;
    while i < routes.len()
        invariant
            i <= routes@.len(),
            rm == routes_model(routes@),
            strs_model(parts@) == pm,
            pm == path_parts(path@),
            m@ == method@,
            first_match(rm, method@, pm, 0) == first_match(rm, method@, pm, i as int),
        decreases routes@.len() - i,
    {
        assert(rm[i as int] == routes@[i as int].model());
        if routes[i].method == m {
            match bind_parts(&routes[i].segments, &parts) {
                Some(p) => {
                    assert(rm[i as int].method == method@);
                    assert(bind(rm[i as int].segments, pm) is Some);
                    assert(first_match(rm, method@, pm, i as int) == Some((i as int, p.model())));
                    proof {
                        earliest_route_answers(rm, method@, pm);
                    }
                    return Resolution::Found(i, p);
                },
                None => {},
            }
        }
        i = i + 1;
    }
    let mut j: usize = 0;
    while j < routes.len()
        invariant
            j <= routes@.len(),
            rm == routes_model(routes@),
            strs_model(parts@) == pm,
            pm == path_parts(path@),
            first_match(rm, method@, pm, 0) is None,
            forall|k: int| 0 <= k < j ==> (#[trigger] bind(rm[k].segments, pm)) is None,
        decreases routes@.len() - j,
    {
        assert(rm[j as int] == routes@[j as int].model());
        if bind_parts(&routes[j].segments, &parts).is_some() {
            assert(bind(rm[j as int].segments, pm) is Some);
            assert(path_known(rm, pm));
            return Resolution::MethodNotAllowed;
        }
        j = j + 1;
    }
    Resolution::NotFound
}

// ---------------------------------------------------------------------------
// CORS preflight routes
// ---------------------------------------------------------------------------

pub open spec fn options_method() -> Seq<char> {
    seq!['O', 'P', 'T', 'I', 'O', 'N', 'S']
}

/// Whether some route answers `OPTIONS` on exactly these segments.
pub open spec fn has_options(routes: Seq<RouteM>, segs: Seq<SegM>) -> bool {
    exists|j: int|
        0 <= j < routes.len() && (#[trigger] routes[j]).method == options_method() && routes[j].segments
            == segs
}

/// The patterns, among the first `n` routes, that need an `OPTIONS`
/// route: each pattern of a non-`OPTIONS` route that has none, once, in
/// the order first registered.
pub open spec fn preflight_upto(routes: Seq<RouteM>, n: int) -> Seq<Seq<SegM>>
    decreases n,
{
    if n <= 0 {
        Seq::empty()
    } else {
        let r = preflight_upto(routes, n - 1);
        let c = routes[n - 1];
        if c.method == options_method() || has_options(routes, c.segments) || r.contains(c.segments) {
            r
        } else {
            r.push(c.segments)
        }
    }
}

pub open spec fn preflight_patterns(routes: Seq<RouteM>) -> Seq<Seq<SegM>> {
    preflight_upto(routes, routes.len() as int)
}

fn same_segments(a: &Vec<Segment>, b: &Vec<Segment>) -> (r: bool)
    ensures
        r == (seg_models(a@) == seg_models(b@)),
{
    if a.len() != b.len() {
        assert(seg_models(a@).len() != seg_models(b@).len());
        return false;
    }
    let mut i: usize = 0;
    while i < a.len()
        invariant
            i <= a@.len(),
            a@.len() == b@.len(),
            forall|k: int| 0 <= k < i ==> seg_models(a@)[k] == seg_models(b@)[k],
        decreases a@.len() - i,
    {
        let same = match (&a[i], &b[i]) {
            (Segment::Literal(x), Segment::Literal(y)) => *x == *y,
            (Segment::Param(x), Segment::Param(y)) => *x == *y,
            _ => false,
        };
        if !same {
            assert(seg_models(a@)[i as int] != seg_models(b@)[i as int]);
            return false;
        }
        i = i + 1;
    }
    assert(seg_models(a@) =~= seg_models(b@));
    true
}

fn copy_segments(a: &Vec<Segment>) -> (r: Vec<Segment>)
    ensures
        seg_models(r@) == seg_models(a@),
{
    let mut r: Vec<Segment> = Vec::new();
    let mut i: usize = 0;
    while i < a.len()
        invariant
            i <= a@.len(),
            seg_models(r@) == seg_models(a@).subrange(0, i as int),
        decreases a@.len() - i,
    {
        let s = match &a[i] {
            Segment::Literal(x) => Segment::Literal(x.clone()),
            Segment::Param(x) => Segment::Param(x.clone()),
        };
        assert(s.model() == a@[i as int].model());
        let ghost before = r@;
        r.push(s);
        assert(seg_models(r@) =~= seg_models(before).push(s.model()));
        i = i + 1;
        assert(seg_models(r@) =~= seg_models(a@).subrange(0, i as int));
    }
    assert(seg_models(a@).subrange(0, a@.len() as int) =~= seg_models(a@));
    r
}

/// The patterns that get an `OPTIONS` route for CORS preflight (see
/// [`preflight_patterns`]).
pub fn cors_preflight_patterns(routes: &Vec<Route>) -> (r: Vec<Vec<Segment>>)
    ensures
        r@.map_values(|s: Vec<Segment>| seg_models(s@)) == preflight_patterns(routes_model(routes@)),
{
    let ghost rm = routes_model(routes@);
    let options = "OPTIONS".to_owned();
    proof {
        reveal_strlit("OPTIONS");
    }
    let mut added: Vec<Vec<Segment>> = Vec::new();
    let mut i: usize = 0;
    while i < routes.len()
        invariant
            i <= routes@.len(),
            rm == routes_model(routes@),
            options@ == options_method(),
            added@.map_values(|s: Vec<Segment>| seg_models(s@)) == preflight_upto(rm, i as int),
        decreases routes@.len() - i,
    {
        let ghost am = added@.map_values(|s: Vec<Segment>| seg_models(s@));
        let c = &routes[i];
        let mut skip = c.method == options;
        if !skip {
            let mut j: usize = 0;
            while j < routes.len()
                invariant
                    j <= routes@.len(),
                    rm == routes_model(routes@),
                    options@ == options_method(),
                    c.model() == rm[i as int],
                    i < routes@.len(),
                    !skip ==> forall|k: int|
                        0 <= k < j ==> !((#[trigger] rm[k]).method == options_method() && rm[k].segments
                            == rm[i as int].segments),
                    skip ==> has_options(rm, rm[i as int].segments),
                decreases routes@.len() - j,
            {
                if !skip && routes[j].method == options && same_segments(&routes[j].segments, &c.segments) {
                    assert(rm[j as int].method == options_method());
                    skip = true;
                }
                j = j + 1;
            }
        }
        if !skip {
            let mut k: usize = 0;
            while k < added.len()
                invariant
                    k <= added@.len(),
                    am == added@.map_values(|s: Vec<Segment>| seg_models(s@)),
                    c.model() == rm[i as int],
                    i < routes@.len(),
                    rm == routes_model(routes@),
                    !skip ==> forall|m: int| 0 <= m < k ==> am[m] != rm[i as int].segments,
                    skip ==> am.contains(rm[i as int].segments),
                decreases added@.len() - k,
            {
                if !skip && same_segments(&added[k], &c.segments) {
                    assert(am[k as int] == rm[i as int].segments);
                    skip = true;
                }
                k = k + 1;
            }
        }
        if !skip {
            let ghost before = added@;
            added.push(copy_segments(&c.segments));
            assert(added@.map_values(|s: Vec<Segment>| seg_models(s@)) =~= am.push(rm[i as int].segments));
        }
        i = i + 1;
    }
    added
}

} // verus!
