//! Routes, and how a request is matched against them.
//!
//! A route has a method and a path pattern. Pattern and request path are cut
//! into segments at each `/`; a pattern segment that starts with `:` is a
//! parameter and takes any request segment, every other segment must be equal
//! to its counterpart. Of the routes that match, the first registered wins.

use crate::strmap::distinct_keys;
use crate::strmap::has_key;
use crate::strmap::lemma_put;
use crate::strmap::lemma_to_map_dom;
use crate::strmap::lemma_to_map_len;
use crate::strmap::put;
use crate::strmap::to_map;
use crate::strmap::Entries;
use crate::strmap::StrMap;
use crate::text::chars_of;
use crate::text::str_eq;
use vstd::prelude::*;
use vstd::string::StrSliceExecFns;

verus! {

/// The bindings of path parameters: parameter name to request segment.
pub type Params = StrMap;

/// `s` cut at each occurrence of `sep`. There is always at least one piece,
/// and a piece may be empty.
pub open spec fn split_on(s: Seq<char>, sep: char) -> Seq<Seq<char>>
    decreases s.len(),
{
    if s.len() == 0 {
        seq![Seq::empty()]
    } else {
        let head = split_on(s.drop_last(), sep);
        if s.last() == sep {
            head.push(Seq::empty())
        } else {
            head.update(head.len() - 1, head.last().push(s.last()))
        }
    }
}

/// The segments of a path or of a pattern.
pub open spec fn segments(path: Seq<char>) -> Seq<Seq<char>> {
    split_on(path, '/')
}

/// A pattern segment that stands for a parameter.
pub open spec fn is_param(segment: Seq<char>) -> bool {
    segment.len() > 0 && segment[0] == ':'
}

/// The name that a parameter segment declares.
pub open spec fn param_name(segment: Seq<char>) -> Seq<char> {
    segment.skip(1)
}

/// The request segments `req` satisfy the pattern segments `pat`.
pub open spec fn segments_match(pat: Seq<Seq<char>>, req: Seq<Seq<char>>) -> bool {
    &&& pat.len() == req.len()
    &&& forall|i: int| 0 <= i < pat.len() ==> is_param(#[trigger] pat[i]) || pat[i] == req[i]
}

/// The parameters that `pat` binds on `req`, taken from left to right; a name
/// that is declared again is bound again.
pub open spec fn bind_params(pat: Seq<Seq<char>>, req: Seq<Seq<char>>) -> Entries
    decreases pat.len(),
{
    if pat.len() == 0 {
        Seq::empty()
    } else {
        let rest = bind_params(pat.drop_last(), req);
        if is_param(pat.last()) {
            put(rest, param_name(pat.last()), req[pat.len() - 1])
        } else {
            rest
        }
    }
}

/// What a [`Route`] holds.
pub struct RouteView<H> {
    pub method: Seq<char>,
    pub pattern: Seq<char>,
    pub handler: H,
}

/// One registered route.
pub struct Route<H> {
    method: String,
    path: String,
    handler: H,
}

impl<H> View for Route<H> {
    type V = RouteView<H>;

    closed spec fn view(&self) -> RouteView<H> {
        RouteView { method: self.method@, pattern: self.path@, handler: self.handler }
    }
}

/// `route` accepts a request for `path` by `method`.
pub open spec fn route_matches<H>(route: Route<H>, method: Seq<char>, path: Seq<char>) -> bool {
    &&& route@.method == method
    &&& segments_match(segments(route@.pattern), segments(path))
}

/// The first route at or after `from` that accepts the request.
pub open spec fn first_match<H>(
    routes: Seq<Route<H>>,
    method: Seq<char>,
    path: Seq<char>,
    from: int,
) -> Option<int>
    decreases routes.len() - from,
{
    if from < 0 || from >= routes.len() {
        None
    } else if route_matches(routes[from], method, path) {
        Some(from)
    } else {
        first_match(routes, method, path, from + 1)
    }
}

/// The route that the router selects for a request, if any.
pub open spec fn select<H>(routes: Seq<Route<H>>, method: Seq<char>, path: Seq<char>) -> Option<int> {
    first_match(routes, method, path, 0)
}

/// `params` is what a match on `pat` and `req` hands to the handler: nothing
/// where the pattern declares no parameter, else the bindings.
pub open spec fn params_of(params: Option<Params>, pat: Seq<Seq<char>>, req: Seq<Seq<char>>) -> bool {
    match params {
        None => bind_params(pat, req).len() == 0,
        Some(p) => p@.len() > 0 && p@ == bind_params(pat, req),
    }
}

/// The pieces put together again, with `sep` between neighbours.
pub open spec fn join(parts: Seq<Seq<char>>, sep: char) -> Seq<char>
    decreases parts.len(),
{
    if parts.len() == 0 {
        Seq::empty()
    } else if parts.len() == 1 {
        parts[0]
    } else {
        join(parts.drop_last(), sep).push(sep) + parts.last()
    }
}

/// Cutting loses nothing and leaves no separator behind: there is at least
/// one piece, no piece holds `sep`, and the pieces joined by `sep` are `s`.
pub proof fn lemma_split_on(s: Seq<char>, sep: char)
    ensures
        split_on(s, sep).len() >= 1,
        forall|k: int, i: int|
            0 <= k < split_on(s, sep).len() && 0 <= i < split_on(s, sep)[k].len() ==> #[trigger] split_on(
                s,
                sep,
            )[k][i] != sep,
        join(split_on(s, sep), sep) == s,
    decreases s.len(),
{
    let parts = split_on(s, sep);
    if s.len() == 0 {
        assert(join(parts, sep) =~= s);
    } else {
        let head = split_on(s.drop_last(), sep);
        lemma_split_on(s.drop_last(), sep);
        if s.last() == sep {
            assert(parts.drop_last() =~= head);
            assert(join(parts, sep) =~= join(head, sep).push(sep));
            assert(join(parts, sep) =~= s);
            assert forall|k: int, i: int|
                0 <= k < parts.len() && 0 <= i < parts[k].len() implies #[trigger] parts[k][i]
                != sep by {
                assert(parts[k] == head[k]);
                assert(head[k][i] != sep);
            }
        } else {
            let piece = head.last().push(s.last());
            assert forall|k: int, i: int|
                0 <= k < parts.len() && 0 <= i < parts[k].len() implies #[trigger] parts[k][i]
                != sep by {
                if k < parts.len() - 1 {
                    assert(parts[k] == head[k]);
                    assert(head[k][i] != sep);
                } else if i < head.last().len() {
                    assert(head[head.len() - 1][i] != sep);
                }
            }
            if head.len() == 1 {
                assert(join(parts, sep) =~= s);
            } else {
                assert(parts.drop_last() =~= head.drop_last());
                assert(join(parts, sep) =~= join(head, sep).push(s.last()));
                assert(join(parts, sep) =~= s);
            }
        }
    }
}

/// The number of parameter segments in `pat`.
pub open spec fn count_params(pat: Seq<Seq<char>>) -> nat
    decreases pat.len(),
{
    if pat.len() == 0 {
        0
    } else {
        count_params(pat.drop_last()) + if is_param(pat.last()) {
            1nat
        } else {
            0nat
        }
    }
}

/// Some parameter segment of `pat` declares the name `name`.
pub open spec fn declares(pat: Seq<Seq<char>>, name: Seq<char>) -> bool {
    exists|i: int| 0 <= i < pat.len() && is_param(#[trigger] pat[i]) && param_name(pat[i]) == name
}

/// No two parameter segments of `pat` declare the same name.
pub open spec fn distinct_param_names(pat: Seq<Seq<char>>) -> bool {
    forall|i: int, j: int|
        0 <= i < j < pat.len() && is_param(#[trigger] pat[i]) && is_param(#[trigger] pat[j])
            ==> param_name(pat[i]) != param_name(pat[j])
}

/// The bound names are the declared names, each once; there is no binding
/// exactly when the pattern has no parameter segment.
pub proof fn lemma_bound_names(pat: Seq<Seq<char>>, req: Seq<Seq<char>>)
    ensures
        distinct_keys(bind_params(pat, req)),
        forall|name: Seq<char>| has_key(bind_params(pat, req), name) <==> declares(pat, name),
        bind_params(pat, req).len() <= count_params(pat),
        bind_params(pat, req).len() == 0 <==> count_params(pat) == 0,
    decreases pat.len(),
{
    let b = bind_params(pat, req);
    if pat.len() == 0 {
        assert forall|name: Seq<char>| has_key(b, name) <==> declares(pat, name) by {}
    } else {
        let head = pat.drop_last();
        let rest = bind_params(head, req);
        lemma_bound_names(head, req);
        if is_param(pat.last()) {
            let nm = param_name(pat.last());
            let v = req[pat.len() - 1];
            lemma_put(rest, nm, v);
            assert forall|name: Seq<char>| has_key(b, name) <==> declares(pat, name) by {
                lemma_to_map_dom(b, name);
                lemma_to_map_dom(rest, name);
                if declares(pat, name) {
                    let i = choose|i: int|
                        0 <= i < pat.len() && is_param(#[trigger] pat[i]) && param_name(pat[i])
                            == name;
                    if i < pat.len() - 1 {
                        assert(head[i] == pat[i]);
                        assert(declares(head, name));
                    }
                }
                if declares(head, name) {
                    let i = choose|i: int|
                        0 <= i < head.len() && is_param(#[trigger] head[i]) && param_name(head[i])
                            == name;
                    assert(pat[i] == head[i]);
                }
                if name == nm {
                    assert(is_param(pat[pat.len() - 1]));
                }
            }
        } else {
            assert forall|name: Seq<char>| has_key(b, name) <==> declares(pat, name) by {
                if declares(pat, name) {
                    let i = choose|i: int|
                        0 <= i < pat.len() && is_param(#[trigger] pat[i]) && param_name(pat[i])
                            == name;
                    assert(head[i] == pat[i]);
                    assert(declares(head, name));
                }
                if declares(head, name) {
                    let i = choose|i: int|
                        0 <= i < head.len() && is_param(#[trigger] head[i]) && param_name(head[i])
                            == name;
                    assert(pat[i] == head[i]);
                }
            }
        }
    }
}

/// A pattern whose parameter segments declare distinct names binds exactly as
/// many parameters as it has parameter segments, each to the request segment
/// that stands in its place.
pub proof fn lemma_bindings(pat: Seq<Seq<char>>, req: Seq<Seq<char>>)
    requires
        pat.len() <= req.len(),
        distinct_param_names(pat),
    ensures
        bind_params(pat, req).len() == count_params(pat),
        to_map(bind_params(pat, req)).dom().finite(),
        to_map(bind_params(pat, req)).dom().len() == count_params(pat),
        forall|i: int|
            0 <= i < pat.len() && is_param(#[trigger] pat[i]) ==> to_map(
                bind_params(pat, req),
            ).dom().contains(param_name(pat[i])) && to_map(bind_params(pat, req))[param_name(
                pat[i],
            )] == req[i],
    decreases pat.len(),
{
    let b = bind_params(pat, req);
    lemma_bound_names(pat, req);
    lemma_to_map_len(b);
    if pat.len() > 0 {
        let head = pat.drop_last();
        let rest = bind_params(head, req);
        assert(distinct_param_names(head)) by {
            assert forall|i: int, j: int|
                0 <= i < j < head.len() && is_param(#[trigger] head[i]) && is_param(
                    #[trigger] head[j],
                ) implies param_name(head[i]) != param_name(head[j]) by {
                assert(head[i] == pat[i] && head[j] == pat[j]);
            }
        }
        lemma_bindings(head, req);
        lemma_bound_names(head, req);
        if is_param(pat.last()) {
            let nm = param_name(pat.last());
            let v = req[pat.len() - 1];
            lemma_put(rest, nm, v);
            assert(!has_key(rest, nm)) by {
                if declares(head, nm) {
                    let i = choose|i: int|
                        0 <= i < head.len() && is_param(#[trigger] head[i]) && param_name(head[i])
                            == nm;
                    assert(head[i] == pat[i]);
                    assert(is_param(pat[pat.len() - 1]));
                }
            }
            assert forall|i: int| 0 <= i < pat.len() && is_param(#[trigger] pat[i]) implies to_map(
                b,
            ).dom().contains(param_name(pat[i])) && to_map(b)[param_name(pat[i])] == req[i] by {
                if i < pat.len() - 1 {
                    assert(head[i] == pat[i]);
                    assert(is_param(pat[pat.len() - 1]));
                    assert(param_name(pat[i]) != nm);
                }
            }
        } else {
            assert forall|i: int| 0 <= i < pat.len() && is_param(#[trigger] pat[i]) implies to_map(
                b,
            ).dom().contains(param_name(pat[i])) && to_map(b)[param_name(pat[i])] == req[i] by {
                assert(head[i] == pat[i]);
            }
        }
    }
}

/// What [`first_match`] finds is the least matching position from `from` on.
pub proof fn lemma_first_match<H>(routes: Seq<Route<H>>, method: Seq<char>, path: Seq<char>, from: int)
    requires
        0 <= from,
    ensures
        match first_match(routes, method, path, from) {
            Some(k) => {
                &&& from <= k < routes.len()
                &&& route_matches(routes[k], method, path)
                &&& forall|e: int| from <= e < k ==> !route_matches(#[trigger] routes[e], method, path)
            },
            None => forall|e: int|
                from <= e < routes.len() ==> !route_matches(#[trigger] routes[e], method, path),
        },
    decreases routes.len() - from,
{
    if from < routes.len() && !route_matches(routes[from], method, path) {
        lemma_first_match(routes, method, path, from + 1);
    }
}

/// The selected position is a position of the table.
pub proof fn lemma_select_in_range<H>(routes: Seq<Route<H>>, method: Seq<char>, path: Seq<char>)
    ensures
        select(routes, method, path) matches Some(i) ==> 0 <= i < routes.len() && route_matches(
            routes[i],
            method,
            path,
        ),
{
    lemma_first_match(routes, method, path, 0);
}

/// Of two routes that both accept a request, the one registered first wins
/// over the other: the selected route is never the later one, and it is the
/// earlier one where no route before it accepts the request.
pub proof fn lemma_first_registered_wins<H>(
    routes: Seq<Route<H>>,
    method: Seq<char>,
    path: Seq<char>,
    i: int,
    j: int,
)
    requires
        0 <= i < j < routes.len(),
        route_matches(routes[i], method, path),
        route_matches(routes[j], method, path),
    ensures
        select(routes, method, path) matches Some(k) && k <= i,
        (forall|e: int| 0 <= e < i ==> !route_matches(#[trigger] routes[e], method, path))
            ==> select(routes, method, path) == Some(i),
{
    lemma_first_match(routes, method, path, 0);
}

/// A request whose path has another number of segments than every route's
/// pattern is accepted by none.
pub proof fn lemma_segment_count_decides<H>(routes: Seq<Route<H>>, method: Seq<char>, path: Seq<char>)
    requires
        forall|i: int|
            0 <= i < routes.len() ==> segments((#[trigger] routes[i])@.pattern).len() != segments(
                path,
            ).len(),
    ensures
        select(routes, method, path) is None,
{
    lemma_first_match(routes, method, path, 0);
}

fn split_ranges(s: &Vec<char>, sep: char) -> (r: Vec<(usize, usize)>)
    ensures
        r@.len() == split_on(s@, sep).len(),
        forall|k: int|
            0 <= k < r@.len() ==> (#[trigger] r@[k]).0 <= r@[k].1 <= s@.len() && s@.subrange(
                r@[k].0 as int,
                r@[k].1 as int,
            ) == split_on(s@, sep)[k],
{
    let mut r: Vec<(usize, usize)> = Vec::new();
    let mut start: usize = 0;
    let mut i: usize = 0;
    assert(s@.take(0) =~= Seq::<char>::empty());
    assert(s@.subrange(0, 0) =~= Seq::<char>::empty());
    while i < s.len()
        invariant
            start <= i <= s@.len(),
            split_on(s@.take(i as int), sep).len() == r@.len() + 1,
            forall|k: int|
                0 <= k < r@.len() ==> (#[trigger] r@[k]).0 <= r@[k].1 <= s@.len() && s@.subrange(
                    r@[k].0 as int,
                    r@[k].1 as int,
                ) == split_on(s@.take(i as int), sep)[k],
            split_on(s@.take(i as int), sep).last() == s@.subrange(start as int, i as int),
        decreases s@.len() - i,
    {
        let ghost before = split_on(s@.take(i as int), sep);
        let ghost old_r = r@;
        proof {
            let t = s@.take(i + 1);
            assert(t.drop_last() =~= s@.take(i as int));
            assert(t.last() == s@[i as int]);
        }
        if s[i] == sep {
            r.push((start, i));
            start = i + 1;
            proof {
                let after = split_on(s@.take(i + 1), sep);
                assert(after == before.push(Seq::empty()));
                assert(s@.subrange(i + 1, i + 1) =~= Seq::<char>::empty());
                assert forall|k: int| 0 <= k < r@.len() implies (#[trigger] r@[k]).0 <= r@[k].1
                    <= s@.len() && s@.subrange(r@[k].0 as int, r@[k].1 as int) == after[k] by {
                    if k < old_r.len() {
                        assert(r@[k] == old_r[k]);
                        assert(after[k] == before[k]);
                    }
                }
            }
        } else {
            proof {
                let after = split_on(s@.take(i + 1), sep);
                assert(after == before.update(before.len() - 1, before.last().push(s@[i as int])));
                assert(s@.subrange(start as int, i as int).push(s@[i as int]) =~= s@.subrange(
                    start as int,
                    i + 1,
                ));
                assert forall|k: int| 0 <= k < r@.len() implies (#[trigger] r@[k]).0 <= r@[k].1
                    <= s@.len() && s@.subrange(r@[k].0 as int, r@[k].1 as int) == after[k] by {
                    assert(after[k] == before[k]);
                }
            }
        }
        i = i + 1;
    }
    assert(s@.take(i as int) =~= s@);
    let ghost parts = split_on(s@, sep);
    let ghost old_r = r@;
    r.push((start, i));
    proof {
        assert forall|k: int| 0 <= k < r@.len() implies (#[trigger] r@[k]).0 <= r@[k].1 <= s@.len()
            && s@.subrange(r@[k].0 as int, r@[k].1 as int) == parts[k] by {
            if k < old_r.len() {
                assert(r@[k] == old_r[k]);
            }
        }
    }
    r
}

fn range_eq(a: &Vec<char>, a0: usize, a1: usize, b: &Vec<char>, b0: usize, b1: usize) -> (same: bool)
    requires
        a0 <= a1 <= a@.len(),
        b0 <= b1 <= b@.len(),
    ensures
        same == (a@.subrange(a0 as int, a1 as int) == b@.subrange(b0 as int, b1 as int)),
{
    let ghost x = a@.subrange(a0 as int, a1 as int);
    let ghost y = b@.subrange(b0 as int, b1 as int);
    if a1 - a0 != b1 - b0 {
        assert(x.len() != y.len());
        return false;
    }
    let n = a1 - a0;
    let mut i: usize = 0;
    while i < n
        invariant
            i <= n,
            n == a1 - a0,
            n == b1 - b0,
            a0 <= a1 <= a@.len(),
            b0 <= b1 <= b@.len(),
            x == a@.subrange(a0 as int, a1 as int),
            y == b@.subrange(b0 as int, b1 as int),
            forall|k: int| 0 <= k < i ==> x[k] == y[k],
        decreases n - i,
    {
        if a[a0 + i] != b[b0 + i] {
            assert(x[i as int] != y[i as int]);
            return false;
        }
        i = i + 1;
    }
    assert(x =~= y);
    true
}

/// Matches the segments of `pattern` against those of `path`, both given with
/// their characters and the ranges of their segments.
fn match_segments(
    pattern: &str,
    pat_chars: &Vec<char>,
    pat_ranges: &Vec<(usize, usize)>,
    path: &str,
    req_chars: &Vec<char>,
    req_ranges: &Vec<(usize, usize)>,
) -> (found: Option<Params>)
    requires
        pat_chars@ == pattern@,
        req_chars@ == path@,
        pat_ranges@.len() == segments(pattern@).len(),
        forall|k: int|
            0 <= k < pat_ranges@.len() ==> (#[trigger] pat_ranges@[k]).0 <= pat_ranges@[k].1
                <= pattern@.len() && pattern@.subrange(
                pat_ranges@[k].0 as int,
                pat_ranges@[k].1 as int,
            ) == segments(pattern@)[k],
        req_ranges@.len() == segments(path@).len(),
        forall|k: int|
            0 <= k < req_ranges@.len() ==> (#[trigger] req_ranges@[k]).0 <= req_ranges@[k].1
                <= path@.len() && path@.subrange(
                req_ranges@[k].0 as int,
                req_ranges@[k].1 as int,
            ) == segments(path@)[k],
    ensures
        match found {
            Some(p) => segments_match(segments(pattern@), segments(path@)) && p@ == bind_params(
                segments(pattern@),
                segments(path@),
            ),
            None => !segments_match(segments(pattern@), segments(path@)),
        },
{
    let ghost pat = segments(pattern@);
    let ghost req = segments(path@);
    let n = pat_ranges.len();
    if n != req_ranges.len() {
        return None;
    }
    let mut params = StrMap::new();
    let mut k: usize = 0;
    assert(pat.take(0) =~= Seq::<Seq<char>>::empty());
    while k < n
        invariant
            k <= n,
            n == pat_ranges@.len(),
            n == req_ranges@.len(),
            pat == segments(pattern@),
            req == segments(path@),
            pat.len() == n,
            req.len() == n,
            pat_chars@ == pattern@,
            req_chars@ == path@,
            forall|j: int|
                0 <= j < pat_ranges@.len() ==> (#[trigger] pat_ranges@[j]).0 <= pat_ranges@[j].1
                    <= pattern@.len() && pattern@.subrange(
                    pat_ranges@[j].0 as int,
                    pat_ranges@[j].1 as int,
                ) == pat[j],
            forall|j: int|
                0 <= j < req_ranges@.len() ==> (#[trigger] req_ranges@[j]).0 <= req_ranges@[j].1
                    <= path@.len() && path@.subrange(
                    req_ranges@[j].0 as int,
                    req_ranges@[j].1 as int,
                ) == req[j],
            forall|j: int| 0 <= j < k ==> is_param(#[trigger] pat[j]) || pat[j] == req[j],
            params@ == bind_params(pat.take(k as int), req),
        decreases n - k,
    {
        let (ps, pe) = pat_ranges[k];
        let (rs, re) = req_ranges[k];
        assert(pat_ranges@[k as int].0 == ps && pat_ranges@[k as int].1 == pe);
        assert(req_ranges@[k as int].0 == rs && req_ranges@[k as int].1 == re);
        proof {
            let t = pat.take(k + 1);
            assert(t.drop_last() =~= pat.take(k as int));
            assert(t.last() == pat[k as int]);
        }
        if pe > ps && pat_chars[ps] == ':' {
            assert(is_param(pat[k as int]));
            let name = pattern.substring_char(ps + 1, pe);
            let value = path.substring_char(rs, re);
            assert(name@ =~= param_name(pat[k as int]));
            params.set(name, value);
        } else {
            assert(!is_param(pat[k as int]));
            if !range_eq(pat_chars, ps, pe, req_chars, rs, re) {
                assert(pat[k as int] != req[k as int]);
                return None;
            }
        }
        k = k + 1;
    }
    assert(pat.take(n as int) =~= pat);
    Some(params)
}

impl<H> Route<H> {
    /// A route for `method` on the pattern `path`, served by `handler`.
    pub fn new(method: &str, path: &str, handler: H) -> (route: Route<H>)
        ensures
            route@ == (RouteView { method: method@, pattern: path@, handler }),
    {
        Route { method: method.to_owned(), path: path.to_owned(), handler }
    }

    /// The method that the route answers.
    pub fn method(&self) -> (m: &str)
        ensures
            m@ == self@.method,
    {
        self.method.as_str()
    }

    /// The path pattern of the route.
    pub fn path(&self) -> (p: &str)
        ensures
            p@ == self@.pattern,
    {
        self.path.as_str()
    }

    /// The handler of the route.
    pub fn handler(&self) -> (h: &H)
        ensures
            *h == self@.handler,
    {
        &self.handler
    }
}

/// The first route, in registration order, that accepts a request for
/// `req_path` by `method`, with the parameters that its pattern binds.
pub fn match_route<'a, H>(method: &str, req_path: &str, routes: &'a [Route<H>]) -> (found: Option<
    (&'a H, Option<Params>),
>)
    ensures
        match found {
            Some((handler, params)) => {
                &&& select(routes@, method@, req_path@) matches Some(i)
                &&& *handler == routes@[i]@.handler
                &&& params_of(params, segments(routes@[i]@.pattern), segments(req_path@))
            },
            None => select(routes@, method@, req_path@) is None,
        },
{
    let req_chars = chars_of(req_path);
    let req_ranges = split_ranges(&req_chars, '/');
    let mut i: usize = 0;
    while i < routes.len()
        invariant
            i <= routes@.len(),
            req_chars@ == req_path@,
            req_ranges@.len() == segments(req_path@).len(),
            forall|k: int|
                0 <= k < req_ranges@.len() ==> (#[trigger] req_ranges@[k]).0 <= req_ranges@[k].1
                    <= req_path@.len() && req_path@.subrange(
                    req_ranges@[k].0 as int,
                    req_ranges@[k].1 as int,
                ) == segments(req_path@)[k],
            select(routes@, method@, req_path@) == first_match(routes@, method@, req_path@, i as int),
        decreases routes@.len() - i,
    {
        let route = &routes[i];
        if str_eq(route.method.as_str(), method) {
            let pattern = route.path.as_str();
            let pat_chars = chars_of(pattern);
            let pat_ranges = split_ranges(&pat_chars, '/');
            match match_segments(pattern, &pat_chars, &pat_ranges, req_path, &req_chars, &req_ranges) {
                Some(params) => {
                    assert(route_matches(routes@[i as int], method@, req_path@));
                    if params.is_empty() {
                        return Some((&route.handler, None));
                    } else {
                        return Some((&route.handler, Some(params)));
                    }
                },
                None => {},
            }
        }
        assert(!route_matches(routes@[i as int], method@, req_path@));
        i = i + 1;
    }
    None
}

} // verus!
