//! Route shadowing: when a route of higher priority leaves another one nothing
//! to match.
//!
//! The analysis is conservative. It reports only what it can prove, and gives up
//! on regular expressions and on hosts that it cannot compare.

use crate::config::{MatchCondition, RouteConfig};
use crate::matching;
use crate::matching::Request;
use crate::routing;
use crate::text;
use vstd::prelude::*;
use vstd::string::*;

verus! {

// ---------------------------------------------------------------------------
// Model
// ---------------------------------------------------------------------------

/// Whatever has `candidate` as its value or, at a boundary, as its prefix has
/// `prefix` as a prefix at a boundary.
pub open spec fn prefix_at_boundary(prefix: Seq<char>, candidate: Seq<char>) -> bool {
    prefix.is_prefix_of(candidate) && (prefix == "/"@ || candidate.len() == prefix.len() || (
    prefix.len() > 0 && prefix.last() == '/') || candidate[prefix.len() as int] == '/')
}

/// A condition that fixes the path to have a prefix.
pub open spec fn guarantees_prefix(c: MatchCondition, prefix: Seq<char>) -> bool {
    match c {
        MatchCondition::PathPrefix(p) => prefix_at_boundary(prefix, p@),
        MatchCondition::Path(p) => prefix_at_boundary(prefix, p@),
        _ => false,
    }
}

/// A value is implied where none is required or the same one is.
pub open spec fn value_implied(
    required: Option<Seq<char>>,
    given: Option<Seq<char>>,
) -> bool {
    required is None || given == required
}

/// The names are those of one header: they differ at most in the case of ASCII
/// letters, and have one lower-case form, by which headers are looked up.
pub open spec fn same_header(a: Seq<char>, b: Seq<char>) -> bool {
    text::eq_ignore_case(a, b) && text::lowercase(a) == text::lowercase(b)
}

/// The condition `l` implies the condition `h`; conditions on methods and hosts
/// are not compared one by one.
pub open spec fn implies(l: MatchCondition, h: MatchCondition) -> bool {
    match h {
        MatchCondition::PathPrefix(p) => guarantees_prefix(l, p@),
        MatchCondition::Path(p) => l matches MatchCondition::Path(e) && e@ == p@,
        MatchCondition::PathRegex(_) => false,
        MatchCondition::Header { name, value } => l matches MatchCondition::Header {
            name: n,
            value: v,
        } && same_header(n@, name@) && value_implied(value.deep_view(), v.deep_view()),
        MatchCondition::QueryParam { name, value } => l matches MatchCondition::QueryParam {
            name: n,
            value: v,
        } && n@ == name@ && value_implied(value.deep_view(), v.deep_view()),
        MatchCondition::Host(_) => false,
        MatchCondition::Method(_) => false,
    }
}

/// The condition `h` holds of every request, or some condition of `ls` implies it.
pub open spec fn implied(ls: Seq<MatchCondition>, h: MatchCondition) -> bool {
    ||| h is Host || h is Method
    ||| h matches MatchCondition::PathPrefix(p) && p@ == "/"@
    ||| exists|j: int| 0 <= j < ls.len() && implies(#[trigger] ls[j], h)
}

/// Every condition of `hs` on the path, headers and query is implied by `ls`.
pub open spec fn conditions_implied(hs: Seq<MatchCondition>, ls: Seq<MatchCondition>) -> bool {
    forall|i: int| 0 <= i < hs.len() ==> implied(ls, #[trigger] hs[i])
}

/// A host pattern as far as the analysis reads it: without compiling it.
pub ghost enum HostKind {
    Exact(Seq<char>),
    Wildcard(Seq<char>),
    Opaque,
}

/// How the analysis reads a host pattern.
pub open spec fn host_kind(p: Seq<char>) -> HostKind {
    if "*."@.is_prefix_of(p) {
        HostKind::Wildcard(p.skip(2))
    } else if p.contains('*') || p.contains('[') {
        HostKind::Opaque
    } else {
        HostKind::Exact(p)
    }
}

/// `s` ends in `.` and `suffix`, with something before.
pub open spec fn below(s: Seq<char>, suffix: Seq<char>) -> bool {
    suffix.is_suffix_of(s) && s.len() > suffix.len() + 1 && s[s.len() - suffix.len() - 1] == '.'
}

/// Every host that matches the pattern `l` matches the pattern `h`.
pub open spec fn host_covers(h: Seq<char>, l: Seq<char>) -> bool {
    match (host_kind(h), host_kind(l)) {
        (HostKind::Exact(x), HostKind::Exact(y)) => x == y,
        (HostKind::Wildcard(x), HostKind::Exact(y)) => below(y, x),
        (HostKind::Wildcard(x), HostKind::Wildcard(y)) => x == y || (seq!['.'] + x).is_suffix_of(y),
        _ => false,
    }
}

/// Some host condition of `hs` covers the host condition `l`.
pub open spec fn host_covered(hs: Seq<MatchCondition>, l: MatchCondition) -> bool {
    exists|i: int|
        0 <= i < hs.len() && #[trigger] hs[i] is Host && host_covers(hs[i]->Host_0@, l->Host_0@)
}

/// Every host that `ls` admits is admitted by `hs`.
pub open spec fn hosts_generalize(hs: Seq<MatchCondition>, ls: Seq<MatchCondition>) -> bool {
    matching::has_host(hs) ==> matching::has_host(ls) && forall|j: int|
        0 <= j < ls.len() && #[trigger] ls[j] is Host ==> host_covered(hs, ls[j])
}

/// There is a condition on the method.
pub open spec fn has_method(cs: Seq<MatchCondition>) -> bool {
    exists|i: int| 0 <= i < cs.len() && #[trigger] cs[i] is Method
}

/// The method meets every condition on the method.
pub open spec fn admits_method(cs: Seq<MatchCondition>, m: Seq<char>) -> bool {
    forall|i: int|
        0 <= i < cs.len() && #[trigger] cs[i] is Method ==> matching::upper_methods(
            cs[i]->Method_0@,
        ).contains(m)
}

/// Every method that `ls` admits is admitted by `hs`.
pub open spec fn methods_generalize(hs: Seq<MatchCondition>, ls: Seq<MatchCondition>) -> bool {
    has_method(hs) ==> has_method(ls) && forall|m: Seq<char>| #[trigger]
        admits_method(ls, m) ==> admits_method(hs, m)
}

/// Every request that matches `lower` provably matches `higher`.
pub open spec fn route_generalizes(higher: RouteConfig, lower: RouteConfig) -> bool {
    conditions_implied(higher.matches@, lower.matches@) && hosts_generalize(
        higher.matches@,
        lower.matches@,
    ) && methods_generalize(higher.matches@, lower.matches@)
}

/// The route at `h` leaves the one at `l` nothing to match.
pub open spec fn shadows(routes: Seq<RouteConfig>, h: int, l: int) -> bool {
    h != l && routes[h].priority.weight > routes[l].priority.weight && route_generalizes(
        routes[h],
        routes[l],
    )
}

/// The first route from `from` on that shadows the one at `l`, or the length.
pub open spec fn shadower_from(routes: Seq<RouteConfig>, l: int, from: int) -> int
    decreases routes.len() - from,
{
    if from < 0 || from >= routes.len() || shadows(routes, from, l) {
        from
    } else {
        shadower_from(routes, l, from + 1)
    }
}

/// The first route that shadows the one at `l`.
pub open spec fn shadower(routes: Seq<RouteConfig>, l: int) -> Option<int> {
    let h = shadower_from(routes, l, 0);
    if h < routes.len() {
        Some(h)
    } else {
        None
    }
}

// ---------------------------------------------------------------------------
// Soundness
// ---------------------------------------------------------------------------

proof fn lemma_prefix_boundary(hp: Seq<char>, lp: Seq<char>, path: Seq<char>)
    requires
        prefix_at_boundary(hp, lp),
        matching::prefix_matches(lp, path) || path == lp,
    ensures
        matching::prefix_matches(hp, path),
{
    assert(hp.is_prefix_of(path)) by {
        assert(path.subrange(0, hp.len() as int) =~= lp.subrange(0, hp.len() as int));
    }
    if hp.len() < lp.len() {
        assert(path[hp.len() as int] == lp[hp.len() as int]) by {
            assert(path.subrange(0, lp.len() as int) =~= lp);
        }
    } else {
        assert(hp =~= lp);
    }
}

proof fn lemma_condition_implied(ls: Seq<MatchCondition>, h: MatchCondition, q: Request)
    requires
        implied(ls, h),
        !(h is Host),
        !(h is Method),
        q.path.len() > 0 && q.path[0] == '/',
        matching::others_match(ls, q),
    ensures
        matching::condition_matches(h, q),
{
    if h is PathPrefix && h->PathPrefix_0@ == "/"@ {
        reveal_strlit("/");
        assert("/"@ =~= seq!['/']);
        assert(q.path.subrange(0, 1) =~= "/"@);
    } else {
        let j = choose|j: int| 0 <= j < ls.len() && implies(#[trigger] ls[j], h);
        assert(matching::condition_matches(ls[j], q));
        match h {
            MatchCondition::PathPrefix(p) => {
                match ls[j] {
                    MatchCondition::PathPrefix(lp) => {
                        lemma_prefix_boundary(p@, lp@, q.path);
                    },
                    MatchCondition::Path(lp) => {
                        lemma_prefix_boundary(p@, lp@, q.path);
                    },
                    _ => {},
                }
            },
            _ => {},
        }
    }
}

proof fn lemma_host_covers(h: Seq<char>, l: Seq<char>, host: Seq<char>)
    requires
        host_covers(h, l),
        matching::host_matches(matching::host_pattern(l), host),
    ensures
        matching::host_matches(matching::host_pattern(h), host),
{
    let x = matching::bare_host(host);
    match (host_kind(h), host_kind(l)) {
        (HostKind::Wildcard(a), HostKind::Wildcard(b)) => {
            if a != b {
                let d = seq!['.'] + a;
                assert(d.is_suffix_of(b));
                assert(b.len() >= d.len());
                assert(a =~= x.subrange(x.len() - a.len(), x.len() as int)) by {
                    assert(b == x.subrange(x.len() - b.len(), x.len() as int));
                    assert(d == b.subrange(b.len() - d.len(), b.len() as int));
                    assert forall|i: int| 0 <= i < a.len() implies a[i] == x[x.len() - a.len() + i] by {
                        assert(d[i + 1] == a[i]);
                        assert(b[b.len() - a.len() + i] == d[i + 1]);
                    }
                }
                assert(x[x.len() - a.len() - 1] == '.') by {
                    assert(d[0] == '.');
                    assert(b[b.len() - d.len()] == d[0]);
                    assert(b == x.subrange(x.len() - b.len(), x.len() as int));
                }
            }
        },
        _ => {},
    }
}

/// Every request that matches the lower route matches the higher one. Excepted
/// are requests whose path does not begin with `/`, which the prefix `/` does
/// not match.
pub proof fn generalizing_route_matches(higher: RouteConfig, lower: RouteConfig, q: Request)
    requires
        route_generalizes(higher, lower),
        q.path.len() > 0 && q.path[0] == '/',
        matching::route_matches(lower, q),
    ensures
        matching::route_matches(higher, q),
{
    let hs = higher.matches@;
    let ls = lower.matches@;
    assert forall|i: int| 0 <= i < hs.len() && !((#[trigger] hs[i]) is Host) implies matching::condition_matches(
        hs[i],
        q,
    ) by {
        if hs[i] is Method {
            assert(admits_method(ls, q.method)) by {
                assert forall|j: int| 0 <= j < ls.len() && #[trigger] ls[j] is Method implies matching::upper_methods(
                    ls[j]->Method_0@,
                ).contains(q.method) by {
                    assert(matching::condition_matches(ls[j], q));
                    let ms = ls[j]->Method_0@;
                    let k = choose|k: int|
                        0 <= k < ms.len() && text::uppercase(#[trigger] ms[k]@) == q.method;
                    assert(matching::upper_methods(ms)[k] == q.method);
                }
            }
            assert(admits_method(hs, q.method));
            let ms = hs[i]->Method_0@;
            let up = matching::upper_methods(ms);
            let k = choose|k: int| 0 <= k < up.len() && up[k] == q.method;
            assert(text::uppercase(ms[k]@) == q.method);
        } else {
            assert(implied(ls, hs[i]));
            lemma_condition_implied(ls, hs[i], q);
        }
    }
    if matching::has_host(hs) {
        let j = choose|j: int|
            0 <= j < ls.len() && (#[trigger] ls[j]) is Host && matching::condition_matches(ls[j], q);
        assert(host_covered(hs, ls[j]));
        let i = choose|i: int|
            0 <= i < hs.len() && #[trigger] hs[i] is Host && host_covers(
                hs[i]->Host_0@,
                ls[j]->Host_0@,
            );
        lemma_host_covers(hs[i]->Host_0@, ls[j]->Host_0@, q.host);
        assert(matching::condition_matches(hs[i], q));
    }
}

pub proof fn lemma_shadower(routes: Seq<RouteConfig>, l: int, from: int)
    requires
        0 <= from <= routes.len(),
    ensures
        from <= shadower_from(routes, l, from) <= routes.len(),
        shadower_from(routes, l, from) < routes.len() ==> shadows(
            routes,
            shadower_from(routes, l, from),
            l,
        ),
        forall|j: int| from <= j < shadower_from(routes, l, from) ==> !shadows(routes, j, l),
    decreases routes.len() - from,
{
    if from < routes.len() && !shadows(routes, from, l) {
        lemma_shadower(routes, l, from + 1);
    }
}

/// A route that is reported as shadowed never wins: wherever it matches, a route
/// of higher priority is chosen.
pub proof fn shadowed_route_never_wins(
    routes: Seq<RouteConfig>,
    l: int,
    default: Option<Seq<char>>,
    q: Request,
)
    requires
        0 <= l < routes.len(),
        shadower(routes, l) is Some,
        q.path.len() > 0 && q.path[0] == '/',
        matching::route_matches(routes[l], q),
    ensures
        matching::decide(matching::ranked(routes), default, q) matches Some(w) && 0 <= w
            < routes.len() && matching::ranked(routes)[w].priority.weight
            > routes[l].priority.weight,
{
    let h = shadower(routes, l)->0;
    let table = matching::ranked(routes);
    lemma_shadower(routes, l, 0);
    generalizing_route_matches(routes[h], routes[l], q);
    matching::ranked_is_in_order(routes);
    matching::ranked_keeps_routes(routes);
    assert(table.contains(routes[h])) by {
        broadcast use vstd::seq_lib::group_to_multiset_ensures;

        assert(routes.contains(routes[h]));
        assert(routes.to_multiset().count(routes[h]) > 0);
        assert(table.to_multiset().count(routes[h]) > 0);
    }
    let k = choose|k: int| 0 <= k < table.len() && table[k] == routes[h];
    matching::lemma_first_match(table, q, 0);
    let w = matching::first_match(table, q, 0);
    assert(w <= k) by {
        if w > k {
            assert(!matching::route_matches(table[k], q));
        }
    }
    if w < k {
        assert(!matching::outranks(table[k], table[w]));
    }
}

// ---------------------------------------------------------------------------
// Analysis
// ---------------------------------------------------------------------------

fn at_boundary(prefix: &str, candidate: &str) -> (r: bool)
    ensures
        r == prefix_at_boundary(prefix@, candidate@),
{
    if !text::starts_with(candidate, prefix) {
        return false;
    }
    let p = text::chars_of(prefix);
    let c = text::chars_of(candidate);
    assert(p@.len() <= c@.len());
    text::same(prefix, "/") || c.len() == p.len() || (p.len() > 0 && p[p.len() - 1] == '/')
        || c[p.len()] == '/'
}

fn value_follows(required: &Option<String>, given: &Option<String>) -> (r: bool)
    ensures
        r == value_implied(required.deep_view(), given.deep_view()),
{
    match required {
        None => true,
        Some(x) => match given {
            Some(y) => text::same(x.as_str(), y.as_str()),
            None => false,
        },
    }
}

fn is_same_header(a: &str, b: &str) -> (r: bool)
    ensures
        r == same_header(a@, b@),
{
    let x = text::lower(a);
    let y = text::lower(b);
    text::same_ignore_case(a, b) && text::same(x.as_str(), y.as_str())
}

fn condition_follows(l: &MatchCondition, h: &MatchCondition) -> (r: bool)
    ensures
        r == implies(*l, *h),
{
    match h {
        MatchCondition::PathPrefix(p) => match l {
            MatchCondition::PathPrefix(c) => at_boundary(p.as_str(), c.as_str()),
            MatchCondition::Path(c) => at_boundary(p.as_str(), c.as_str()),
            _ => false,
        },
        MatchCondition::Path(p) => match l {
            MatchCondition::Path(e) => text::same(e.as_str(), p.as_str()),
            _ => false,
        },
        MatchCondition::Header { name, value } => match l {
            MatchCondition::Header { name: n, value: v } => is_same_header(
                n.as_str(),
                name.as_str(),
            ) && value_follows(value, v),
            _ => false,
        },
        MatchCondition::QueryParam { name, value } => match l {
            MatchCondition::QueryParam { name: n, value: v } => text::same(
                n.as_str(),
                name.as_str(),
            ) && value_follows(value, v),
            _ => false,
        },
        _ => false,
    }
}

fn is_implied(ls: &Vec<MatchCondition>, h: &MatchCondition) -> (r: bool)
    ensures
        r == implied(ls@, *h),
{
    match h {
        MatchCondition::Host(_) => {
            return true;
        },
        MatchCondition::Method(_) => {
            return true;
        },
        MatchCondition::PathPrefix(p) => {
            if text::same(p.as_str(), "/") {
                return true;
            }
        },
        _ => {},
    }
    let mut j: usize = 0;
    while j < ls.len()
        invariant
            j <= ls@.len(),
            forall|k: int| 0 <= k < j ==> !implies(#[trigger] ls@[k], *h),
        decreases ls.len() - j,
    {
        if condition_follows(&ls[j], h) {
            return true;
        }
        j = j + 1;
    }
    false
}

fn are_conditions_implied(hs: &Vec<MatchCondition>, ls: &Vec<MatchCondition>) -> (r: bool)
    ensures
        r == conditions_implied(hs@, ls@),
{
    let mut i: usize = 0;
    while i < hs.len()
        invariant
            i <= hs@.len(),
            forall|k: int| 0 <= k < i ==> implied(ls@, #[trigger] hs@[k]),
        decreases hs.len() - i,
    {
        if !is_implied(ls, &hs[i]) {
            return false;
        }
        i = i + 1;
    }
    true
}

fn covers(h: &str, l: &str) -> (r: bool)
    ensures
        r == host_covers(h@, l@),
{
    proof {
        reveal_strlit("*.");
    }
    let hv = text::chars_of(h);
    let lv = text::chars_of(l);
    let h_wild = text::starts_with(h, "*.");
    let l_wild = text::starts_with(l, "*.");
    if !h_wild && (text::contains_char(h, '*') || text::contains_char(h, '[')) {
        return false;
    }
    if !l_wild && (text::contains_char(l, '*') || text::contains_char(l, '[')) {
        return false;
    }
    if h_wild {
        let x = text::string_of_range(hv.as_slice(), 2, hv.len());
        assert(x@ =~= h@.skip(2));
        let n: usize = hv.len() - 2;
        if l_wild {
            let y = text::string_of_range(lv.as_slice(), 2, lv.len());
            assert(y@ =~= l@.skip(2));
            let mut dotted = String::new();
            dotted.push('.');
            dotted.append(x.as_str());
            assert(dotted@ =~= seq!['.'] + x@);
            text::same(x.as_str(), y.as_str()) || text::ends_with(y.as_str(), dotted.as_str())
        } else {
            text::ends_with(l, x.as_str()) && lv.len() - n > 1 && lv[lv.len() - n - 1] == '.'
        }
    } else if l_wild {
        false
    } else {
        text::same(h, l)
    }
}

fn is_host_covered(hs: &Vec<MatchCondition>, l: &str) -> (r: bool)
    ensures
        r == exists|i: int|
            0 <= i < hs@.len() && #[trigger] hs@[i] is Host && host_covers(hs@[i]->Host_0@, l@),
{
    let mut i: usize = 0;
    while i < hs.len()
        invariant
            i <= hs@.len(),
            forall|k: int|
                0 <= k < i && #[trigger] hs@[k] is Host ==> !host_covers(hs@[k]->Host_0@, l@),
        decreases hs.len() - i,
    {
        match &hs[i] {
            MatchCondition::Host(h) => {
                if covers(h.as_str(), l) {
                    return true;
                }
            },
            _ => {},
        }
        i = i + 1;
    }
    false
}

fn any_host(cs: &Vec<MatchCondition>) -> (r: bool)
    ensures
        r == matching::has_host(cs@),
{
    let mut i: usize = 0;
    while i < cs.len()
        invariant
            i <= cs@.len(),
            forall|k: int| 0 <= k < i ==> !(#[trigger] cs@[k] is Host),
        decreases cs.len() - i,
    {
        match &cs[i] {
            MatchCondition::Host(_) => {
                return true;
            },
            _ => {},
        }
        i = i + 1;
    }
    false
}

fn do_hosts_generalize(hs: &Vec<MatchCondition>, ls: &Vec<MatchCondition>) -> (r: bool)
    ensures
        r == hosts_generalize(hs@, ls@),
{
    if !any_host(hs) {
        return true;
    }
    if !any_host(ls) {
        return false;
    }
    let mut j: usize = 0;
    while j < ls.len()
        invariant
            j <= ls@.len(),
            matching::has_host(hs@),
            forall|k: int| 0 <= k < j && #[trigger] ls@[k] is Host ==> host_covered(hs@, ls@[k]),
        decreases ls.len() - j,
    {
        match &ls[j] {
            MatchCondition::Host(l) => {
                if !is_host_covered(hs, l.as_str()) {
                    assert(ls@[j as int] is Host && !host_covered(hs@, ls@[j as int]));
                    return false;
                }
                assert(host_covered(hs@, ls@[j as int]));
            },
            _ => {},
        }
        j = j + 1;
    }
    true
}

/// Index of the first condition on the method, or the length.
fn first_method(cs: &Vec<MatchCondition>) -> (r: usize)
    ensures
        r <= cs@.len(),
        r < cs@.len() ==> cs@[r as int] is Method,
        forall|k: int| 0 <= k < r ==> !(#[trigger] cs@[k] is Method),
{
    let mut i: usize = 0;
    while i < cs.len()
        invariant
            i <= cs@.len(),
            forall|k: int| 0 <= k < i ==> !(#[trigger] cs@[k] is Method),
        decreases cs.len() - i,
    {
        match &cs[i] {
            MatchCondition::Method(_) => {
                return i;
            },
            _ => {},
        }
        i = i + 1;
    }
    i
}

fn is_method_admitted(cs: &Vec<MatchCondition>, m: &str) -> (r: bool)
    ensures
        r == admits_method(cs@, m@),
{
    let mut i: usize = 0;
    while i < cs.len()
        invariant
            i <= cs@.len(),
            forall|k: int|
                0 <= k < i && #[trigger] cs@[k] is Method ==> matching::upper_methods(
                    cs@[k]->Method_0@,
                ).contains(m@),
        decreases cs.len() - i,
    {
        match &cs[i] {
            MatchCondition::Method(ms) => {
                let up = routing::upper_all(ms);
                if !text::has_text(&up, m) {
                    return false;
                }
            },
            _ => {},
        }
        i = i + 1;
    }
    true
}

fn do_methods_generalize(hs: &Vec<MatchCondition>, ls: &Vec<MatchCondition>) -> (r: bool)
    ensures
        r == methods_generalize(hs@, ls@),
{
    if first_method(hs) == hs.len() {
        return true;
    }
    let f = first_method(ls);
    if f == ls.len() {
        return false;
    }
    assert(has_method(ls@)) by {
        assert(ls@[f as int] is Method);
    }
    match &ls[f] {
        MatchCondition::Method(ms) => {
            let up = routing::upper_all(ms);
            let ghost all = up.deep_view();
            let mut i: usize = 0;
            while i < up.len()
                invariant
                    i <= up@.len(),
                    all == up.deep_view(),
                    all.len() == up@.len(),
                    forall|k: int|
                        0 <= k < i && admits_method(ls@, #[trigger] all[k]) ==> admits_method(
                            hs@,
                            all[k],
                        ),
                decreases up.len() - i,
            {
                assert(all[i as int] == up@[i as int]@);
                if is_method_admitted(ls, up[i].as_str()) && !is_method_admitted(
                    hs,
                    up[i].as_str(),
                ) {
                    return false;
                }
                i = i + 1;
            }
            assert forall|m: Seq<char>| #[trigger] admits_method(ls@, m) implies admits_method(
                hs@,
                m,
            ) by {
                assert(ls@[f as int] is Method);
                assert(all.contains(m));
            }
            true
        },
        _ => false,
    }
}

/// [`route_generalizes`] on routes.
pub fn does_generalize(higher: &RouteConfig, lower: &RouteConfig) -> (r: bool)
    ensures
        r == route_generalizes(*higher, *lower),
{
    are_conditions_implied(&higher.matches, &lower.matches) && do_hosts_generalize(
        &higher.matches,
        &lower.matches,
    ) && do_methods_generalize(&higher.matches, &lower.matches)
}

/// The route that shadows the one at `target`, if there is one.
pub fn shadowing_route(routes: &Vec<RouteConfig>, target: usize) -> (r: Option<usize>)
    requires
        target < routes@.len(),
    ensures
        (match r {
            Some(h) => shadower(routes@, target as int) == Some(h as int) && h < routes@.len(),
            None => shadower(routes@, target as int) is None,
        }),
{
    let mut h: usize = 0;
    while h < routes.len()
        invariant
            h <= routes@.len(),
            target < routes@.len(),
            shadower_from(routes@, target as int, 0) == shadower_from(
                routes@,
                target as int,
                h as int,
            ),
        decreases routes.len() - h,
    {
        if h != target && routes[h].priority.weight > routes[target].priority.weight
            && does_generalize(&routes[h], &routes[target]) {
            return Some(h);
        }
        h = h + 1;
    }
    None
}

// ---------------------------------------------------------------------------
// What is found
// ---------------------------------------------------------------------------

/// A route is reported as shadowed exactly if a route of higher priority provably matches
/// whatever it matches; the one that is named is the first such in the configuration.
pub proof fn first_shadowing_route_is_named(routes: Seq<RouteConfig>, l: int)
    requires
        0 <= l < routes.len(),
    ensures
        shadower(routes, l) is Some <==> exists|h: int|
            0 <= h < routes.len() && (#[trigger] routes[h]).priority.weight
                > routes[l].priority.weight && route_generalizes(routes[h], routes[l]),
        shadower(routes, l) matches Some(h) ==> 0 <= h < routes.len() && routes[h].priority.weight
            > routes[l].priority.weight && route_generalizes(routes[h], routes[l]) && forall|
            j: int,
        |
            0 <= j < h && (#[trigger] routes[j]).priority.weight > routes[l].priority.weight
                ==> !route_generalizes(routes[j], routes[l]),
{
    lemma_shadower(routes, l, 0);
    if exists|h: int|
        0 <= h < routes.len() && (#[trigger] routes[h]).priority.weight > routes[l].priority.weight
            && route_generalizes(routes[h], routes[l]) {
        let h = choose|h: int|
            0 <= h < routes.len() && (#[trigger] routes[h]).priority.weight
                > routes[l].priority.weight && route_generalizes(routes[h], routes[l]);
        assert(shadows(routes, h, l));
    }
    let k = shadower_from(routes, l, 0);
    assert forall|j: int|
        0 <= j < k && (#[trigger] routes[j]).priority.weight
            > routes[l].priority.weight implies !route_generalizes(routes[j], routes[l]) by {
        assert(!shadows(routes, j, l));
    }
}

proof fn lemma_only_conditions(a: RouteConfig, x: MatchCondition, b: RouteConfig, y: MatchCondition)
    requires
        matching::has_only(a, x),
        matching::has_only(b, y),
        !(x is Host) && !(x is Method),
        !(x is PathPrefix) || x->PathPrefix_0@ != "/"@,
    ensures
        route_generalizes(a, b) <==> implies(y, x),
{
    let hs = a.matches@;
    let ls = b.matches@;
    assert(hs[0] == x && ls[0] == y);
    if implies(y, x) {
        assert(implied(ls, hs[0]));
    }
    if conditions_implied(hs, ls) {
        assert(implied(ls, hs[0]));
        let j = choose|j: int| 0 <= j < ls.len() && implies(#[trigger] ls[j], x);
        assert(ls[j] == y);
    }
}

/// A route for a prefix takes everything from a route for a path, or for a prefix, that
/// lies in it by whole segments, and from no other.
pub proof fn prefix_covers_what_lies_in_it(
    a: RouteConfig,
    p: String,
    b: RouteConfig,
    y: MatchCondition,
    q: Seq<char>,
)
    requires
        matching::has_only(a, MatchCondition::PathPrefix(p)),
        matching::has_only(b, y),
        (y matches MatchCondition::Path(s) && s@ == q) || (y matches MatchCondition::PathPrefix(s)
            && s@ == q),
        p@.len() > 0,
    ensures
        route_generalizes(a, b) <==> q == p@ || p@ == seq!['/'] || (p@.last() == '/'
            && q.len() >= p@.len() && q.take(p@.len() as int) == p@) || (q.len() > p@.len()
            && q.take((p@.len() + 1) as int) == p@.push('/')),
{
    reveal_strlit("/");
    assert("/"@ =~= seq!['/']);
    let x = MatchCondition::PathPrefix(p);
    let hs = a.matches@;
    let ls = b.matches@;
    assert(hs[0] == x && ls[0] == y);
    assert(p@.is_prefix_of(q) <==> q.len() >= p@.len() && q.take(p@.len() as int) == p@) by {
        if q.len() >= p@.len() {
            assert(q.take(p@.len() as int) =~= q.subrange(0, p@.len() as int));
        }
    }
    assert((q.len() > p@.len() && q.take((p@.len() + 1) as int) == p@.push('/')) <==> (q.len() > p@.len()
        && p@.is_prefix_of(q) && q[p@.len() as int] == '/')) by {
        if q.len() > p@.len() {
            let t = q.take((p@.len() + 1) as int);
            if t == p@.push('/') {
                assert(t[p@.len() as int] == '/');
                assert(q.take(p@.len() as int) =~= p@) by {
                    assert forall|i: int| 0 <= i < p@.len() implies q[i] == p@[i] by {
                        assert(t[i] == p@[i]);
                    }
                }
            }
            if p@.is_prefix_of(q) && q[p@.len() as int] == '/' {
                assert(t =~= p@.push('/'));
            }
        }
    }
    assert((p@.is_prefix_of(q) && q.len() == p@.len()) <==> q == p@) by {
        if q == p@ {
            assert(q.take(p@.len() as int) =~= p@);
        }
        if p@.is_prefix_of(q) && q.len() == p@.len() {
            assert(q.take(p@.len() as int) =~= q);
        }
    }
    if p@ == "/"@ {
        assert(implied(ls, hs[0]));
        assert(conditions_implied(hs, ls));
    } else {
        lemma_only_conditions(a, x, b, y);
    }
}

/// A route for one path takes everything from a route for the same path, and from no route
/// for another path, for a prefix or for a pattern. A route for a pattern takes everything
/// from none that is known.
pub proof fn path_covers_itself(a: RouteConfig, p: String, b: RouteConfig, y: MatchCondition)
    requires
        matching::has_only(b, y),
    ensures
        matching::has_only(a, MatchCondition::Path(p)) ==> (route_generalizes(a, b) <==> (
        y matches MatchCondition::Path(q) && q@ == p@)),
        matching::has_only(a, MatchCondition::PathRegex(p)) ==> !route_generalizes(a, b),
{
    if matching::has_only(a, MatchCondition::Path(p)) {
        lemma_only_conditions(a, MatchCondition::Path(p), b, y);
    }
    if matching::has_only(a, MatchCondition::PathRegex(p)) {
        lemma_only_conditions(a, MatchCondition::PathRegex(p), b, y);
    }
}

/// A route that asks for a header or a parameter takes everything from a route that asks
/// for it too, with the same value if it asks for one; and from no other.
pub proof fn named_value_covers_the_same(
    a: RouteConfig,
    name: String,
    value: Option<String>,
    b: RouteConfig,
    y: MatchCondition,
)
    requires
        matching::has_only(b, y),
    ensures
        matching::has_only(a, (MatchCondition::QueryParam { name, value })) ==> (route_generalizes(
            a,
            b,
        ) <==> (y matches MatchCondition::QueryParam { name: n, value: v } && n@ == name@ && (
        value is None || (v is Some && v->0@ == value->0@)))),
        matching::has_only(a, (MatchCondition::Header { name, value })) ==> (route_generalizes(a, b)
            <==> (y matches MatchCondition::Header { name: n, value: v } && text::eq_ignore_case(
            n@,
            name@,
        ) && text::lowercase(n@) == text::lowercase(name@) && (value is None || (v is Some && v->0@
            == value->0@)))),
{
    if matching::has_only(a, MatchCondition::QueryParam { name, value }) {
        lemma_only_conditions(a, MatchCondition::QueryParam { name, value }, b, y);
    }
    if matching::has_only(a, MatchCondition::Header { name, value }) {
        lemma_only_conditions(a, MatchCondition::Header { name, value }, b, y);
    }
}

/// The method is in the list, but for case.
pub open spec fn lists(methods: Seq<String>, m: Seq<char>) -> bool {
    exists|i: int|
        0 <= i < methods.len() && text::uppercase(#[trigger] methods[i]@) == text::uppercase(m)
}

/// A route for methods takes everything from a route for some of them, in whatever case
/// they are written, and from no other.
pub proof fn methods_cover_some_of_them(a: RouteConfig, x: Vec<String>, b: RouteConfig, y: MatchCondition)
    requires
        matching::has_only(a, MatchCondition::Method(x)),
        matching::has_only(b, y),
    ensures
        route_generalizes(a, b) <==> (y matches MatchCondition::Method(ms) && forall|j: int|
            0 <= j < ms@.len() ==> lists(x@, (#[trigger] ms@[j])@)),
{
    let hs = a.matches@;
    let ls = b.matches@;
    assert(hs[0] == MatchCondition::Method(x) && ls[0] == y);
    assert(has_method(hs));
    assert(conditions_implied(hs, ls)) by {
        assert(implied(ls, hs[0]));
    }
    if let MatchCondition::Method(ms) = y {
        let ux = matching::upper_methods(x@);
        let um = matching::upper_methods(ms@);
        assert(has_method(ls));
        assert forall|m: Seq<char>| #[trigger] admits_method(ls, m) <==> um.contains(m) by {
            if um.contains(m) {
                assert forall|i: int| 0 <= i < ls.len() && #[trigger] ls[i] is Method implies matching::upper_methods(
                    ls[i]->Method_0@,
                ).contains(m) by {}
            }
            if admits_method(ls, m) {
                assert(ls[0] is Method);
            }
        }
        assert forall|m: Seq<char>| #[trigger] admits_method(hs, m) <==> ux.contains(m) by {
            if ux.contains(m) {
                assert forall|i: int| 0 <= i < hs.len() && #[trigger] hs[i] is Method implies matching::upper_methods(
                    hs[i]->Method_0@,
                ).contains(m) by {}
            }
            if admits_method(hs, m) {
                assert(hs[0] is Method);
            }
        }
        if methods_generalize(hs, ls) {
            assert forall|j: int| 0 <= j < ms@.len() implies lists(
                x@,
                (#[trigger] ms@[j])@,
            ) by {
                let m = text::uppercase(ms@[j]@);
                assert(um[j] == m);
                assert(admits_method(ls, m));
                assert(ux.contains(m));
                let i = choose|i: int| 0 <= i < ux.len() && ux[i] == m;
                assert(text::uppercase(x@[i]@) == m);
            }
        }
        if forall|j: int| 0 <= j < ms@.len() ==> lists(x@, (#[trigger] ms@[j])@) {
            assert forall|m: Seq<char>| #[trigger] admits_method(ls, m) implies admits_method(
                hs,
                m,
            ) by {
                assert(um.contains(m));
                let j = choose|j: int| 0 <= j < um.len() && um[j] == m;
                assert(text::uppercase(ms@[j]@) == m);
                assert(lists(x@, ms@[j]@));
                let i = choose|i: int|
                    0 <= i < x@.len() && text::uppercase(#[trigger] x@[i]@) == text::uppercase(
                        ms@[j]@,
                    );
                assert(ux[i] == m);
            }
        }
        assert(!matching::has_host(hs));
    } else {
        assert(!has_method(ls));
    }
}

/// A route for a host name takes everything from a route for that name only. One for the
/// names below a domain takes everything from a route for such a name, for the same names,
/// and for the names below a domain that lies below it.
pub proof fn host_covers_what_lies_below(a: RouteConfig, x: String, b: RouteConfig, y: String)
    requires
        matching::has_only(a, MatchCondition::Host(x)),
        matching::has_only(b, MatchCondition::Host(y)),
    ensures
        !x@.contains('*') && !x@.contains('[') && !y@.contains('*') && !y@.contains('[') ==> (
        route_generalizes(a, b) <==> x@ == y@),
        !x@.contains('*') && !x@.contains('[') && y@.len() >= 2 && y@.take(2) == seq!['*', '.']
            ==> !route_generalizes(a, b),
        x@.len() >= 2 && x@.take(2) == seq!['*', '.'] && !y@.contains('*') && !y@.contains('[')
            ==> (route_generalizes(a, b) <==> y@.len() >= x@.len() && y@.skip(
            y@.len() - x@.len() + 1,
        ) == x@.skip(1)),
        x@.len() >= 2 && x@.take(2) == seq!['*', '.'] && y@.len() >= 2 && y@.take(2)
            == seq!['*', '.'] ==> (route_generalizes(a, b) <==> y@ == x@ || (y@.len() > x@.len()
            && y@.skip(y@.len() - x@.len() + 1) == x@.skip(1))),
{
    let hs = a.matches@;
    let ls = b.matches@;
    assert(hs[0] == MatchCondition::Host(x) && ls[0] == MatchCondition::Host(y));
    assert(conditions_implied(hs, ls)) by {
        assert(implied(ls, hs[0]));
    }
    assert(!has_method(hs));
    assert(matching::has_host(hs) && matching::has_host(ls));
    assert(route_generalizes(a, b) <==> host_covers(x@, y@)) by {
        if host_covers(x@, y@) {
            assert forall|j: int| 0 <= j < ls.len() && #[trigger] ls[j] is Host implies host_covered(
                hs,
                ls[j],
            ) by {
                assert(hs[0] is Host);
            }
        }
        if hosts_generalize(hs, ls) {
            assert(ls[0] is Host);
            assert(host_covered(hs, ls[0]));
        }
    }
    lemma_star(x@);
    lemma_star(y@);
    let s = x@.skip(2);
    let t = y@.skip(2);
    if x@.len() >= 2 && x@.take(2) == seq!['*', '.'] {
        assert(x@.take(2)[1] == '.');
        assert(x@.skip(1) =~= seq!['.'] + s);
        if !y@.contains('*') && !y@.contains('[') {
            assert(host_covers(x@, y@) == below(y@, s));
            assert(below(y@, s) <==> y@.len() >= x@.len() && y@.skip(y@.len() - x@.len() + 1)
                == x@.skip(1)) by {
                lemma_below(y@, s);
            }
        }
        if y@.len() >= 2 && y@.take(2) == seq!['*', '.'] {
            assert(y@.take(2)[0] == '*' && y@.take(2)[1] == '.');
            assert(y@ == x@ <==> s == t) by {
                if s == t {
                    assert(y@ =~= seq!['*', '.'] + t);
                    assert(x@ =~= seq!['*', '.'] + s);
                }
            }
            let d = seq!['.'] + s;
            assert(d.is_suffix_of(t) <==> y@.len() > x@.len() && y@.skip(y@.len() - x@.len() + 1)
                == x@.skip(1)) by {
                if y@.len() > x@.len() {
                    assert(y@.skip(y@.len() - x@.len() + 1) =~= t.subrange(
                        t.len() - d.len(),
                        t.len() as int,
                    ));
                }
            }
        }
    }
}

proof fn lemma_star(p: Seq<char>)
    ensures
        "*."@.is_prefix_of(p) <==> p.len() >= 2 && p.take(2) == seq!['*', '.'],
        p.len() >= 2 && p.take(2) == seq!['*', '.'] ==> p.contains('*'),
{
    reveal_strlit("*.");
    assert("*."@ =~= seq!['*', '.']);
    if p.len() >= 2 {
        assert(p.take(2) =~= p.subrange(0, 2));
        if p.take(2) == seq!['*', '.'] {
            assert(p.take(2)[0] == '*');
            assert(p[0] == '*');
        }
    }
}

proof fn lemma_below(y: Seq<char>, s: Seq<char>)
    ensures
        below(y, s) <==> y.len() >= s.len() + 2 && y.skip(y.len() - s.len() - 1) == seq!['.'] + s,
{
    if y.len() >= s.len() + 2 {
        let tail = y.skip(y.len() - s.len() - 1);
        let d = seq!['.'] + s;
        assert(y.subrange(y.len() - s.len(), y.len() as int) =~= tail.skip(1));
        if tail == d {
            assert(tail[0] == '.');
            assert(tail.skip(1) =~= s);
        }
        if below(y, s) {
            assert(tail =~= d) by {
                assert forall|i: int| 0 <= i < tail.len() implies tail[i] == d[i] by {
                    if i > 0 {
                        assert(tail.skip(1)[i - 1] == tail[i]);
                        assert(s[i - 1] == d[i]);
                    }
                }
            }
        }
    }
}

/// A route that asks for nothing takes everything from every other, and one that asks for
/// more still loses everything to what it lost it to.
pub proof fn asking_more_stays_covered(higher: RouteConfig, lower: RouteConfig, narrower: RouteConfig, c: MatchCondition)
    requires
        narrower.matches@ == lower.matches@.push(c),
        !(c is Host),
    ensures
        higher.matches@.len() == 0 ==> route_generalizes(higher, lower),
        route_generalizes(higher, lower) ==> route_generalizes(higher, narrower),
{
    let hs = higher.matches@;
    let ls = lower.matches@;
    let ns = narrower.matches@;
    assert forall|j: int| 0 <= j < ls.len() implies ns[j] == #[trigger] ls[j] by {}
    if route_generalizes(higher, lower) {
        assert forall|i: int| 0 <= i < hs.len() implies implied(ns, #[trigger] hs[i]) by {
            assert(implied(ls, hs[i]));
            if exists|j: int| 0 <= j < ls.len() && implies(#[trigger] ls[j], hs[i]) {
                let j = choose|j: int| 0 <= j < ls.len() && implies(#[trigger] ls[j], hs[i]);
                assert(ns[j] == ls[j]);
            }
        }
        if matching::has_host(hs) {
            let j = choose|j: int| 0 <= j < ls.len() && #[trigger] ls[j] is Host;
            assert(ns[j] is Host);
            assert forall|k: int| 0 <= k < ns.len() && #[trigger] ns[k] is Host implies host_covered(
                hs,
                ns[k],
            ) by {
                assert(ls[k] is Host);
            }
        }
        if has_method(hs) {
            let j = choose|j: int| 0 <= j < ls.len() && #[trigger] ls[j] is Method;
            assert(ns[j] is Method);
            assert forall|m: Seq<char>| #[trigger] admits_method(ns, m) implies admits_method(
                hs,
                m,
            ) by {
                assert(admits_method(ls, m)) by {
                    assert forall|k: int| 0 <= k < ls.len() && #[trigger] ls[k] is Method implies matching::upper_methods(
                        ls[k]->Method_0@,
                    ).contains(m) by {
                        assert(ns[k] is Method);
                    }
                }
            }
        }
    }
    if hs.len() == 0 {
        assert(!has_method(hs));
        assert(!matching::has_host(hs));
    }
}

} // verus!
