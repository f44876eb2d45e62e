//! What it means for a request to match a route.
//!
//! Host conditions of a route are alternatives; all other conditions must hold.

use crate::config::{MatchCondition, RouteConfig};
use crate::pattern;
use crate::strmap;
use crate::text;
use vstd::prelude::*;
use vstd::string::*;
use vstd::utf8::*;

verus! {

/// A request as plain values. Headers and query parameters are in key order.
#[verifier::ext_equal]
pub ghost struct Request {
    pub method: Seq<char>,
    pub path: Seq<char>,
    pub host: Seq<char>,
    pub headers: Seq<(Seq<char>, Seq<char>)>,
    pub query: Seq<(Seq<char>, Seq<char>)>,
}

/// `path` begins with `prefix` and the prefix ends at a segment boundary:
/// `/v2` matches `/v2`, `/v2/x` and `/v2?q`, but not `/v2x`.
pub open spec fn prefix_matches(prefix: Seq<char>, path: Seq<char>) -> bool {
    prefix.is_prefix_of(path) && (prefix == "/"@ || path.len() == prefix.len() || (prefix.len() > 0
        && prefix.last() == '/') || path[prefix.len() as int] == '/' || path[prefix.len() as int]
        == '?')
}

/// How a host pattern is read.
pub ghost enum HostPattern {
    Exact(Seq<char>),
    Wildcard { suffix: Seq<char> },
    Regex(Seq<char>),
}

/// `*.suffix` is a wildcard. Another pattern with `*` or `[` is a regular
/// expression if it compiles; everything else is exact.
pub open spec fn host_pattern(p: Seq<char>) -> HostPattern {
    if "*."@.is_prefix_of(p) {
        HostPattern::Wildcard { suffix: p.skip(2) }
    } else if (p.contains('*') || p.contains('[')) && pattern::regex_error(p) is None {
        HostPattern::Regex(p)
    } else {
        HostPattern::Exact(p)
    }
}

/// The host without a port.
pub open spec fn bare_host(host: Seq<char>) -> Seq<char> {
    host.take(text::find_char(host, ':'))
}

/// The host, without a port, matches the pattern. A wildcard stands for one or
/// more labels in front of its suffix.
pub open spec fn host_matches(p: HostPattern, host: Seq<char>) -> bool {
    let h = bare_host(host);
    match p {
        HostPattern::Exact(e) => h == e,
        HostPattern::Wildcard { suffix } => suffix.is_suffix_of(h) && h.len() > suffix.len()
            && h[h.len() - suffix.len() - 1] == '.',
        HostPattern::Regex(r) => pattern::regex_matches(r, h),
    }
}

/// A port never decides: what is behind the first colon of a host is cut. An exact
/// pattern matches the host that it spells. A wildcard matches exactly the hosts that
/// are some text, a dot and its suffix, so neither the suffix itself nor a longer word
/// that ends in it.
pub proof fn hosts_match_by_whole_labels(p: HostPattern, host: Seq<char>)
    ensures
        !bare_host(host).contains(':'),
        !host.contains(':') ==> bare_host(host) == host,
        host_matches(p, host) == host_matches(p, bare_host(host)),
        forall|port: Seq<char>|
            host_matches(p, #[trigger] (bare_host(host) + seq![':'] + port)) == host_matches(p, host),
        p matches HostPattern::Exact(e) ==> (host_matches(p, host) <==> bare_host(host) == e),
        p matches HostPattern::Wildcard { suffix } ==> (host_matches(p, host) <==> exists|x: Seq<char>|
            bare_host(host) == #[trigger] (x + seq!['.'] + suffix)),
        p matches HostPattern::Wildcard { suffix } ==> bare_host(host) == suffix ==> !host_matches(
            p,
            host,
        ),
{
    let h = bare_host(host);
    text::lemma_find_from(host, ':', 0);
    text::lemma_find_from(h, ':', 0);
    assert(!h.contains(':')) by {
        assert forall|i: int| 0 <= i < h.len() implies h[i] != ':' by {
            assert(h[i] == host[i]);
        }
    }
    assert(bare_host(h) =~= h);
    if !host.contains(':') {
        assert(h =~= host);
    }
    assert forall|port: Seq<char>| host_matches(p, #[trigger] (h + seq![':'] + port)) == host_matches(
        p,
        host,
    ) by {
        let t = h + seq![':'] + port;
        text::lemma_find_from(t, ':', 0);
        assert(t[h.len() as int] == ':');
        let k = text::find_char(t, ':');
        if k < h.len() {
            assert(t[k] == h[k]);
        }
        assert(bare_host(t) =~= h);
    }
    if let HostPattern::Wildcard { suffix } = p {
        if host_matches(p, host) {
            let n = h.len() - suffix.len() - 1;
            assert(h =~= h.take(n) + seq!['.'] + suffix);
        }
        assert forall|x: Seq<char>| h == #[trigger] (x + seq!['.'] + suffix) implies host_matches(
            p,
            host,
        ) by {
            let t = x + seq!['.'] + suffix;
            assert(t.subrange(t.len() - suffix.len(), t.len() as int) =~= suffix);
            assert(t[x.len() as int] == '.');
        }
    }
}

/// A required value is the value that is there; without one, presence is enough.
pub open spec fn value_matches(
    found: Option<Seq<char>>,
    required: Option<Seq<char>>,
) -> bool {
    match found {
        Some(v) => required matches Some(w) ==> v == w,
        None => false,
    }
}

/// The request meets the condition.
pub open spec fn condition_matches(c: MatchCondition, q: Request) -> bool {
    match c {
        MatchCondition::Path(p) => q.path == p@,
        MatchCondition::PathPrefix(p) => prefix_matches(p@, q.path),
        MatchCondition::PathRegex(p) => pattern::regex_matches(p@, q.path),
        MatchCondition::Host(p) => host_matches(host_pattern(p@), q.host),
        MatchCondition::Header { name, value } => value_matches(
            strmap::get(q.headers, text::lowercase(name@)),
            value.deep_view(),
        ),
        MatchCondition::Method(methods) => exists|i: int|
            0 <= i < methods@.len() && text::uppercase(#[trigger] methods@[i]@) == q.method,
        MatchCondition::QueryParam { name, value } => value_matches(
            strmap::get(q.query, name@),
            value.deep_view(),
        ),
    }
}

/// All conditions but those on the host hold.
pub open spec fn others_match(cs: Seq<MatchCondition>, q: Request) -> bool {
    forall|i: int|
        0 <= i < cs.len() && !((#[trigger] cs[i]) is Host) ==> condition_matches(cs[i], q)
}

/// There is a condition on the host.
pub open spec fn has_host(cs: Seq<MatchCondition>) -> bool {
    exists|i: int| 0 <= i < cs.len() && (#[trigger] cs[i]) is Host
}

/// A condition on the host holds.
pub open spec fn some_host_matches(cs: Seq<MatchCondition>, q: Request) -> bool {
    exists|i: int| 0 <= i < cs.len() && (#[trigger] cs[i]) is Host && condition_matches(cs[i], q)
}

/// The request matches the conditions of a route: all that are not on the host,
/// and, if there are conditions on the host, one of those.
pub open spec fn conditions_match(cs: Seq<MatchCondition>, q: Request) -> bool {
    others_match(cs, q) && (has_host(cs) ==> some_host_matches(cs, q))
}

/// The request matches the route.
pub open spec fn route_matches(r: RouteConfig, q: Request) -> bool {
    conditions_match(r.matches@, q)
}

// ---------------------------------------------------------------------------
// Specificity
// ---------------------------------------------------------------------------

/// How specific a set of conditions is. The path comes first, the host second, and
/// the other conditions last.
pub ghost struct Specificity {
    /// Of the best path condition: 3 for an exact path, 2 for a prefix, 1 for a
    /// regular expression, 0 for none.
    pub kind: int,
    /// Bytes of the prefix, if the best path condition is one.
    pub length: int,
    /// Best host score.
    pub host: int,
    /// Sum of what the other conditions add.
    pub extra: int,
}

/// The path of `a` is more specific than that of `b`: exact over prefix over regular
/// expression, and of two prefixes the longer one.
pub open spec fn path_exceeds(a: Specificity, b: Specificity) -> bool {
    a.kind > b.kind || (a.kind == b.kind && a.length > b.length)
}

/// `a` is more specific than `b`: by path, then by host, then by the rest.
pub open spec fn more_specific(a: Specificity, b: Specificity) -> bool {
    path_exceeds(a, b) || (!path_exceeds(b, a) && (a.host > b.host || (a.host == b.host && a.extra
        > b.extra)))
}

/// How specific a single condition is.
pub open spec fn condition_rank(c: MatchCondition) -> Specificity {
    let (kind, length) = match c {
        MatchCondition::Path(_) => (3int, 0int),
        MatchCondition::PathPrefix(p) => (2int, encode_utf8(p@).len() as int),
        MatchCondition::PathRegex(_) => (1int, 0int),
        _ => (0int, 0int),
    };
    Specificity { kind, length, host: host_score(c), extra: extra_score(c) }
}

/// The host score of a condition.
pub open spec fn host_score(c: MatchCondition) -> int {
    match c {
        MatchCondition::Host(p) => match host_pattern(p@) {
            HostPattern::Exact(_) => 70,
            HostPattern::Regex(_) => 60,
            HostPattern::Wildcard { .. } => 50,
        },
        _ => 0,
    }
}

/// What any other condition adds.
pub open spec fn extra_score(c: MatchCondition) -> int {
    match c {
        MatchCondition::Header { value, .. } => if value is Some {
            30
        } else {
            20
        },
        MatchCondition::Method(_) => 10,
        MatchCondition::QueryParam { value, .. } => if value is Some {
            25
        } else {
            15
        },
        _ => 0,
    }
}

/// The larger of two numbers.
pub open spec fn larger(a: int, b: int) -> int {
    if a >= b {
        a
    } else {
        b
    }
}

/// Best path, best host and sum of the rest.
pub open spec fn ranks(cs: Seq<MatchCondition>) -> Specificity
    decreases cs.len(),
{
    if cs.len() == 0 {
        Specificity { kind: 0, length: 0, host: 0, extra: 0 }
    } else {
        let s = ranks(cs.drop_last());
        let c = condition_rank(cs.last());
        let path = if path_exceeds(c, s) {
            c
        } else {
            s
        };
        Specificity {
            kind: path.kind,
            length: path.length,
            host: larger(s.host, c.host),
            extra: s.extra + c.extra,
        }
    }
}

/// How specific a route is.
pub open spec fn specificity(r: RouteConfig) -> Specificity {
    ranks(r.matches@)
}

/// What a path condition adds to the reported number.
pub open spec fn path_score(c: MatchCondition) -> int {
    match c {
        MatchCondition::Path(_) => 10000,
        MatchCondition::PathRegex(_) => 5000,
        MatchCondition::PathPrefix(p) => (1000 + encode_utf8(p@).len() as int) % 0x1_0000_0000,
        _ => 0,
    }
}

/// The largest path score among conditions.
pub open spec fn best_path_score(cs: Seq<MatchCondition>) -> int
    decreases cs.len(),
{
    if cs.len() == 0 {
        0
    } else {
        larger(best_path_score(cs.drop_last()), path_score(cs.last()))
    }
}

/// The number that reports give for the specificity of a route: the largest path
/// score, the largest host score and what the other conditions add, summed in 32 bits.
///
/// Routes are not ordered by it. A route on `/a/b` comes before one on `/a` with a
/// required header value, though its number is the smaller one.
pub open spec fn score(r: RouteConfig) -> int {
    (best_path_score(r.matches@) + specificity(r).host + specificity(r).extra) % 0x1_0000_0000
}

// ---------------------------------------------------------------------------
// Evaluation order
// ---------------------------------------------------------------------------

/// `a` is evaluated before `b` wherever they stand: by priority, then by
/// specificity.
pub open spec fn outranks(a: RouteConfig, b: RouteConfig) -> bool {
    a.priority.weight > b.priority.weight || (a.priority.weight == b.priority.weight
        && more_specific(specificity(a), specificity(b)))
}

/// Of two routes of one priority the one with the more specific path is evaluated
/// first, whatever their hosts and other conditions are.
pub proof fn path_is_primary(a: RouteConfig, b: RouteConfig)
    requires
        a.priority.weight == b.priority.weight,
        path_exceeds(specificity(a), specificity(b)),
    ensures
        outranks(a, b),
        !outranks(b, a),
{
}

/// A route whose path is exact is more specific by path than one with prefixes only,
/// a longer prefix than a shorter, and any prefix than a regular expression.
pub proof fn paths_by_specificity(a: MatchCondition, b: MatchCondition)
    ensures
        a is Path && (b is PathPrefix || b is PathRegex) ==> path_exceeds(
            condition_rank(a),
            condition_rank(b),
        ),
        a is PathPrefix && b is PathRegex ==> path_exceeds(condition_rank(a), condition_rank(b)),
        a matches MatchCondition::PathPrefix(x) && b matches MatchCondition::PathPrefix(y)
            && encode_utf8(x@).len() > encode_utf8(y@).len() ==> path_exceeds(
            condition_rank(a),
            condition_rank(b),
        ),
{
}

/// The first position from `from` on that `r` outranks, or the length.
pub open spec fn slot(s: Seq<RouteConfig>, r: RouteConfig, from: int) -> int
    decreases s.len() - from,
{
    if from < 0 || from >= s.len() || outranks(r, s[from]) {
        from
    } else {
        slot(s, r, from + 1)
    }
}

/// The routes in evaluation order; routes of equal rank keep their order.
pub open spec fn ranked(routes: Seq<RouteConfig>) -> Seq<RouteConfig>
    decreases routes.len(),
{
    if routes.len() == 0 {
        Seq::empty()
    } else {
        let s = ranked(routes.drop_last());
        s.insert(slot(s, routes.last(), 0), routes.last())
    }
}

pub proof fn lemma_slot(s: Seq<RouteConfig>, r: RouteConfig, from: int)
    requires
        0 <= from <= s.len(),
    ensures
        from <= slot(s, r, from) <= s.len(),
        slot(s, r, from) < s.len() ==> outranks(r, s[slot(s, r, from)]),
        forall|j: int| from <= j < slot(s, r, from) ==> !outranks(r, #[trigger] s[j]),
    decreases s.len() - from,
{
    if from < s.len() && !outranks(r, s[from]) {
        lemma_slot(s, r, from + 1);
    }
}

/// No route is evaluated before one that outranks it.
pub open spec fn in_order(s: Seq<RouteConfig>) -> bool {
    forall|i: int, j: int| 0 <= i < j < s.len() ==> !outranks(#[trigger] s[j], #[trigger] s[i])
}

/// Routes are evaluated by priority, then by specificity, both descending.
pub proof fn ranked_is_in_order(routes: Seq<RouteConfig>)
    ensures
        in_order(ranked(routes)),
        ranked(routes).len() == routes.len(),
    decreases routes.len(),
{
    if routes.len() > 0 {
        let s = ranked(routes.drop_last());
        let r = routes.last();
        ranked_is_in_order(routes.drop_last());
        lemma_slot(s, r, 0);
        let k = slot(s, r, 0);
        let n = s.insert(k, r);
        assert forall|i: int, j: int| 0 <= i < j < n.len() implies !outranks(
            #[trigger] n[j],
            #[trigger] n[i],
        ) by {
            if j < k {
                assert(n[i] == s[i] && n[j] == s[j]);
            } else if j == k {
                assert(n[i] == s[i]);
            } else if i < k {
                assert(n[i] == s[i] && n[j] == s[j - 1]);
            } else if i == k {
                assert(n[j] == s[j - 1]);
                if j - 1 > k {
                    assert(!outranks(s[j - 1], s[k]));
                }
            } else {
                assert(n[i] == s[i - 1] && n[j] == s[j - 1]);
            }
        }
    }
}

/// Ordering neither adds nor drops a route.
pub proof fn ranked_keeps_routes(routes: Seq<RouteConfig>)
    ensures
        ranked(routes).to_multiset() =~= routes.to_multiset(),
    decreases routes.len(),
{
    broadcast use vstd::seq_lib::group_to_multiset_ensures;

    if routes.len() > 0 {
        let init = routes.drop_last();
        let s = ranked(init);
        let r = routes.last();
        ranked_keeps_routes(init);
        lemma_slot(s, r, 0);
        assert(routes =~= init.push(r));
        assert(s.insert(slot(s, r, 0), r).to_multiset() =~= s.to_multiset().insert(r));
    }
}

/// Equal rank.
pub open spec fn same_rank(a: RouteConfig, b: RouteConfig) -> bool {
    a.priority.weight == b.priority.weight && specificity(a) == specificity(b)
}

/// Routes of equal rank are evaluated in the order of the configuration.
pub proof fn ranked_is_stable(routes: Seq<RouteConfig>, x: RouteConfig)
    ensures
        ranked(routes).filter(|r: RouteConfig| same_rank(r, x)) == routes.filter(
            |r: RouteConfig| same_rank(r, x),
        ),
    decreases routes.len(),
{
    let p = |r: RouteConfig| same_rank(r, x);
    reveal(Seq::filter);
    if routes.len() > 0 {
        let init = routes.drop_last();
        let s = ranked(init);
        let r = routes.last();
        ranked_is_stable(init, x);
        ranked_is_in_order(init);
        lemma_slot(s, r, 0);
        let k = slot(s, r, 0);
        let a = s.take(k);
        let b = s.skip(k);
        assert(s =~= a + b);
        assert(s.insert(k, r) =~= a.push(r) + b);
        Seq::filter_distributes_over_add(a, b, p);
        Seq::filter_distributes_over_add(a.push(r), b, p);
        assert(a.push(r).drop_last() =~= a);
        if p(r) {
            assert forall|i: int| 0 <= i < b.len() implies !p(#[trigger] b[i]) by {
                assert(b[i] == s[k + i]);
                if i > 0 {
                    assert(!outranks(s[k + i], s[k]));
                }
            }
            lemma_filter_none(b, p);
        }
    }
}

proof fn lemma_filter_none(b: Seq<RouteConfig>, p: spec_fn(RouteConfig) -> bool)
    requires
        forall|i: int| 0 <= i < b.len() ==> !p(#[trigger] b[i]),
    ensures
        b.filter(p) == Seq::<RouteConfig>::empty(),
    decreases b.len(),
{
    reveal(Seq::filter);
    if b.len() > 0 {
        assert forall|i: int| 0 <= i < b.drop_last().len() implies !p(
            #[trigger] b.drop_last()[i],
        ) by {
            assert(b.drop_last()[i] == b[i]);
        }
        lemma_filter_none(b.drop_last(), p);
        assert(b.last() == b[b.len() - 1]);
    }
}

// ---------------------------------------------------------------------------
// Descriptions
// ---------------------------------------------------------------------------

/// A condition in words.
pub open spec fn describe(c: MatchCondition) -> Seq<char> {
    match c {
        MatchCondition::Path(p) => "path == '"@ + p@ + "'"@,
        MatchCondition::PathPrefix(p) => "path-prefix '"@ + p@ + "'"@,
        MatchCondition::PathRegex(p) => "path-regex /"@ + p@ + "/"@,
        MatchCondition::Host(_) => "host"@,
        MatchCondition::Header { name, value } => match value {
            Some(v) => "header '"@ + text::lowercase(name@) + ": "@ + v@ + "'"@,
            None => "header '"@ + text::lowercase(name@) + "' present"@,
        },
        MatchCondition::Method(methods) => "method in ["@ + text::join(
            upper_methods(methods@),
            ", "@,
        ) + "]"@,
        MatchCondition::QueryParam { name, value } => match value {
            Some(v) => "query '"@ + name@ + "="@ + v@ + "'"@,
            None => "query '"@ + name@ + "' present"@,
        },
    }
}

/// Method names in upper case.
pub open spec fn upper_methods(methods: Seq<String>) -> Seq<Seq<char>> {
    methods.map_values(|m: String| text::uppercase(m@))
}

/// The first condition from `from` on that is not on the host and does not
/// hold, or the length.
pub open spec fn first_failing(cs: Seq<MatchCondition>, q: Request, from: int) -> int
    decreases cs.len() - from,
{
    if from < 0 || from >= cs.len() || (!(cs[from] is Host) && !condition_matches(cs[from], q)) {
        from
    } else {
        first_failing(cs, q, from + 1)
    }
}

/// Why a request does not match: the first failing condition, or the host.
pub open spec fn reject_reason(cs: Seq<MatchCondition>, q: Request) -> Option<Seq<char>> {
    let k = first_failing(cs, q, 0);
    if k < cs.len() {
        Some(describe(cs[k]) + " did not match"@)
    } else if has_host(cs) && !some_host_matches(cs, q) {
        Some("no host condition matched host '"@ + q.host + "'"@)
    } else {
        None
    }
}

pub proof fn lemma_first_failing(cs: Seq<MatchCondition>, q: Request, from: int)
    requires
        0 <= from <= cs.len(),
    ensures
        from <= first_failing(cs, q, from) <= cs.len(),
        first_failing(cs, q, from) < cs.len() ==> !(cs[first_failing(cs, q, from)] is Host)
            && !condition_matches(cs[first_failing(cs, q, from)], q),
        forall|j: int|
            from <= j < first_failing(cs, q, from) ==> ((#[trigger] cs[j]) is Host
                || condition_matches(cs[j], q)),
    decreases cs.len() - from,
{
    if from < cs.len() && !(!(cs[from] is Host) && !condition_matches(cs[from], q)) {
        lemma_first_failing(cs, q, from + 1);
    }
}

/// A route has a reason to be rejected exactly when it does not match.
pub proof fn reason_iff_no_match(cs: Seq<MatchCondition>, q: Request)
    ensures
        (reject_reason(cs, q) is None) == conditions_match(cs, q),
{
    lemma_first_failing(cs, q, 0);
    let k = first_failing(cs, q, 0);
    if k < cs.len() {
        assert(!others_match(cs, q)) by {
            assert(!(cs[k] is Host) && !condition_matches(cs[k], q));
        }
    } else {
        assert forall|i: int| 0 <= i < cs.len() && !((#[trigger] cs[i]) is Host) implies condition_matches(
            cs[i],
            q,
        ) by {}
    }
}

// ---------------------------------------------------------------------------
// Decisions
// ---------------------------------------------------------------------------

/// The first route from `from` on that the request matches, or the length.
pub open spec fn first_match(table: Seq<RouteConfig>, q: Request, from: int) -> int
    decreases table.len() - from,
{
    if from < 0 || from >= table.len() || route_matches(table[from], q) {
        from
    } else {
        first_match(table, q, from + 1)
    }
}

/// The first route from `from` on with an identifier, or the length.
pub open spec fn find_id(table: Seq<RouteConfig>, id: Seq<char>, from: int) -> int
    decreases table.len() - from,
{
    if from < 0 || from >= table.len() || table[from].id@ == id {
        from
    } else {
        find_id(table, id, from + 1)
    }
}

/// The route for a request in a table in evaluation order: the first that
/// matches, else the default route if it is in the table.
pub open spec fn decide(table: Seq<RouteConfig>, default: Option<Seq<char>>, q: Request) -> Option<
    int,
> {
    let k = first_match(table, q, 0);
    if k < table.len() {
        Some(k)
    } else {
        match default {
            Some(id) => {
                let d = find_id(table, id, 0);
                if d < table.len() {
                    Some(d)
                } else {
                    None
                }
            },
            None => None,
        }
    }
}

pub proof fn lemma_first_match(table: Seq<RouteConfig>, q: Request, from: int)
    requires
        0 <= from <= table.len(),
    ensures
        from <= first_match(table, q, from) <= table.len(),
        first_match(table, q, from) < table.len() ==> route_matches(
            table[first_match(table, q, from)],
            q,
        ),
        forall|j: int|
            from <= j < first_match(table, q, from) ==> !route_matches(#[trigger] table[j], q),
    decreases table.len() - from,
{
    if from < table.len() && !route_matches(table[from], q) {
        lemma_first_match(table, q, from + 1);
    }
}

pub proof fn lemma_find_id(table: Seq<RouteConfig>, id: Seq<char>, from: int)
    requires
        0 <= from <= table.len(),
    ensures
        from <= find_id(table, id, from) <= table.len(),
        find_id(table, id, from) < table.len() ==> table[find_id(table, id, from)].id@ == id,
        forall|j: int| from <= j < find_id(table, id, from) ==> (#[trigger] table[j]).id@ != id,
    decreases table.len() - from,
{
    if from < table.len() && table[from].id@ != id {
        lemma_find_id(table, id, from + 1);
    }
}

/// The winner matches, and no route that is evaluated before it does; a default
/// route wins only if none matches.
pub proof fn winner_is_first_match(
    table: Seq<RouteConfig>,
    default: Option<Seq<char>>,
    q: Request,
)
    ensures
        (match decide(table, default, q) {
            Some(w) => {
                &&& 0 <= w < table.len()
                &&& route_matches(table[w], q) ==> forall|j: int|
                    0 <= j < w ==> !route_matches(#[trigger] table[j], q)
                &&& !route_matches(table[w], q) ==> default == Some(table[w].id@) && forall|j: int|
                    0 <= j < table.len() ==> !route_matches(#[trigger] table[j], q)
            },
            None => forall|j: int| 0 <= j < table.len() ==> !route_matches(#[trigger] table[j], q),
        }),
{
    lemma_first_match(table, q, 0);
    if default is Some {
        lemma_find_id(table, default->0, 0);
    }
}

/// No route outranks the winner among those that match.
pub proof fn nothing_outranks_winner(
    routes: Seq<RouteConfig>,
    default: Option<Seq<char>>,
    q: Request,
    j: int,
)
    requires
        decide(ranked(routes), default, q) is Some,
        0 <= j < ranked(routes).len(),
        route_matches(ranked(routes)[j], q),
    ensures
        !outranks(ranked(routes)[j], ranked(routes)[decide(ranked(routes), default, q)->0]),
{
    winner_is_first_match(ranked(routes), default, q);
    ranked_is_in_order(routes);
}

// ---------------------------------------------------------------------------
// Laws on single conditions
// ---------------------------------------------------------------------------

/// The only condition of the route is `c`.
pub open spec fn has_only(r: RouteConfig, c: MatchCondition) -> bool {
    r.matches@.len() == 1 && r.matches@[0] == c
}

proof fn lemma_only(r: RouteConfig, c: MatchCondition, q: Request)
    requires
        has_only(r, c),
    ensures
        route_matches(r, q) == condition_matches(c, q),
{
    let cs = r.matches@;
    assert(cs[0] == c);
    if c is Host {
        assert(has_host(cs)) by {
            assert(cs[0] is Host);
        }
        if condition_matches(c, q) {
            assert(some_host_matches(cs, q)) by {
                assert(cs[0] is Host && condition_matches(cs[0], q));
            }
        }
    }
}

/// An exact path is met by that very path, character for character, and by nothing
/// that only begins with it or that it only begins with.
pub proof fn exact_path_meets_itself_only(
    r: RouteConfig,
    path: String,
    q: Request,
    behind: Seq<char>,
)
    requires
        has_only(r, MatchCondition::Path(path)),
        behind.len() > 0,
    ensures
        route_matches(r, q) <==> q.path == path@,
        !route_matches(r, Request { path: path@ + behind, ..q }),
        path@ == q.path + behind ==> !route_matches(r, q),
{
    lemma_only(r, MatchCondition::Path(path), q);
    lemma_only(r, MatchCondition::Path(path), Request { path: path@ + behind, ..q });
    assert((path@ + behind).len() > path@.len());
    assert((q.path + behind).len() > q.path.len());
}

/// A prefix is met by the prefix itself, and by a longer path where a segment ends
/// with the prefix: behind `/`, behind a prefix that ends in a slash, and before a
/// slash or a question mark.
pub proof fn prefix_meets_whole_segments(
    r: RouteConfig,
    prefix: String,
    q: Request,
    behind: Seq<char>,
)
    requires
        has_only(r, MatchCondition::PathPrefix(prefix)),
        behind.len() > 0,
    ensures
        q.path == prefix@ ==> route_matches(r, q),
        route_matches(r, q) ==> prefix@.len() <= q.path.len() && forall|i: int|
            0 <= i < prefix@.len() ==> #[trigger] q.path[i] == prefix@[i],
        route_matches(r, Request { path: prefix@ + behind, ..q }) <==> (prefix@ == seq!['/'] || (
        prefix@.len() > 0 && prefix@.last() == '/') || behind[0] == '/' || behind[0] == '?'),
{
    let longer = Request { path: prefix@ + behind, ..q };
    lemma_only(r, MatchCondition::PathPrefix(prefix), q);
    lemma_only(r, MatchCondition::PathPrefix(prefix), longer);
    reveal_strlit("/");
    assert("/"@ =~= seq!['/']);
    assert(longer.path[prefix@.len() as int] == behind[0]);
    assert(prefix@.is_prefix_of(longer.path));
}

/// A condition on a regular expression is met where the expression matches the path.
pub proof fn path_regex_reads_the_path(r: RouteConfig, p: String, q: Request)
    requires
        has_only(r, MatchCondition::PathRegex(p)),
    ensures
        route_matches(r, q) <==> pattern::regex_matches(p@, q.path),
{
    lemma_only(r, MatchCondition::PathRegex(p), q);
}

/// A condition on the host reads the host and nothing else: an exact name, or some
/// labels in front of the suffix of a wildcard.
pub proof fn host_condition_reads_the_host(r: RouteConfig, p: String, q: Request, x: Seq<char>)
    requires
        has_only(r, MatchCondition::Host(p)),
        !q.host.contains(':'),
    ensures
        !p@.contains('*') && !p@.contains('[') ==> (route_matches(r, q) <==> q.host == p@),
        p@ == seq!['*', '.'] + x ==> (route_matches(r, q) <==> exists|label: Seq<char>|
            q.host == #[trigger] (label + seq!['.'] + x)),
{
    lemma_only(r, MatchCondition::Host(p), q);
    reveal_strlit("*.");
    assert("*."@ =~= seq!['*', '.']);
    hosts_match_by_whole_labels(host_pattern(p@), q.host);
    if !p@.contains('*') {
        if "*."@.is_prefix_of(p@) {
            assert(p@[0] == '*');
        }
    }
    if p@ == seq!['*', '.'] + x {
        assert("*."@.is_prefix_of(p@));
        assert(p@.skip(2) =~= x);
    }
}

/// A header condition is met by the header of that name, written in lower case, and,
/// if it asks for a value, by that value alone. A condition on a query parameter is met
/// likewise, by the name as it is written.
pub proof fn named_values_are_looked_up(
    r: RouteConfig,
    name: String,
    value: Option<String>,
    q: Request,
)
    requires
        strmap::sorted(q.headers),
        strmap::sorted(q.query),
    ensures
        has_only(r, (MatchCondition::Header { name, value })) ==> (route_matches(r, q) <==> exists|
            i: int,
        |
            0 <= i < q.headers.len() && (#[trigger] q.headers[i]).0 == text::lowercase(name@) && (
            value matches Some(v) ==> q.headers[i].1 == v@)),
        has_only(r, (MatchCondition::QueryParam { name, value })) ==> (route_matches(r, q)
            <==> exists|i: int|
            0 <= i < q.query.len() && (#[trigger] q.query[i]).0 == name@ && (value matches Some(v)
                ==> q.query[i].1 == v@)),
{
    if has_only(r, (MatchCondition::Header { name, value })) {
        lemma_only(r, (MatchCondition::Header { name, value }), q);
        lemma_looked_up(q.headers, text::lowercase(name@), value);
    }
    if has_only(r, (MatchCondition::QueryParam { name, value })) {
        lemma_only(r, (MatchCondition::QueryParam { name, value }), q);
        lemma_looked_up(q.query, name@, value);
    }
}

proof fn lemma_looked_up(m: Seq<(Seq<char>, Seq<char>)>, k: Seq<char>, value: Option<String>)
    requires
        strmap::sorted(m),
    ensures
        value_matches(strmap::get(m, k), value.deep_view()) <==> exists|i: int|
            0 <= i < m.len() && (#[trigger] m[i]).0 == k && (value matches Some(v) ==> m[i].1 == v@),
{
    strmap::lemma_get_none(m, k);
    strmap::lemma_rank(m, k);
    if strmap::get(m, k) is Some {
        let i = strmap::rank(m, k);
        assert(m[i].0 == k);
        assert forall|j: int| 0 <= j < m.len() && (#[trigger] m[j]).0 == k implies j == i by {
            strmap::lemma_get_at(m, j);
        }
    }
}

/// A method condition is met by any of its methods, written in upper case.
pub proof fn one_of_the_methods_is_enough(r: RouteConfig, methods: Vec<String>, q: Request)
    requires
        has_only(r, MatchCondition::Method(methods)),
    ensures
        route_matches(r, q) <==> exists|i: int|
            0 <= i < methods@.len() && q.method == text::uppercase(#[trigger] methods@[i]@),
{
    lemma_only(r, MatchCondition::Method(methods), q);
}

/// Conditions work together: a route without any takes every request. One more
/// condition that is not on the host narrows a route down to the requests that meet it
/// too. Conditions on the host are alternatives: the first one narrows a route down,
/// each further one widens it.
pub proof fn conditions_narrow_and_hosts_widen(cs: Seq<MatchCondition>, c: MatchCondition, q: Request)
    ensures
        conditions_match(Seq::<MatchCondition>::empty(), q),
        !(c is Host) ==> (conditions_match(cs.push(c), q) <==> conditions_match(cs, q)
            && conditions_match(seq![c], q)),
        c is Host && (forall|i: int| 0 <= i < cs.len() ==> !((#[trigger] cs[i]) is Host)) ==> (
        conditions_match(cs.push(c), q) <==> conditions_match(cs, q) && conditions_match(
            seq![c],
            q,
        )),
        c is Host && (exists|i: int| 0 <= i < cs.len() && (#[trigger] cs[i]) is Host) ==> (
        conditions_match(cs.push(c), q) <==> conditions_match(cs, q) || (conditions_match(
            seq![c],
            q,
        ) && forall|i: int|
            0 <= i < cs.len() && !((#[trigger] cs[i]) is Host) ==> conditions_match(seq![cs[i]], q))),
{
    let ds = cs.push(c);
    lemma_alone(c, q);
    assert(ds[cs.len() as int] == c);
    assert forall|i: int| 0 <= i < cs.len() implies conditions_match(seq![#[trigger] cs[i]], q)
        == condition_matches(cs[i], q) && ds[i] == cs[i] by {
        lemma_alone(cs[i], q);
    }
    assert(others_match(ds, q) == (others_match(cs, q) && (c is Host || condition_matches(c, q)))) by {
        if others_match(ds, q) {
            assert forall|i: int| 0 <= i < cs.len() && !((#[trigger] cs[i]) is Host) implies condition_matches(
                cs[i],
                q,
            ) by {
                assert(!(ds[i] is Host));
            }
        }
    }
    assert(has_host(ds) == (has_host(cs) || c is Host)) by {
        if has_host(cs) {
            let i = choose|i: int| 0 <= i < cs.len() && (#[trigger] cs[i]) is Host;
            assert(ds[i] is Host);
        }
        if c is Host {
            assert(ds[cs.len() as int] is Host);
        }
    }
    assert(some_host_matches(ds, q) == (some_host_matches(cs, q) || (c is Host && condition_matches(
        c,
        q,
    )))) by {
        if some_host_matches(cs, q) {
            let i = choose|i: int|
                0 <= i < cs.len() && (#[trigger] cs[i]) is Host && condition_matches(cs[i], q);
            assert(ds[i] is Host && condition_matches(ds[i], q));
        }
        if c is Host && condition_matches(c, q) {
            assert(ds[cs.len() as int] is Host && condition_matches(ds[cs.len() as int], q));
        }
        if some_host_matches(ds, q) {
            let i = choose|i: int|
                0 <= i < ds.len() && (#[trigger] ds[i]) is Host && condition_matches(ds[i], q);
            if i < cs.len() {
                assert(cs[i] is Host && condition_matches(cs[i], q));
            }
        }
    }
}

proof fn lemma_alone(c: MatchCondition, q: Request)
    ensures
        conditions_match(seq![c], q) == condition_matches(c, q),
{
    let cs = seq![c];
    assert(cs[0] == c);
    if c is Host {
        assert(cs[0] is Host);
        if condition_matches(c, q) {
            assert(cs[0] is Host && condition_matches(cs[0], q));
        }
    }
}

// ---------------------------------------------------------------------------
// Laws on the order of routes
// ---------------------------------------------------------------------------

/// A higher priority comes first, whatever the conditions are.
pub proof fn higher_priority_comes_first(a: RouteConfig, b: RouteConfig)
    requires
        a.priority.weight > b.priority.weight,
    ensures
        outranks(a, b),
        !outranks(b, a),
{
}

/// Two routes of one priority that share all conditions but the last.
pub open spec fn differ_in_last(a: RouteConfig, b: RouteConfig) -> bool {
    &&& a.priority.weight == b.priority.weight
    &&& a.matches@.len() > 0
    &&& b.matches@.len() > 0
    &&& a.matches@.drop_last() == b.matches@.drop_last()
}

/// What decides between two routes that differ in their last condition: an exact path
/// comes before a prefix, a longer prefix before a shorter one, a prefix before a
/// regular expression, and a regular expression before no condition on the path.
pub proof fn more_specific_path_comes_first(a: RouteConfig, b: RouteConfig)
    requires
        differ_in_last(a, b),
        forall|i: int|
            0 <= i < a.matches@.len() - 1 ==> !((#[trigger] a.matches@[i]) is Path) && !(
            a.matches@[i] is PathPrefix) && !(a.matches@[i] is PathRegex),
    ensures
        a.matches@.last() is Path && (b.matches@.last() is PathPrefix
            || b.matches@.last() is PathRegex || b.matches@.last() is Method
            || b.matches@.last() is Header) ==> outranks(a, b) && !outranks(b, a),
        a.matches@.last() is PathPrefix && (b.matches@.last() is PathRegex
            || b.matches@.last() is Method || b.matches@.last() is Header) ==> outranks(a, b)
            && !outranks(b, a),
        a.matches@.last() is PathRegex && (b.matches@.last() is Method
            || b.matches@.last() is Header || b.matches@.last() is QueryParam) ==> outranks(a, b)
            && !outranks(b, a),
        a.matches@.last() matches MatchCondition::PathPrefix(x) ==> b.matches@.last() matches MatchCondition::PathPrefix(
            y,
        ) ==> encode_utf8(x@).len() > encode_utf8(y@).len() ==> outranks(a, b) && !outranks(b, a),
{
    let base = a.matches@.drop_last();
    assert forall|i: int| 0 <= i < base.len() implies !((#[trigger] base[i]) is Path) && !(
    base[i] is PathPrefix) && !(base[i] is PathRegex) by {
        assert(base[i] == a.matches@[i]);
    }
    lemma_no_path(base);
}

proof fn lemma_no_path(cs: Seq<MatchCondition>)
    requires
        forall|i: int|
            0 <= i < cs.len() ==> !((#[trigger] cs[i]) is Path) && !(cs[i] is PathPrefix) && !(
            cs[i] is PathRegex),
    ensures
        ranks(cs).kind == 0,
        ranks(cs).length == 0,
    decreases cs.len(),
{
    if cs.len() > 0 {
        let init = cs.drop_last();
        assert forall|i: int| 0 <= i < init.len() implies !((#[trigger] init[i]) is Path) && !(
        init[i] is PathPrefix) && !(init[i] is PathRegex) by {
            assert(init[i] == cs[i]);
        }
        lemma_no_path(init);
        assert(cs.last() == cs[cs.len() - 1]);
    }
}

/// Of two routes that differ only in their one condition on the host, the exact name
/// comes before the regular expression, and that before the wildcard.
pub proof fn more_specific_host_comes_first(a: RouteConfig, b: RouteConfig, x: String, y: String)
    requires
        differ_in_last(a, b),
        forall|i: int| 0 <= i < a.matches@.len() - 1 ==> !((#[trigger] a.matches@[i]) is Host),
        a.matches@.last() == MatchCondition::Host(x),
        b.matches@.last() == MatchCondition::Host(y),
    ensures
        host_pattern(x@) is Exact && (host_pattern(y@) is Regex || host_pattern(y@) is Wildcard)
            ==> outranks(a, b) && !outranks(b, a),
        host_pattern(x@) is Regex && host_pattern(y@) is Wildcard ==> outranks(a, b) && !outranks(
            b,
            a,
        ),
{
    let base = a.matches@.drop_last();
    assert forall|i: int| 0 <= i < base.len() implies !((#[trigger] base[i]) is Host) by {
        assert(base[i] == a.matches@[i]);
    }
    lemma_no_host(base);
}

proof fn lemma_no_host(cs: Seq<MatchCondition>)
    requires
        forall|i: int| 0 <= i < cs.len() ==> !((#[trigger] cs[i]) is Host),
    ensures
        ranks(cs).host == 0,
    decreases cs.len(),
{
    if cs.len() > 0 {
        let init = cs.drop_last();
        assert forall|i: int| 0 <= i < init.len() implies !((#[trigger] init[i]) is Host) by {
            assert(init[i] == cs[i]);
        }
        lemma_no_host(init);
        assert(cs.last() == cs[cs.len() - 1]);
    }
}

/// A host condition makes a route without one come first, and so does any further
/// condition on a header, a method or a query parameter.
pub proof fn more_conditions_come_first(a: RouteConfig, b: RouteConfig)
    requires
        a.priority.weight == b.priority.weight,
        a.matches@.len() > 0,
        a.matches@.drop_last() == b.matches@,
        a.matches@.last() is Header || a.matches@.last() is Method || a.matches@.last() is QueryParam
            || (a.matches@.last() is Host && forall|i: int|
            0 <= i < b.matches@.len() ==> !((#[trigger] b.matches@[i]) is Host)),
    ensures
        outranks(a, b),
        !outranks(b, a),
{
    if a.matches@.last() is Host {
        lemma_no_host(b.matches@);
    }
}

/// The points of a condition that is neither on the path nor on the host.
pub proof fn further_conditions_rank_by_what_they_ask(a: RouteConfig, b: RouteConfig)
    requires
        differ_in_last(a, b),
    ensures
        ({
            let x = a.matches@.last();
            let y = b.matches@.last();
            let valued_header = x matches MatchCondition::Header { value, .. } && value is Some;
            let header = x matches MatchCondition::Header { value, .. } && value is None;
            let valued_query = x matches MatchCondition::QueryParam { value, .. } && value is Some;
            let query = x matches MatchCondition::QueryParam { value, .. } && value is None;
            let weaker_than_header = (y matches MatchCondition::QueryParam { .. }) || y is Method || (
            y matches MatchCondition::Header { value, .. } && value is None);
            &&& valued_header && weaker_than_header ==> outranks(a, b)
            &&& valued_query && (y is Method || (y matches MatchCondition::Header { value, .. }
                && value is None) || (y matches MatchCondition::QueryParam { value, .. }
                && value is None)) ==> outranks(a, b)
            &&& header && (y is Method || (y matches MatchCondition::QueryParam { value, .. }
                && value is None)) ==> outranks(a, b)
            &&& query && y is Method ==> outranks(a, b)
        }),
{
}

/// The reported number of a route with one condition, and what each further condition
/// that is neither on the path nor on the host adds to it.
pub proof fn reported_number_is_a_sum(r: RouteConfig, longer: RouteConfig, c: MatchCondition)
    requires
        longer.matches@ == r.matches@.push(c),
    ensures
        r.matches@.len() == 0 ==> (score(longer) == (match c {
            MatchCondition::Path(_) => 10000int,
            MatchCondition::PathRegex(_) => 5000int,
            MatchCondition::PathPrefix(p) => (1000 + encode_utf8(p@).len() as int) % 0x1_0000_0000,
            MatchCondition::Host(p) => match host_pattern(p@) {
                HostPattern::Exact(_) => 70int,
                HostPattern::Regex(_) => 60int,
                HostPattern::Wildcard { .. } => 50int,
            },
            MatchCondition::Header { value, .. } => if value is Some {
                30int
            } else {
                20int
            },
            MatchCondition::QueryParam { value, .. } => if value is Some {
                25int
            } else {
                15int
            },
            MatchCondition::Method(_) => 10int,
        })),
        c is Method ==> score(longer) == (score(r) + 10) % 0x1_0000_0000,
        c matches MatchCondition::Header { value, .. } ==> score(longer) == (score(r) + (
        if value is Some {
            30int
        } else {
            20int
        })) % 0x1_0000_0000,
        c matches MatchCondition::QueryParam { value, .. } ==> score(longer) == (score(r) + (
        if value is Some {
            25int
        } else {
            15int
        })) % 0x1_0000_0000,
{
    assert(longer.matches@.drop_last() =~= r.matches@);
    assert(longer.matches@.last() == c);
    reveal_with_fuel(ranks, 2);
    reveal_with_fuel(best_path_score, 2);
    lemma_scores_are_natural(r.matches@);
    let n = best_path_score(r.matches@) + ranks(r.matches@).host + ranks(r.matches@).extra;
    let e = extra_score(c);
    vstd::arithmetic::div_mod::lemma_add_mod_noop(n, e, 0x1_0000_0000);
    vstd::arithmetic::div_mod::lemma_add_mod_noop(n % 0x1_0000_0000, e, 0x1_0000_0000);
    vstd::arithmetic::div_mod::lemma_mod_twice(n, 0x1_0000_0000);
}

proof fn lemma_scores_are_natural(cs: Seq<MatchCondition>)
    ensures
        best_path_score(cs) >= 0,
        ranks(cs).host >= 0,
        ranks(cs).extra >= 0,
    decreases cs.len(),
{
    if cs.len() > 0 {
        lemma_scores_are_natural(cs.drop_last());
    }
}

/// A pattern is a wildcard exactly where it begins with `*.`, and a regular expression
/// only where it holds a star or an opening bracket and compiles.
pub proof fn host_patterns_by_their_text(p: Seq<char>)
    ensures
        p.len() >= 2 && p[0] == '*' && p[1] == '.' ==> host_pattern(p) == (HostPattern::Wildcard {
            suffix: p.skip(2),
        }),
        !(p.len() >= 2 && p[0] == '*' && p[1] == '.') ==> host_pattern(p) == (if (p.contains('*')
            || p.contains('[')) && pattern::regex_error(p) is None {
            HostPattern::Regex(p)
        } else {
            HostPattern::Exact(p)
        }),
{
    reveal_strlit("*.");
    if p.len() >= 2 && p[0] == '*' && p[1] == '.' {
        assert(p.subrange(0, 2) =~= "*."@);
    } else if "*."@.is_prefix_of(p) {
        assert(p.subrange(0, 2)[0] == p[0] && p.subrange(0, 2)[1] == p[1]);
    }
}

/// A default route is taken only where no route matches, and whenever it is in the
/// table.
pub proof fn default_route_is_the_last_resort(
    table: Seq<RouteConfig>,
    default: Option<Seq<char>>,
    q: Request,
)
    requires
        forall|j: int| 0 <= j < table.len() ==> !route_matches(#[trigger] table[j], q),
    ensures
        (match decide(table, default, q) {
            Some(w) => default matches Some(id) && 0 <= w < table.len() && table[w].id@ == id,
            None => default matches Some(id) ==> forall|j: int|
                0 <= j < table.len() ==> (#[trigger] table[j]).id@ != id,
        }),
{
    lemma_first_match(table, q, 0);
    if default is Some {
        lemma_find_id(table, default->0, 0);
    }
}

/// A rejected route says which condition it fails: the first that is not on the host,
/// in words that name it, else the host.
pub proof fn rejection_names_the_first_failing_condition(cs: Seq<MatchCondition>, q: Request, k: int)
    requires
        0 <= k < cs.len(),
        !(cs[k] is Host),
        !conditions_match(seq![cs[k]], q),
        forall|j: int|
            0 <= j < k && !((#[trigger] cs[j]) is Host) ==> conditions_match(seq![cs[j]], q),
    ensures
        reject_reason(cs, q) matches Some(t) && (match cs[k] {
            MatchCondition::Path(p) => t == "path == '"@ + p@ + "'"@ + " did not match"@,
            MatchCondition::PathPrefix(p) => t == "path-prefix '"@ + p@ + "'"@ + " did not match"@,
            MatchCondition::PathRegex(p) => t == "path-regex /"@ + p@ + "/"@ + " did not match"@,
            MatchCondition::Header { name, value: Some(v) } => t == "header '"@ + text::lowercase(
                name@,
            ) + ": "@ + v@ + "'"@ + " did not match"@,
            MatchCondition::Header { name, value: None } => t == "header '"@ + text::lowercase(
                name@,
            ) + "' present"@ + " did not match"@,
            MatchCondition::QueryParam { name, value: Some(v) } => t == "query '"@ + name@ + "="@
                + v@ + "'"@ + " did not match"@,
            MatchCondition::QueryParam { name, value: None } => t == "query '"@ + name@
                + "' present"@ + " did not match"@,
            MatchCondition::Method(ms) => t == "method in ["@ + text::join(
                Seq::new(ms@.len(), |i: int| text::uppercase(ms@[i]@)),
                ", "@,
            ) + "]"@ + " did not match"@,
            MatchCondition::Host(_) => false,
        }),
{
    lemma_alone(cs[k], q);
    assert forall|j: int| 0 <= j < k && !((#[trigger] cs[j]) is Host) implies condition_matches(
        cs[j],
        q,
    ) by {
        lemma_alone(cs[j], q);
    }
    lemma_first_failing(cs, q, 0);
    let f = first_failing(cs, q, 0);
    assert(f == k) by {
        if f < k {
            assert(cs[f] is Host || condition_matches(cs[f], q));
        } else if f > k {
            assert(cs[k] is Host || condition_matches(cs[k], q));
        }
    }
    if let MatchCondition::Method(ms) = cs[k] {
        assert(upper_methods(ms@) =~= Seq::new(ms@.len(), |i: int| text::uppercase(ms@[i]@)));
    }
}

/// A route that fails on its hosts only says so, with the host of the request.
pub proof fn rejection_by_host_names_the_host(cs: Seq<MatchCondition>, q: Request)
    requires
        !conditions_match(cs, q),
        forall|j: int|
            0 <= j < cs.len() && !((#[trigger] cs[j]) is Host) ==> conditions_match(seq![cs[j]], q),
    ensures
        reject_reason(cs, q) == Some("no host condition matched host '"@ + q.host + "'"@),
{
    assert forall|j: int| 0 <= j < cs.len() && !((#[trigger] cs[j]) is Host) implies condition_matches(
        cs[j],
        q,
    ) by {
        lemma_alone(cs[j], q);
    }
    lemma_first_failing(cs, q, 0);
}

} // verus!
