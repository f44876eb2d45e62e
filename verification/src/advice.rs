//! Which recommendations a configuration draws.
//!
//! Every recommendation has one reason. It is given exactly where the reason holds,
//! whatever else is wrong with the configuration.

use crate::config;
use crate::config::{Config, Filter, FilterConfig, RouteConfig, UpstreamConfig};
use crate::lint;
use crate::server::ListenerConfig;
use crate::shadow;
use crate::strmap;
use crate::text;
use vstd::prelude::*;
use vstd::string::*;

verus! {

// ---------------------------------------------------------------------------
// The texts
// ---------------------------------------------------------------------------

/// A route gives up on the first failure.
pub open spec fn no_retry(id: Seq<char>) -> Seq<char> {
    "Route '"@ + id + "' has no retry policy (recommended for production)"@
}

/// A route waits for its upstream as long as the listener lets it.
pub open spec fn no_timeout(id: Seq<char>) -> Seq<char> {
    "Route '"@ + id + "' has no timeout (recommended for production)"@
}

/// A route leads nowhere.
pub open spec fn no_upstream(id: Seq<char>) -> Seq<char> {
    "Route '"@ + id + "' has no upstream configured"@
}

/// An upstream is not watched.
pub open spec fn no_health_check(name: Seq<char>) -> Seq<char> {
    "Upstream '"@ + name + "' has no health check (recommended for production)"@
}

/// An upstream that is not watched has nothing to fall back on.
pub open spec fn no_failover(name: Seq<char>) -> Seq<char> {
    "Upstream '"@ + name + "' has only one target and no health check (no failover possible)"@
}

/// A listener takes requests in the clear.
pub open spec fn plain_http(address: Seq<char>) -> Seq<char> {
    "Listener '"@ + address + "' serves HTTP on port 80 without TLS (consider HTTPS redirect)"@
}

/// A listener believes everyone.
pub open spec fn open_trust(address: Seq<char>, block: Seq<char>) -> Seq<char> {
    "Listener '"@ + address + "' trusts PROXY protocol headers from "@ + block
        + ": any client that can reach it can spoof its address (only safe on isolated networks)"@
}

/// A filter inherits what happens when its agent fails.
pub open spec fn inherited_mode(filter: Seq<char>, route: Seq<char>, mode: Seq<char>) -> Seq<char> {
    "Agent filter '"@ + filter + "' on route '"@ + route
        + "' has no explicit failure-mode; on agent failure it silently inherits the route's failure-mode ('"@
        + mode + "'). Set failure-mode on the filter to make the policy explicit."@
}

/// A route copies its traffic to where live traffic goes.
pub open spec fn live_mirror(id: Seq<char>, target: Seq<char>) -> Seq<char> {
    "Route '"@ + id + "' mirrors shadow traffic to "@ + target
        + ". Mirrored requests will hit production; use a dedicated shadow upstream to avoid duplicate side effects."@
}

/// A route never gets a request.
pub open spec fn unreachable(
    id: Seq<char>,
    weight: int,
    by: Seq<char>,
    by_weight: int,
) -> Seq<char> {
    "Route '"@ + id + "' (priority "@ + text::int_text(weight) + ") is unreachable: route '"@ + by
        + "' (priority "@ + text::int_text(by_weight)
        + ") is evaluated first and matches every request '"@ + id + "' would. Narrow '"@ + by
        + "' or raise the priority of '"@ + id + "'."@
}

/// Four characters that tell the texts apart: the first, the last, the one before it, and
/// the one before a closing recommendation.
spec fn mark(t: Seq<char>) -> (char, char, char, char) {
    (t[0], t[t.len() - 1], t[t.len() - 2], t[t.len() - 30])
}

proof fn lemma_route_marks(id: Seq<char>)
    ensures
        mark(no_retry(id)) == ('R', ')', 'n', 'y'),
        mark(no_timeout(id)) == ('R', ')', 'n', 't'),
        mark(no_upstream(id)).0 == 'R',
        mark(no_upstream(id)).1 == 'd',
{
    reveal_strlit("Route '");
    reveal_strlit("' has no retry policy (recommended for production)");
    reveal_strlit("' has no timeout (recommended for production)");
    reveal_strlit("' has no upstream configured");
}

proof fn lemma_upstream_marks(name: Seq<char>)
    ensures
        mark(no_health_check(name)) == ('U', ')', 'n', 'k'),
        mark(no_failover(name)).0 == 'U',
        mark(no_failover(name)).2 == 'e',
{
    reveal_strlit("Upstream '");
    reveal_strlit("' has no health check (recommended for production)");
    reveal_strlit("' has only one target and no health check (no failover possible)");
}

proof fn lemma_listener_marks(address: Seq<char>, block: Seq<char>)
    ensures
        mark(plain_http(address)).0 == 'L',
        mark(plain_http(address)).2 == 't',
        mark(open_trust(address, block)).0 == 'L',
        mark(open_trust(address, block)).2 == 's',
{
    reveal_strlit("Listener '");
    reveal_strlit("' serves HTTP on port 80 without TLS (consider HTTPS redirect)");
    reveal_strlit("' trusts PROXY protocol headers from ");
    reveal_strlit(
        ": any client that can reach it can spoof its address (only safe on isolated networks)",
    );
}

proof fn lemma_general_marks()
    ensures
        mark(lint::hsts_warning()).0 == 'T',
        mark("Metrics are disabled (recommended for production monitoring)"@).0 == 'M',
        mark("Access logs are disabled (recommended for debugging and compliance)"@).0 == 'A',
        mark("Access logs are disabled (recommended for debugging and compliance)"@).1 == ')',
{
    reveal_strlit(
        "TLS is enabled but no HSTS (Strict-Transport-Security) header is configured. Consider adding HSTS to protect against protocol downgrade attacks and cookie hijacking. Recommended value: 'max-age=31536000; includeSubDomains'",
    );
    reveal_strlit("Metrics are disabled (recommended for production monitoring)");
    reveal_strlit("Access logs are disabled (recommended for debugging and compliance)");
}

proof fn lemma_long_marks(a: Seq<char>, b: Seq<char>, m: Seq<char>, x: int, y: int)
    ensures
        mark(unreachable(a, x, b, y)).0 == 'R',
        mark(unreachable(a, x, b, y)).1 == '.',
        mark(unreachable(a, x, b, y)).2 == '\'',
        mark(inherited_mode(a, b, m)).0 == 'A',
        mark(inherited_mode(a, b, m)).1 == '.',
        mark(live_mirror(a, b)).0 == 'R',
        mark(live_mirror(a, b)).1 == '.',
        mark(live_mirror(a, b)).2 == 's',
{
    reveal_strlit("Route '");
    reveal_strlit("'.");
    reveal_strlit("Agent filter '");
    reveal_strlit("'). Set failure-mode on the filter to make the policy explicit.");
    reveal_strlit(
        ". Mirrored requests will hit production; use a dedicated shadow upstream to avoid duplicate side effects.",
    );
}

/// What stands between two texts is found again.
proof fn lemma_middle(head: Seq<char>, x: Seq<char>, y: Seq<char>, tail: Seq<char>)
    requires
        head + x + tail == head + y + tail,
    ensures
        x == y,
{
    let a = head + x + tail;
    let b = head + y + tail;
    assert(a.len() == b.len());
    assert(x.len() == y.len());
    assert forall|i: int| 0 <= i < x.len() implies x[i] == y[i] by {
        assert(a[head.len() + i] == x[i]);
        assert(b[head.len() + i] == y[i]);
    }
    assert(x =~= y);
}

// ---------------------------------------------------------------------------
// The reasons
// ---------------------------------------------------------------------------

/// Some route gives a reason for the text.
spec fn of_routes(routes: Seq<RouteConfig>, t: Seq<char>) -> bool {
    exists|i: int| 0 <= i < routes.len() && of_route(#[trigger] routes[i], t)
}

spec fn of_route(r: RouteConfig, t: Seq<char>) -> bool {
    ||| r.retry_policy is None && t == no_retry(r.id@)
    ||| r.policies.timeout_secs is None && t == no_timeout(r.id@)
    ||| r.upstream is None && !(r.service_type is Static) && !(r.service_type is Builtin) && t
        == no_upstream(r.id@)
}

spec fn of_upstreams(m: Seq<(Seq<char>, UpstreamConfig)>, t: Seq<char>) -> bool {
    exists|i: int| 0 <= i < m.len() && of_upstream(#[trigger] m[i], t)
}

spec fn of_upstream(e: (Seq<char>, UpstreamConfig), t: Seq<char>) -> bool {
    e.1.health_check is None && (t == no_health_check(e.0) || e.1.targets@.len() == 1 && t
        == no_failover(e.0))
}

spec fn of_listeners(ls: Seq<ListenerConfig>, t: Seq<char>) -> bool {
    exists|i: int| 0 <= i < ls.len() && of_listener(#[trigger] ls[i], t)
}

spec fn of_listener(l: ListenerConfig, t: Seq<char>) -> bool {
    ||| l.tls is None && ":80"@.is_suffix_of(l.address@) && t == plain_http(l.address@)
    ||| believes_all(l) && t == open_trust(l.address@, believed(l))
}

/// A whole address family.
pub open spec fn everyone(block: Seq<char>) -> bool {
    block == "0.0.0.0/0"@ || block == "::/0"@
}

/// The listener takes everyone's word for the address of a client.
pub open spec fn believes_all(l: ListenerConfig) -> bool {
    l.proxy_protocol matches Some(p) && exists|i: int|
        0 <= i < p.trusted@.len() && everyone(#[trigger] p.trusted@[i]@)
}

spec fn believed(l: ListenerConfig) -> Seq<char> {
    l.proxy_protocol->0.trusted.deep_view()[lint::first_trust_all(
        l.proxy_protocol->0.trusted.deep_view(),
        0,
    )]
}

spec fn of_shadowing(routes: Seq<RouteConfig>, n: int, t: Seq<char>) -> bool {
    exists|i: int| 0 <= i < n && #[trigger] of_shadowed(routes, i, t)
}

spec fn of_shadowed(routes: Seq<RouteConfig>, i: int, t: Seq<char>) -> bool {
    shadow::shadower(routes, i) matches Some(h) && t == unreachable(
        routes[i].id@,
        routes[i].priority.weight as int,
        routes[h].id@,
        routes[h].priority.weight as int,
    )
}

/// The filter calls an agent and leaves open what happens when the agent fails.
pub open spec fn leaves_open(filters: Seq<(Seq<char>, FilterConfig)>, id: Seq<char>) -> bool {
    exists|i: int|
        0 <= i < filters.len() && (#[trigger] filters[i]).0 == id && (
        filters[i].1.filter matches Filter::Agent(a) && a.failure_mode is None)
}

spec fn of_filters(
    filters: Seq<(Seq<char>, FilterConfig)>,
    r: RouteConfig,
    n: int,
    t: Seq<char>,
) -> bool {
    exists|i: int|
        0 <= i < n && leaves_open(filters, (#[trigger] r.filters@[i])@) && t == inherited_mode(
            r.filters@[i]@,
            r.id@,
            config::failure_mode_name(r.policies.failure_mode),
        )
}

spec fn of_all_filters(
    filters: Seq<(Seq<char>, FilterConfig)>,
    routes: Seq<RouteConfig>,
    t: Seq<char>,
) -> bool {
    exists|i: int|
        0 <= i < routes.len() && of_filters(
            filters,
            #[trigger] routes[i],
            routes[i].filters@.len() as int,
            t,
        )
}

/// Live traffic goes to the upstream.
pub open spec fn is_live(routes: Seq<RouteConfig>, upstream: Seq<char>) -> bool {
    exists|i: int|
        0 <= i < routes.len() && ((#[trigger] routes[i]).upstream matches Some(u) && u@ == upstream)
}

/// How the upstream that a route mirrors its traffic to is called.
pub open spec fn mirrored_to(r: RouteConfig, upstream: Seq<char>) -> Seq<char> {
    if r.upstream is Some && r.upstream->0@ == upstream {
        "its own primary upstream"@
    } else {
        "upstream '"@ + upstream + "', which serves live traffic"@
    }
}

spec fn of_mirrors(routes: Seq<RouteConfig>, n: int, t: Seq<char>) -> bool {
    exists|i: int| 0 <= i < n && of_mirror(routes, #[trigger] routes[i], t)
}

spec fn of_mirror(routes: Seq<RouteConfig>, r: RouteConfig, t: Seq<char>) -> bool {
    r.shadow matches Some(s) && is_live(routes, s.upstream@) && t == live_mirror(
        r.id@,
        mirrored_to(r, s.upstream@),
    )
}

/// A header that keeps clients on TLS is among the headers.
pub open spec fn keeps_tls(headers: Seq<(Seq<char>, Seq<char>)>) -> bool {
    exists|i: int|
        0 <= i < headers.len() && text::eq_ignore_case(
            (#[trigger] headers[i]).0,
            "Strict-Transport-Security"@,
        )
}

/// Clients are told to stay on TLS, by a route or by a filter.
pub open spec fn told_to_keep_tls(c: Config) -> bool {
    ||| exists|i: int|
        0 <= i < c.routes@.len() && (keeps_tls(
            (#[trigger] c.routes@[i]).policies.response_headers.set.deep_view(),
        ) || keeps_tls(c.routes@[i].policies.response_headers.add.deep_view()))
    ||| exists|i: int|
        0 <= i < c.filters.deep_view().len() && ((
        #[trigger] c.filters.deep_view()[i]).1.filter matches Filter::Headers(h) && (keeps_tls(
            h.set.deep_view(),
        ) || keeps_tls(h.add.deep_view())))
}

/// Some listener serves TLS.
pub open spec fn serves_tls(c: Config) -> bool {
    exists|i: int| 0 <= i < c.listeners@.len() && (#[trigger] c.listeners@[i]).tls is Some
}

spec fn of_config(c: Config, t: Seq<char>) -> bool {
    ||| serves_tls(c) && !told_to_keep_tls(c) && t == lint::hsts_warning()
    ||| !c.observability.metrics.enabled && t
        == "Metrics are disabled (recommended for production monitoring)"@
    ||| c.observability.logging.access_log is Some && !c.observability.logging.access_log->0.enabled
        && t == "Access logs are disabled (recommended for debugging and compliance)"@
}

// ---------------------------------------------------------------------------
// Each text has its reason
// ---------------------------------------------------------------------------

proof fn lemma_push_if(list: Seq<Seq<char>>, b: bool, x: Seq<char>, t: Seq<char>)
    ensures
        lint::push_if(list, b, x).contains(t) <==> list.contains(t) || (b && t == x),
{
    let r = lint::push_if(list, b, x);
    if list.contains(t) {
        let i = choose|i: int| 0 <= i < list.len() && list[i] == t;
        assert(r[i] == t);
    }
    if b {
        assert(r[list.len() as int] == x);
    }
    if r.contains(t) {
        let i = choose|i: int| 0 <= i < r.len() && r[i] == t;
        if i < list.len() {
            assert(list[i] == t);
        }
    }
}

proof fn lemma_routes(before: Seq<Seq<char>>, routes: Seq<RouteConfig>, t: Seq<char>)
    ensures
        lint::routes_warnings(before, routes).contains(t) <==> before.contains(t) || of_routes(
            routes,
            t,
        ),
    decreases routes.len(),
{
    if routes.len() > 0 {
        let init = routes.drop_last();
        let r = routes.last();
        lemma_routes(before, init, t);
        let rest = lint::routes_warnings(before, init);
        let a = lint::push_if(
            rest,
            r.retry_policy is None,
            lint::about_route(r.id@, "' has no retry policy (recommended for production)"@),
        );
        let b = lint::push_if(
            a,
            r.policies.timeout_secs is None,
            lint::about_route(r.id@, "' has no timeout (recommended for production)"@),
        );
        lemma_push_if(
            rest,
            r.retry_policy is None,
            lint::about_route(r.id@, "' has no retry policy (recommended for production)"@),
            t,
        );
        lemma_push_if(
            a,
            r.policies.timeout_secs is None,
            lint::about_route(r.id@, "' has no timeout (recommended for production)"@),
            t,
        );
        lemma_push_if(
            b,
            r.upstream is None && lint::wants_upstream(r),
            lint::about_route(r.id@, "' has no upstream configured"@),
            t,
        );
        assert(lint::routes_warnings(before, routes).contains(t) <==> rest.contains(t) || of_route(
            r,
            t,
        ));
        if of_routes(init, t) {
            let i = choose|i: int| 0 <= i < init.len() && of_route(#[trigger] init[i], t);
            assert(of_route(routes[i], t));
        }
        if of_routes(routes, t) {
            let i = choose|i: int| 0 <= i < routes.len() && of_route(#[trigger] routes[i], t);
            if i < init.len() {
                assert(of_route(init[i], t));
            }
        }
        assert(routes[routes.len() - 1] == r);
    }
}

proof fn lemma_upstreams(
    before: Seq<Seq<char>>,
    m: Seq<(Seq<char>, UpstreamConfig)>,
    t: Seq<char>,
)
    ensures
        lint::upstreams_warnings(before, m).contains(t) <==> before.contains(t) || of_upstreams(
            m,
            t,
        ),
    decreases m.len(),
{
    if m.len() > 0 {
        let init = m.drop_last();
        let e = m.last();
        lemma_upstreams(before, init, t);
        let rest = lint::upstreams_warnings(before, init);
        let a = lint::push_if(rest, e.1.health_check is None, no_health_check(e.0));
        lemma_push_if(rest, e.1.health_check is None, no_health_check(e.0), t);
        lemma_push_if(
            a,
            e.1.targets@.len() == 1 && e.1.health_check is None,
            no_failover(e.0),
            t,
        );
        assert(lint::upstreams_warnings(before, m).contains(t) <==> rest.contains(t) || of_upstream(
            e,
            t,
        ));
        if of_upstreams(init, t) {
            let i = choose|i: int| 0 <= i < init.len() && of_upstream(#[trigger] init[i], t);
            assert(of_upstream(m[i], t));
        }
        if of_upstreams(m, t) {
            let i = choose|i: int| 0 <= i < m.len() && of_upstream(#[trigger] m[i], t);
            if i < init.len() {
                assert(of_upstream(init[i], t));
            }
        }
        assert(m[m.len() - 1] == e);
    }
}

proof fn lemma_first_trust(blocks: Seq<Seq<char>>, from: int)
    requires
        0 <= from <= blocks.len(),
    ensures
        from <= lint::first_trust_all(blocks, from) <= blocks.len(),
        lint::first_trust_all(blocks, from) < blocks.len() ==> everyone(
            blocks[lint::first_trust_all(blocks, from)],
        ),
        forall|i: int|
            from <= i < lint::first_trust_all(blocks, from) ==> !everyone(#[trigger] blocks[i]),
    decreases blocks.len() - from,
{
    if from < blocks.len() && !everyone(blocks[from]) {
        lemma_first_trust(blocks, from + 1);
    }
}

proof fn lemma_believed(l: ListenerConfig)
    ensures
        lint::trusts_all(l) == (if believes_all(l) {
            Some(believed(l))
        } else {
            None
        }),
        believes_all(l) ==> everyone(believed(l)),
{
    if let Some(p) = l.proxy_protocol {
        let blocks = p.trusted.deep_view();
        lemma_first_trust(blocks, 0);
        assert forall|i: int| 0 <= i < blocks.len() implies blocks[i] == (
        #[trigger] p.trusted@[i])@ by {}
        let k = lint::first_trust_all(blocks, 0);
        if k < blocks.len() {
            assert(everyone(p.trusted@[k]@));
        }
        if believes_all(l) {
            let i = choose|i: int| 0 <= i < p.trusted@.len() && everyone(#[trigger] p.trusted@[i]@);
            assert(everyone(blocks[i]));
        }
    }
}

proof fn lemma_listeners(before: Seq<Seq<char>>, ls: Seq<ListenerConfig>, t: Seq<char>)
    ensures
        lint::listeners_warnings(before, ls).contains(t) <==> before.contains(t) || of_listeners(
            ls,
            t,
        ),
    decreases ls.len(),
{
    if ls.len() > 0 {
        let init = ls.drop_last();
        let l = ls.last();
        lemma_listeners(before, init, t);
        lemma_believed(l);
        let rest = lint::listeners_warnings(before, init);
        let plain = ":80"@.is_suffix_of(l.address@) && l.tls is None;
        let a = lint::push_if(rest, plain, plain_http(l.address@));
        lemma_push_if(rest, plain, plain_http(l.address@), t);
        lemma_push_if(a, believes_all(l), open_trust(l.address@, believed(l)), t);
        assert(lint::listeners_warnings(before, ls) == lint::push_if(
            a,
            believes_all(l),
            open_trust(l.address@, believed(l)),
        ));
        if of_listeners(init, t) {
            let i = choose|i: int| 0 <= i < init.len() && of_listener(#[trigger] init[i], t);
            assert(of_listener(ls[i], t));
        }
        if of_listeners(ls, t) {
            let i = choose|i: int| 0 <= i < ls.len() && of_listener(#[trigger] ls[i], t);
            if i < init.len() {
                assert(of_listener(init[i], t));
            }
        }
        assert(ls[ls.len() - 1] == l);
    }
}

proof fn lemma_unreachable(before: Seq<Seq<char>>, routes: Seq<RouteConfig>, n: int, t: Seq<char>)
    requires
        0 <= n <= routes.len(),
    ensures
        lint::unreachable_warnings(before, routes, n).contains(t) <==> before.contains(t)
            || of_shadowing(routes, n, t),
    decreases n,
{
    if n > 0 {
        lemma_unreachable(before, routes, n - 1, t);
        let rest = lint::unreachable_warnings(before, routes, n - 1);
        if let Some(h) = shadow::shadower(routes, n - 1) {
            let w = unreachable(
                routes[n - 1].id@,
                routes[n - 1].priority.weight as int,
                routes[h].id@,
                routes[h].priority.weight as int,
            );
            lemma_push_if(rest, true, w, t);
        }
        if of_shadowing(routes, n - 1, t) {
            let i = choose|i: int| 0 <= i < n - 1 && #[trigger] of_shadowed(routes, i, t);
            assert(of_shadowed(routes, i, t));
        }
        if of_shadowing(routes, n, t) {
            let i = choose|i: int| 0 <= i < n && #[trigger] of_shadowed(routes, i, t);
            if i < n - 1 {
                assert(of_shadowing(routes, n - 1, t));
            }
        }
        if of_shadowed(routes, n - 1, t) {
            assert(of_shadowing(routes, n, t));
        }
    }
}

proof fn lemma_leaves_open(filters: Seq<(Seq<char>, FilterConfig)>, id: Seq<char>)
    requires
        strmap::sorted(filters),
    ensures
        lint::implied_policy(filters, id) <==> leaves_open(filters, id),
{
    strmap::lemma_get_none(filters, id);
    strmap::lemma_rank(filters, id);
    if strmap::get(filters, id) is Some {
        let i = strmap::rank(filters, id);
        assert(filters[i].0 == id);
        assert forall|j: int| 0 <= j < filters.len() && (#[trigger] filters[j]).0 == id implies j
            == i by {
            strmap::lemma_get_at(filters, j);
        }
    }
}

proof fn lemma_filters(
    before: Seq<Seq<char>>,
    filters: Seq<(Seq<char>, FilterConfig)>,
    r: RouteConfig,
    n: int,
    t: Seq<char>,
)
    requires
        strmap::sorted(filters),
        0 <= n <= r.filters@.len(),
    ensures
        lint::filter_warnings(before, filters, r, n).contains(t) <==> before.contains(t)
            || of_filters(filters, r, n, t),
    decreases n,
{
    if n > 0 {
        lemma_filters(before, filters, r, n - 1, t);
        let rest = lint::filter_warnings(before, filters, r, n - 1);
        let id = r.filters@[n - 1]@;
        lemma_leaves_open(filters, id);
        let w = inherited_mode(id, r.id@, config::failure_mode_name(r.policies.failure_mode));
        lemma_push_if(rest, leaves_open(filters, id), w, t);
    }
}

proof fn lemma_all_filters(
    before: Seq<Seq<char>>,
    filters: Seq<(Seq<char>, FilterConfig)>,
    routes: Seq<RouteConfig>,
    t: Seq<char>,
)
    requires
        strmap::sorted(filters),
    ensures
        lint::filters_warnings(before, filters, routes).contains(t) <==> before.contains(t)
            || of_all_filters(filters, routes, t),
    decreases routes.len(),
{
    if routes.len() > 0 {
        let init = routes.drop_last();
        let r = routes.last();
        lemma_all_filters(before, filters, init, t);
        let rest = lint::filters_warnings(before, filters, init);
        lemma_filters(rest, filters, r, r.filters@.len() as int, t);
        if of_all_filters(filters, init, t) {
            let i = choose|i: int|
                0 <= i < init.len() && of_filters(
                    filters,
                    #[trigger] init[i],
                    init[i].filters@.len() as int,
                    t,
                );
            assert(routes[i] == init[i]);
        }
        if of_all_filters(filters, routes, t) {
            let i = choose|i: int|
                0 <= i < routes.len() && of_filters(
                    filters,
                    #[trigger] routes[i],
                    routes[i].filters@.len() as int,
                    t,
                );
            if i < init.len() {
                assert(routes[i] == init[i]);
            }
        }
        assert(routes[routes.len() - 1] == r);
    }
}

proof fn lemma_live(routes: Seq<RouteConfig>, upstream: Seq<char>)
    ensures
        lint::is_primary(routes, upstream) <==> is_live(routes, upstream),
{
    if lint::is_primary(routes, upstream) {
        let i = choose|i: int|
            0 <= i < routes.len() && (#[trigger] routes[i]).upstream.deep_view() == Some(upstream);
        assert(routes[i].upstream is Some);
    }
    if is_live(routes, upstream) {
        let i = choose|i: int|
            0 <= i < routes.len() && ((#[trigger] routes[i]).upstream matches Some(u) && u@
                == upstream);
        assert(routes[i].upstream.deep_view() == Some(upstream));
    }
}

proof fn lemma_mirrors(before: Seq<Seq<char>>, routes: Seq<RouteConfig>, n: int, t: Seq<char>)
    requires
        0 <= n <= routes.len(),
    ensures
        lint::mirror_warnings(before, routes, n).contains(t) <==> before.contains(t) || of_mirrors(
            routes,
            n,
            t,
        ),
    decreases n,
{
    if n > 0 {
        lemma_mirrors(before, routes, n - 1, t);
        let rest = lint::mirror_warnings(before, routes, n - 1);
        let r = routes[n - 1];
        if let Some(s) = r.shadow {
            lemma_live(routes, s.upstream@);
            lemma_push_if(
                rest,
                is_live(routes, s.upstream@),
                live_mirror(r.id@, mirrored_to(r, s.upstream@)),
                t,
            );
            assert((r.upstream.deep_view() == Some(s.upstream@)) <==> (r.upstream is Some
                && r.upstream->0@ == s.upstream@));
        }
    }
}

/// The checks say a text exactly where the configuration gives a reason for it.
proof fn lemma_said(c: Config, t: Seq<char>)
    requires
        strmap::sorted(c.filters.deep_view()),
    ensures
        lint::warnings_of(c).contains(t) <==> {
            ||| of_routes(c.routes@, t)
            ||| of_upstreams(c.upstreams.deep_view(), t)
            ||| of_listeners(c.listeners@, t)
            ||| of_config(c, t)
            ||| of_shadowing(c.routes@, c.routes@.len() as int, t)
            ||| of_all_filters(c.filters.deep_view(), c.routes@, t)
            ||| of_mirrors(c.routes@, c.routes@.len() as int, t)
        },
{
    let none = Seq::<Seq<char>>::empty();
    let a = lint::routes_warnings(none, c.routes@);
    lemma_routes(none, c.routes@, t);
    let b = lint::upstreams_warnings(a, c.upstreams.deep_view());
    lemma_upstreams(a, c.upstreams.deep_view(), t);
    let d = lint::listeners_warnings(b, c.listeners@);
    lemma_listeners(b, c.listeners@, t);
    lemma_pinned(c);
    let p = serves_tls(c) && !told_to_keep_tls(c);
    let e = lint::push_if(d, p, lint::hsts_warning());
    lemma_push_if(d, p, lint::hsts_warning(), t);
    let m = "Metrics are disabled (recommended for production monitoring)"@;
    let f = lint::push_if(e, !c.observability.metrics.enabled, m);
    lemma_push_if(e, !c.observability.metrics.enabled, m, t);
    let q = c.observability.logging.access_log is Some
        && !c.observability.logging.access_log->0.enabled;
    let w = "Access logs are disabled (recommended for debugging and compliance)"@;
    let g = lint::push_if(f, q, w);
    lemma_push_if(f, q, w, t);
    let h = lint::unreachable_warnings(g, c.routes@, c.routes@.len() as int);
    lemma_unreachable(g, c.routes@, c.routes@.len() as int, t);
    let i = lint::filters_warnings(h, c.filters.deep_view(), c.routes@);
    lemma_all_filters(h, c.filters.deep_view(), c.routes@, t);
    lemma_mirrors(i, c.routes@, c.routes@.len() as int, t);
}

proof fn lemma_keeps(headers: Seq<(Seq<char>, Seq<char>)>)
    ensures
        lint::sets_hsts(headers) <==> keeps_tls(headers),
{
    if keeps_tls(headers) {
        let i = choose|i: int|
            0 <= i < headers.len() && text::eq_ignore_case(
                (#[trigger] headers[i]).0,
                "Strict-Transport-Security"@,
            );
        assert(text::eq_ignore_case(headers[i].0, lint::HSTS_HEADER@));
    }
}

proof fn lemma_pinned(c: Config)
    ensures
        lint::has_hsts(c) <==> told_to_keep_tls(c),
        lint::has_tls(c.listeners@) <==> serves_tls(c),
{
    assert forall|i: int| 0 <= i < c.routes@.len() implies (lint::modifications_set_hsts(
        (#[trigger] c.routes@[i]).policies.response_headers,
    ) <==> keeps_tls(c.routes@[i].policies.response_headers.set.deep_view()) || keeps_tls(
        c.routes@[i].policies.response_headers.add.deep_view(),
    )) by {
        lemma_keeps(c.routes@[i].policies.response_headers.set.deep_view());
        lemma_keeps(c.routes@[i].policies.response_headers.add.deep_view());
    }
    let fs = c.filters.deep_view();
    assert forall|i: int| 0 <= i < fs.len() implies (lint::filter_sets_hsts(
        (#[trigger] fs[i]).1,
    ) <==> (fs[i].1.filter matches Filter::Headers(h) && (keeps_tls(h.set.deep_view())
        || keeps_tls(h.add.deep_view())))) by {
        if let Filter::Headers(h) = fs[i].1.filter {
            lemma_keeps(h.set.deep_view());
            lemma_keeps(h.add.deep_view());
        }
    }
}

// ---------------------------------------------------------------------------
// Laws
// ---------------------------------------------------------------------------

/// No text of the other checks reads like one about the settings of a route.
proof fn lemma_about_routes_only(c: Config, t: Seq<char>)
    requires
        strmap::sorted(c.filters.deep_view()),
        mark(t).0 == 'R',
        mark(t).1 != '.',
    ensures
        lint::warnings_of(c).contains(t) <==> of_routes(c.routes@, t),
{
    lemma_said(c, t);
    let m = c.upstreams.deep_view();
    if of_upstreams(m, t) {
        let i = choose|i: int| 0 <= i < m.len() && of_upstream(#[trigger] m[i], t);
        lemma_upstream_marks(m[i].0);
    }
    if of_listeners(c.listeners@, t) {
        let i = choose|i: int|
            0 <= i < c.listeners@.len() && of_listener(#[trigger] c.listeners@[i], t);
        lemma_listener_marks(c.listeners@[i].address@, believed(c.listeners@[i]));
    }
    lemma_general_marks();
    lemma_long_kinds(c, t);
}

proof fn lemma_long_kinds(c: Config, t: Seq<char>)
    ensures
        of_shadowing(c.routes@, c.routes@.len() as int, t) ==> mark(t).0 == 'R' && mark(t).1 == '.'
            && mark(t).2 == '\'',
        of_all_filters(c.filters.deep_view(), c.routes@, t) ==> mark(t).0 == 'A' && mark(t).1
            == '.',
        of_mirrors(c.routes@, c.routes@.len() as int, t) ==> mark(t).0 == 'R' && mark(t).1 == '.'
            && mark(t).2 == 's',
{
    let rs = c.routes@;
    let fs = c.filters.deep_view();
    if of_shadowing(rs, rs.len() as int, t) {
        let i = choose|i: int| 0 <= i < rs.len() && #[trigger] of_shadowed(rs, i, t);
        let h = shadow::shadower(rs, i)->0;
        lemma_long_marks(
            rs[i].id@,
            rs[h].id@,
            rs[i].id@,
            rs[i].priority.weight as int,
            rs[h].priority.weight as int,
        );
    }
    if of_all_filters(fs, rs, t) {
        let i = choose|i: int|
            0 <= i < rs.len() && of_filters(fs, #[trigger] rs[i], rs[i].filters@.len() as int, t);
        let k = choose|k: int|
            0 <= k < rs[i].filters@.len() && leaves_open(fs, (#[trigger] rs[i].filters@[k])@) && t
                == inherited_mode(
                rs[i].filters@[k]@,
                rs[i].id@,
                config::failure_mode_name(rs[i].policies.failure_mode),
            );
        lemma_long_marks(
            rs[i].filters@[k]@,
            rs[i].id@,
            config::failure_mode_name(rs[i].policies.failure_mode),
            0,
            0,
        );
    }
    if of_mirrors(rs, rs.len() as int, t) {
        let i = choose|i: int| 0 <= i < rs.len() && of_mirror(rs, #[trigger] rs[i], t);
        lemma_long_marks(
            rs[i].id@,
            mirrored_to(rs[i], rs[i].shadow->0.upstream@),
            rs[i].id@,
            0,
            0,
        );
    }
}

/// A route draws a warning for each of these, and for no other reason: it has no retry
/// policy; it has no timeout; it names no upstream though it needs one. Nothing else in
/// the configuration draws or hides them.
pub proof fn routes_are_warned_about(c: Config, id: Seq<char>)
    requires
        strmap::sorted(c.filters.deep_view()),
    ensures
        lint::warnings_of(c).contains(
            "Route '"@ + id + "' has no timeout (recommended for production)"@,
        ) <==> exists|i: int|
            0 <= i < c.routes@.len() && (#[trigger] c.routes@[i]).id@ == id
                && c.routes@[i].policies.timeout_secs is None,
        lint::warnings_of(c).contains(
            "Route '"@ + id + "' has no retry policy (recommended for production)"@,
        ) <==> exists|i: int|
            0 <= i < c.routes@.len() && (#[trigger] c.routes@[i]).id@ == id
                && c.routes@[i].retry_policy is None,
        lint::warnings_of(c).contains("Route '"@ + id + "' has no upstream configured"@)
            <==> exists|i: int|
            0 <= i < c.routes@.len() && (#[trigger] c.routes@[i]).id@ == id
                && c.routes@[i].upstream is None && !(c.routes@[i].service_type is Static) && !(
            c.routes@[i].service_type is Builtin),
{
    let rs = c.routes@;
    lemma_route_marks(id);
    lemma_about_routes_only(c, no_timeout(id));
    lemma_about_routes_only(c, no_retry(id));
    lemma_about_routes_only(c, no_upstream(id));
    assert forall|i: int| 0 <= i < rs.len() implies (of_route(#[trigger] rs[i], no_timeout(id))
        <==> rs[i].id@ == id && rs[i].policies.timeout_secs is None) && (of_route(
        rs[i],
        no_retry(id),
    ) <==> rs[i].id@ == id && rs[i].retry_policy is None) && (of_route(rs[i], no_upstream(id))
        <==> rs[i].id@ == id && rs[i].upstream is None && !(rs[i].service_type is Static) && !(
    rs[i].service_type is Builtin)) by {
        let x = rs[i].id@;
        lemma_route_marks(x);
        if no_timeout(x) == no_timeout(id) {
            lemma_middle(
                "Route '"@,
                x,
                id,
                "' has no timeout (recommended for production)"@,
            );
        }
        if no_retry(x) == no_retry(id) {
            lemma_middle(
                "Route '"@,
                x,
                id,
                "' has no retry policy (recommended for production)"@,
            );
        }
        if no_upstream(x) == no_upstream(id) {
            lemma_middle("Route '"@, x, id, "' has no upstream configured"@);
        }
    }
    if of_routes(rs, no_timeout(id)) {
        let i = choose|i: int| 0 <= i < rs.len() && of_route(#[trigger] rs[i], no_timeout(id));
        assert(rs[i].id@ == id);
    }
    if of_routes(rs, no_retry(id)) {
        let i = choose|i: int| 0 <= i < rs.len() && of_route(#[trigger] rs[i], no_retry(id));
        assert(rs[i].id@ == id);
    }
    if of_routes(rs, no_upstream(id)) {
        let i = choose|i: int| 0 <= i < rs.len() && of_route(#[trigger] rs[i], no_upstream(id));
        assert(rs[i].id@ == id);
    }
}

/// A route whose identifier is its own is warned about for want of a timeout exactly if
/// it has none. So no configuration whose routes all have a timeout draws such a warning,
/// and one whose routes all lack it draws one for each of them.
pub proof fn timeouts_are_asked_for(c: Config, i: int)
    requires
        strmap::sorted(c.filters.deep_view()),
        0 <= i < c.routes@.len(),
        forall|j: int|
            0 <= j < c.routes@.len() && j != i ==> (#[trigger] c.routes@[j]).id@
                != c.routes@[i].id@,
    ensures
        lint::warnings_of(c).contains(
            "Route '"@ + c.routes@[i].id@ + "' has no timeout (recommended for production)"@,
        ) <==> c.routes@[i].policies.timeout_secs is None,
        (forall|j: int|
            0 <= j < c.routes@.len() ==> (#[trigger] c.routes@[j]).policies.timeout_secs is Some)
            ==> forall|id: Seq<char>|
            !(#[trigger] lint::warnings_of(c).contains(
                "Route '"@ + id + "' has no timeout (recommended for production)"@,
            )),
        (forall|j: int|
            0 <= j < c.routes@.len() ==> (#[trigger] c.routes@[j]).policies.timeout_secs is None)
            ==> forall|j: int|
            0 <= j < c.routes@.len() ==> lint::warnings_of(c).contains(
                "Route '"@ + (#[trigger] c.routes@[j]).id@
                    + "' has no timeout (recommended for production)"@,
            ),
{
    routes_are_warned_about(c, c.routes@[i].id@);
    assert forall|id: Seq<char>|
        (forall|j: int|
            0 <= j < c.routes@.len() ==> (
            #[trigger] c.routes@[j]).policies.timeout_secs is Some) implies !(
    #[trigger] lint::warnings_of(c).contains(
        "Route '"@ + id + "' has no timeout (recommended for production)"@,
    )) by {
        routes_are_warned_about(c, id);
    }
    assert forall|j: int|
        0 <= j < c.routes@.len() && (#[trigger] c.routes@[j]).policies.timeout_secs is None
        implies lint::warnings_of(c).contains(
        "Route '"@ + c.routes@[j].id@ + "' has no timeout (recommended for production)"@,
    ) by {
        routes_are_warned_about(c, c.routes@[j].id@);
    }
}

/// An upstream is warned about exactly if it has no health check, and once more exactly
/// if it then has a single target.
pub proof fn upstreams_are_warned_about(c: Config, name: Seq<char>)
    requires
        strmap::sorted(c.filters.deep_view()),
    ensures
        lint::warnings_of(c).contains(
            "Upstream '"@ + name + "' has no health check (recommended for production)"@,
        ) <==> exists|i: int|
            0 <= i < c.upstreams.deep_view().len() && (#[trigger] c.upstreams.deep_view()[i]).0
                == name && c.upstreams.deep_view()[i].1.health_check is None,
        lint::warnings_of(c).contains(
            "Upstream '"@ + name
                + "' has only one target and no health check (no failover possible)"@,
        ) <==> exists|i: int|
            0 <= i < c.upstreams.deep_view().len() && (#[trigger] c.upstreams.deep_view()[i]).0
                == name && c.upstreams.deep_view()[i].1.health_check is None
                && c.upstreams.deep_view()[i].1.targets@.len() == 1,
{
    let m = c.upstreams.deep_view();
    lemma_upstream_marks(name);
    lemma_about_upstreams_only(c, no_health_check(name));
    lemma_about_upstreams_only(c, no_failover(name));
    assert forall|i: int| 0 <= i < m.len() implies (of_upstream(
        #[trigger] m[i],
        no_health_check(name),
    ) <==> m[i].0 == name && m[i].1.health_check is None) && (of_upstream(m[i], no_failover(name))
        <==> m[i].0 == name && m[i].1.health_check is None && m[i].1.targets@.len() == 1) by {
        let x = m[i].0;
        lemma_upstream_marks(x);
        if no_health_check(x) == no_health_check(name) {
            lemma_middle(
                "Upstream '"@,
                x,
                name,
                "' has no health check (recommended for production)"@,
            );
        }
        if no_failover(x) == no_failover(name) {
            lemma_middle(
                "Upstream '"@,
                x,
                name,
                "' has only one target and no health check (no failover possible)"@,
            );
        }
    }
    if of_upstreams(m, no_health_check(name)) {
        let i = choose|i: int|
            0 <= i < m.len() && of_upstream(#[trigger] m[i], no_health_check(name));
        assert(m[i].0 == name);
    }
    if of_upstreams(m, no_failover(name)) {
        let i = choose|i: int| 0 <= i < m.len() && of_upstream(#[trigger] m[i], no_failover(name));
        assert(m[i].0 == name);
    }
}

proof fn lemma_about_upstreams_only(c: Config, t: Seq<char>)
    requires
        strmap::sorted(c.filters.deep_view()),
        mark(t).0 == 'U',
    ensures
        lint::warnings_of(c).contains(t) <==> of_upstreams(c.upstreams.deep_view(), t),
{
    lemma_said(c, t);
    lemma_not_of_routes(c, t);
    lemma_not_of_listeners(c, t);
    lemma_general_marks();
    lemma_long_kinds(c, t);
}

proof fn lemma_not_of_routes(c: Config, t: Seq<char>)
    ensures
        of_routes(c.routes@, t) ==> mark(t).0 == 'R' && mark(t).1 != '.',
{
    if of_routes(c.routes@, t) {
        let i = choose|i: int| 0 <= i < c.routes@.len() && of_route(#[trigger] c.routes@[i], t);
        lemma_route_marks(c.routes@[i].id@);
    }
}

proof fn lemma_not_of_upstreams(c: Config, t: Seq<char>)
    ensures
        of_upstreams(c.upstreams.deep_view(), t) ==> mark(t).0 == 'U',
{
    let m = c.upstreams.deep_view();
    if of_upstreams(m, t) {
        let i = choose|i: int| 0 <= i < m.len() && of_upstream(#[trigger] m[i], t);
        lemma_upstream_marks(m[i].0);
    }
}

proof fn lemma_not_of_listeners(c: Config, t: Seq<char>)
    ensures
        of_listeners(c.listeners@, t) ==> mark(t).0 == 'L',
{
    if of_listeners(c.listeners@, t) {
        let i = choose|i: int|
            0 <= i < c.listeners@.len() && of_listener(#[trigger] c.listeners@[i], t);
        lemma_listener_marks(c.listeners@[i].address@, believed(c.listeners@[i]));
    }
}

/// A listener is warned about exactly if it serves port 80 without TLS. One that takes
/// everyone's word for the address of a client is named, with a block that says so; where
/// none does, no such warning is given.
pub proof fn listeners_are_warned_about(c: Config, address: Seq<char>)
    requires
        strmap::sorted(c.filters.deep_view()),
    ensures
        lint::warnings_of(c).contains(
            "Listener '"@ + address
                + "' serves HTTP on port 80 without TLS (consider HTTPS redirect)"@,
        ) <==> exists|i: int|
            0 <= i < c.listeners@.len() && (#[trigger] c.listeners@[i]).address@ == address
                && c.listeners@[i].tls is None && address.len() >= 3 && address.skip(
                address.len() - 3,
            ) == seq![':', '8', '0'],
        forall|i: int|
            0 <= i < c.listeners@.len() && believes_all(#[trigger] c.listeners@[i]) ==> exists|
                block: Seq<char>,
            |
                everyone(block) && #[trigger] lint::warnings_of(c).contains(
                    "Listener '"@ + c.listeners@[i].address@
                        + "' trusts PROXY protocol headers from "@ + block
                        + ": any client that can reach it can spoof its address (only safe on isolated networks)"@,
                ),
        (forall|i: int| 0 <= i < c.listeners@.len() ==> !believes_all(#[trigger] c.listeners@[i]))
            ==> forall|block: Seq<char>|
            !(#[trigger] lint::warnings_of(c).contains(
                "Listener '"@ + address + "' trusts PROXY protocol headers from "@ + block
                    + ": any client that can reach it can spoof its address (only safe on isolated networks)"@,
            )),
{
    let ls = c.listeners@;
    reveal_strlit(":80");
    assert(":80"@ =~= seq![':', '8', '0']);
    assert(":80"@.is_suffix_of(address) <==> address.len() >= 3 && address.skip(address.len() - 3)
        == seq![':', '8', '0']) by {
        if address.len() >= 3 {
            assert(address.skip(address.len() - 3) =~= address.subrange(
                address.len() - 3,
                address.len() as int,
            ));
        }
    }
    let t = plain_http(address);
    lemma_listener_marks(address, address);
    lemma_about_listeners_only(c, t);
    assert forall|i: int| 0 <= i < ls.len() implies (of_listener(#[trigger] ls[i], t)
        <==> ls[i].address@ == address && ls[i].tls is None && ":80"@.is_suffix_of(address)) by {
        lemma_listener_marks(ls[i].address@, believed(ls[i]));
        if plain_http(ls[i].address@) == t {
            lemma_middle(
                "Listener '"@,
                ls[i].address@,
                address,
                "' serves HTTP on port 80 without TLS (consider HTTPS redirect)"@,
            );
        }
    }
    if of_listeners(ls, t) {
        let i = choose|i: int| 0 <= i < ls.len() && of_listener(#[trigger] ls[i], t);
        assert(ls[i].address@ == address);
    }
    assert forall|i: int| 0 <= i < ls.len() && believes_all(#[trigger] ls[i]) implies exists|
        block: Seq<char>,
    |
        everyone(block) && #[trigger] lint::warnings_of(c).contains(
            "Listener '"@ + ls[i].address@ + "' trusts PROXY protocol headers from "@ + block
                + ": any client that can reach it can spoof its address (only safe on isolated networks)"@,
        ) by {
        let block = believed(ls[i]);
        lemma_believed(ls[i]);
        let u = open_trust(ls[i].address@, block);
        lemma_said(c, u);
        assert(of_listener(ls[i], u));
        assert(everyone(block) && lint::warnings_of(c).contains(u));
    }
    assert forall|block: Seq<char>|
        (forall|i: int| 0 <= i < ls.len() ==> !believes_all(#[trigger] ls[i])) implies !(
    #[trigger] lint::warnings_of(c).contains(
        "Listener '"@ + address + "' trusts PROXY protocol headers from "@ + block
            + ": any client that can reach it can spoof its address (only safe on isolated networks)"@,
    )) by {
        let u = open_trust(address, block);
        lemma_listener_marks(address, block);
        lemma_about_listeners_only(c, u);
        if of_listeners(ls, u) {
            let i = choose|i: int| 0 <= i < ls.len() && of_listener(#[trigger] ls[i], u);
            lemma_listener_marks(ls[i].address@, block);
        }
    }
}

proof fn lemma_about_listeners_only(c: Config, t: Seq<char>)
    requires
        strmap::sorted(c.filters.deep_view()),
        mark(t).0 == 'L',
    ensures
        lint::warnings_of(c).contains(t) <==> of_listeners(c.listeners@, t),
{
    lemma_said(c, t);
    lemma_not_of_routes(c, t);
    lemma_not_of_upstreams(c, t);
    lemma_general_marks();
    lemma_long_kinds(c, t);
}

/// The header that keeps clients on TLS is asked for exactly if some listener serves TLS
/// and neither a route nor a filter sends the header. Metrics and the access log are asked
/// for exactly if they are switched off; an access log that is not mentioned is not.
pub proof fn the_whole_is_warned_about(c: Config)
    requires
        strmap::sorted(c.filters.deep_view()),
    ensures
        lint::warnings_of(c).contains(
            "TLS is enabled but no HSTS (Strict-Transport-Security) header is configured. Consider adding HSTS to protect against protocol downgrade attacks and cookie hijacking. Recommended value: 'max-age=31536000; includeSubDomains'"@,
        ) <==> serves_tls(c) && !told_to_keep_tls(c),
        lint::warnings_of(c).contains(
            "Metrics are disabled (recommended for production monitoring)"@,
        ) <==> !c.observability.metrics.enabled,
        lint::warnings_of(c).contains(
            "Access logs are disabled (recommended for debugging and compliance)"@,
        ) <==> (c.observability.logging.access_log matches Some(log) && !log.enabled),
{
    let a = lint::hsts_warning();
    let b = "Metrics are disabled (recommended for production monitoring)"@;
    let d = "Access logs are disabled (recommended for debugging and compliance)"@;
    lemma_general_marks();
    lemma_general(c, a);
    lemma_general(c, b);
    lemma_general(c, d);
}

proof fn lemma_general(c: Config, t: Seq<char>)
    requires
        strmap::sorted(c.filters.deep_view()),
        mark(t).0 == 'T' || mark(t).0 == 'M' || (mark(t).0 == 'A' && mark(t).1 == ')'),
    ensures
        lint::warnings_of(c).contains(t) <==> of_config(c, t),
{
    lemma_said(c, t);
    lemma_not_of_routes(c, t);
    lemma_not_of_upstreams(c, t);
    lemma_not_of_listeners(c, t);
    lemma_long_kinds(c, t);
}

/// A route that another one shadows is named together with that one and the priorities of
/// both. Where no route is shadowed, none is called unreachable.
pub proof fn shadowed_routes_are_warned_about(c: Config)
    requires
        strmap::sorted(c.filters.deep_view()),
    ensures
        forall|i: int|
            0 <= i < c.routes@.len() ==> (#[trigger] shadow::shadower(
                c.routes@,
                i,
            ) matches Some(h) ==> lint::warnings_of(c).contains(
                unreachable(
                    c.routes@[i].id@,
                    c.routes@[i].priority.weight as int,
                    c.routes@[h].id@,
                    c.routes@[h].priority.weight as int,
                ),
            )),
        (forall|i: int|
            0 <= i < c.routes@.len() ==> #[trigger] shadow::shadower(c.routes@, i) is None)
            ==> forall|id: Seq<char>, by: Seq<char>, x: int, y: int|
            !(#[trigger] lint::warnings_of(c).contains(unreachable(id, x, by, y))),
{
    let rs = c.routes@;
    assert forall|i: int| 0 <= i < rs.len() implies (#[trigger] shadow::shadower(
        rs,
        i,
    ) matches Some(h) ==> lint::warnings_of(c).contains(
        unreachable(
            rs[i].id@,
            rs[i].priority.weight as int,
            rs[h].id@,
            rs[h].priority.weight as int,
        ),
    )) by {
        if let Some(h) = shadow::shadower(rs, i) {
            let t = unreachable(
                rs[i].id@,
                rs[i].priority.weight as int,
                rs[h].id@,
                rs[h].priority.weight as int,
            );
            lemma_said(c, t);
            assert(of_shadowed(rs, i, t));
        }
    }
    assert forall|id: Seq<char>, by: Seq<char>, x: int, y: int|
        (forall|i: int| 0 <= i < rs.len() ==> #[trigger] shadow::shadower(rs, i) is None)
        implies !(#[trigger] lint::warnings_of(c).contains(unreachable(id, x, by, y))) by {
        let t = unreachable(id, x, by, y);
        lemma_long_marks(id, by, id, x, y);
        lemma_said(c, t);
        lemma_not_of_routes(c, t);
        lemma_not_of_upstreams(c, t);
        lemma_not_of_listeners(c, t);
        lemma_general_marks();
        lemma_long_kinds(c, t);
        if of_shadowing(rs, rs.len() as int, t) {
            let i = choose|i: int| 0 <= i < rs.len() && #[trigger] of_shadowed(rs, i, t);
            assert(shadow::shadower(rs, i) is Some);
        }
    }
}

/// Every filter of a route that calls an agent and leaves its failure mode open is named,
/// with the mode that it inherits from the route. Where no filter that a route runs leaves
/// it open, none is named.
pub proof fn inherited_modes_are_warned_about(c: Config)
    requires
        strmap::sorted(c.filters.deep_view()),
    ensures
        forall|i: int, k: int|
            0 <= i < c.routes@.len() && 0 <= k < c.routes@[i].filters@.len() && leaves_open(
                c.filters.deep_view(),
                (#[trigger] c.routes@[i].filters@[k])@,
            ) ==> lint::warnings_of(c).contains(
                inherited_mode(
                    c.routes@[i].filters@[k]@,
                    c.routes@[i].id@,
                    config::failure_mode_name(c.routes@[i].policies.failure_mode),
                ),
            ),
        (forall|i: int, k: int|
            0 <= i < c.routes@.len() && 0 <= k < c.routes@[i].filters@.len() ==> !leaves_open(
                c.filters.deep_view(),
                (#[trigger] c.routes@[i].filters@[k])@,
            )) ==> forall|f: Seq<char>, r: Seq<char>, m: Seq<char>|
            !(#[trigger] lint::warnings_of(c).contains(inherited_mode(f, r, m))),
{
    let rs = c.routes@;
    let fs = c.filters.deep_view();
    assert forall|i: int, k: int|
        0 <= i < rs.len() && 0 <= k < rs[i].filters@.len() && leaves_open(
            fs,
            (#[trigger] rs[i].filters@[k])@,
        ) implies lint::warnings_of(c).contains(
        inherited_mode(
            rs[i].filters@[k]@,
            rs[i].id@,
            config::failure_mode_name(rs[i].policies.failure_mode),
        ),
    ) by {
        let t = inherited_mode(
            rs[i].filters@[k]@,
            rs[i].id@,
            config::failure_mode_name(rs[i].policies.failure_mode),
        );
        lemma_said(c, t);
        assert(of_filters(fs, rs[i], rs[i].filters@.len() as int, t));
    }
    assert forall|f: Seq<char>, r: Seq<char>, m: Seq<char>|
        (forall|i: int, k: int|
            0 <= i < rs.len() && 0 <= k < rs[i].filters@.len() ==> !leaves_open(
                fs,
                (#[trigger] rs[i].filters@[k])@,
            )) implies !(#[trigger] lint::warnings_of(c).contains(inherited_mode(f, r, m))) by {
        let t = inherited_mode(f, r, m);
        lemma_long_marks(f, r, m, 0, 0);
        lemma_said(c, t);
        lemma_not_of_routes(c, t);
        lemma_not_of_upstreams(c, t);
        lemma_not_of_listeners(c, t);
        lemma_general_marks();
        lemma_long_kinds(c, t);
        if of_all_filters(fs, rs, t) {
            let i = choose|i: int|
                0 <= i < rs.len() && of_filters(
                    fs,
                    #[trigger] rs[i],
                    rs[i].filters@.len() as int,
                    t,
                );
            let k = choose|k: int|
                0 <= k < rs[i].filters@.len() && leaves_open(fs, (#[trigger] rs[i].filters@[k])@)
                    && t == inherited_mode(
                    rs[i].filters@[k]@,
                    rs[i].id@,
                    config::failure_mode_name(rs[i].policies.failure_mode),
                );
            assert(leaves_open(fs, rs[i].filters@[k]@));
        }
    }
}

/// A route that mirrors its traffic to an upstream to which some route sends live traffic
/// is named; if that is the route's own upstream, the warning says so. Where no route does,
/// none is named.
pub proof fn live_mirrors_are_warned_about(c: Config)
    requires
        strmap::sorted(c.filters.deep_view()),
    ensures
        forall|i: int|
            0 <= i < c.routes@.len() ==> ((#[trigger] c.routes@[i]).shadow matches Some(
                s,
            ) ==> is_live(c.routes@, s.upstream@) ==> lint::warnings_of(c).contains(
                live_mirror(c.routes@[i].id@, mirrored_to(c.routes@[i], s.upstream@)),
            )),
        (forall|i: int|
            0 <= i < c.routes@.len() ==> ((#[trigger] c.routes@[i]).shadow matches Some(
                s,
            ) ==> !is_live(c.routes@, s.upstream@))) ==> forall|id: Seq<char>, to: Seq<char>|
            !(#[trigger] lint::warnings_of(c).contains(live_mirror(id, to))),
{
    let rs = c.routes@;
    assert forall|i: int| 0 <= i < rs.len() implies ((#[trigger] rs[i]).shadow matches Some(
        s,
    ) ==> is_live(rs, s.upstream@) ==> lint::warnings_of(c).contains(
        live_mirror(rs[i].id@, mirrored_to(rs[i], s.upstream@)),
    )) by {
        if let Some(s) = rs[i].shadow {
            let t = live_mirror(rs[i].id@, mirrored_to(rs[i], s.upstream@));
            lemma_said(c, t);
            if is_live(rs, s.upstream@) {
                assert(of_mirror(rs, rs[i], t));
            }
        }
    }
    assert forall|id: Seq<char>, to: Seq<char>|
        (forall|i: int|
            0 <= i < rs.len() ==> ((#[trigger] rs[i]).shadow matches Some(s) ==> !is_live(
                rs,
                s.upstream@,
            ))) implies !(#[trigger] lint::warnings_of(c).contains(live_mirror(id, to))) by {
        let t = live_mirror(id, to);
        lemma_long_marks(id, to, id, 0, 0);
        lemma_said(c, t);
        lemma_not_of_routes(c, t);
        lemma_not_of_upstreams(c, t);
        lemma_not_of_listeners(c, t);
        lemma_general_marks();
        lemma_long_kinds(c, t);
        if of_mirrors(rs, rs.len() as int, t) {
            let i = choose|i: int| 0 <= i < rs.len() && of_mirror(rs, #[trigger] rs[i], t);
            assert(rs[i].shadow is Some);
        }
    }
}

} // verus!
