//! What a comparison reports of what both configurations have.
//!
//! Every way in which two versions of a route, an upstream, a listener, an agent or a
//! filter can differ in behaviour has its own report, which is there exactly when they
//! differ in it. So configurations without a report between them behave alike.

use crate::config;
use crate::config::{
    AgentConfig, Config, Filter, FilterConfig, MatchCondition, RouteConfig, UpstreamConfig,
};
use crate::diff;
use crate::diff::{Change, Comparable, MatchKey, Severity, TargetKey};
use crate::server;
use crate::server::{ListenerConfig, TlsConfig};
use crate::shadow;
use crate::strmap;
use crate::text;
use vstd::multiset::Multiset;
use vstd::prelude::*;
use vstd::string::*;

verus! {

// ---------------------------------------------------------------------------
// Lists of changes
// ---------------------------------------------------------------------------

/// Everything in `a` is in `b`.
pub open spec fn within(a: Seq<Change>, b: Seq<Change>) -> bool {
    forall|x: Change| a.contains(x) ==> #[trigger] b.contains(x)
}

/// One if so, else nothing.
pub open spec fn one_if(b: bool) -> int {
    if b {
        1
    } else {
        0
    }
}

proof fn lemma_added(list: Seq<Change>, b: bool, c: Change)
    ensures
        diff::add_if(list, b, c).len() == list.len() + one_if(b),
        within(list, diff::add_if(list, b, c)),
        b ==> diff::add_if(list, b, c).contains(c),
{
    let r = diff::add_if(list, b, c);
    assert forall|x: Change| list.contains(x) implies #[trigger] r.contains(x) by {
        let i = choose|i: int| 0 <= i < list.len() && list[i] == x;
        assert(r[i] == x);
    }
    if b {
        assert(r[list.len() as int] == c);
    }
}

proof fn lemma_pushed(list: Seq<Change>, c: Change)
    ensures
        list.push(c).len() == list.len() + 1,
        within(list, list.push(c)),
        list.push(c).contains(c),
{
    lemma_added(list, true, c);
}

/// The change is reported.
pub open spec fn reported(
    list: Seq<Change>,
    severity: Severity,
    category: Seq<char>,
    entity: Seq<char>,
    summary: Seq<char>,
) -> bool {
    list.contains(Change { severity, category, entity, summary })
}

// ---------------------------------------------------------------------------
// What is compared
// ---------------------------------------------------------------------------

/// The targets of an upstream, in any order, each with all that it says.
pub open spec fn targets(u: UpstreamConfig) -> Multiset<TargetKey> {
    Seq::new(
        u.targets@.len(),
        |i: int|
            TargetKey {
                address: u.targets@[i].address@,
                weight: u.targets@[i].weight,
                max_requests: u.targets@[i].max_requests,
                metadata: u.targets@[i].metadata.deep_view(),
            },
    ).to_multiset()
}

/// What a condition asks for: methods as a set in upper case, everything else as it is
/// written.
pub open spec fn asked(c: MatchCondition) -> MatchKey {
    match c {
        MatchCondition::Path(p) => MatchKey::Path(p@),
        MatchCondition::PathPrefix(p) => MatchKey::PathPrefix(p@),
        MatchCondition::PathRegex(p) => MatchKey::PathRegex(p@),
        MatchCondition::Host(p) => MatchKey::Host(p@),
        MatchCondition::Header { name, value: Some(v) } => MatchKey::Header(name@, Some(v@)),
        MatchCondition::Header { name, value: None } => MatchKey::Header(name@, None),
        MatchCondition::Method(ms) => MatchKey::Method(
            Set::new(
                |m: Seq<char>|
                    exists|i: int| 0 <= i < ms@.len() && m == text::uppercase(#[trigger] ms@[i]@),
            ),
        ),
        MatchCondition::QueryParam { name, value: Some(v) } => MatchKey::QueryParam(name@, Some(v@)),
        MatchCondition::QueryParam { name, value: None } => MatchKey::QueryParam(name@, None),
    }
}

/// The conditions of a route, in any order.
pub open spec fn conditions(r: RouteConfig) -> Multiset<MatchKey> {
    Seq::new(r.matches@.len(), |i: int| asked(r.matches@[i])).to_multiset()
}

proof fn lemma_asked(c: MatchCondition)
    ensures
        c.key() == asked(c),
{
    if let MatchCondition::Method(ms) = c {
        let s = diff::method_set(ms@);
        let t = Set::new(
            |m: Seq<char>|
                exists|i: int| 0 <= i < ms@.len() && m == text::uppercase(#[trigger] ms@[i]@),
        );
        let u = crate::matching::upper_methods(ms@);
        assert forall|m: Seq<char>| s.contains(m) <==> #[trigger] t.contains(m) by {
            if s.contains(m) {
                let i = choose|i: int| 0 <= i < u.len() && u[i] == m;
                assert(m == text::uppercase(ms@[i]@));
            }
            if t.contains(m) {
                let i = choose|i: int|
                    0 <= i < ms@.len() && m == text::uppercase(#[trigger] ms@[i]@);
                assert(u[i] == m);
                assert(u.contains(m));
            }
        }
        assert(s =~= t);
    }
}

proof fn lemma_target_keys(u: UpstreamConfig)
    ensures
        diff::keys_of(u.targets@).to_multiset() == targets(u),
{
    assert(diff::keys_of(u.targets@) =~= Seq::new(
        u.targets@.len(),
        |i: int|
            TargetKey {
                address: u.targets@[i].address@,
                weight: u.targets@[i].weight,
                max_requests: u.targets@[i].max_requests,
                metadata: u.targets@[i].metadata.deep_view(),
            },
    ));
}

// ---------------------------------------------------------------------------
// Upstreams
// ---------------------------------------------------------------------------

/// An upstream is reported for its targets, its load balancing and its health check,
/// each exactly when it is another.
pub proof fn upstream_reports(before: Seq<Change>, id: Seq<char>, o: UpstreamConfig, n: UpstreamConfig)
    ensures
        ({
            let all = diff::upstream_changes(before, id, o, n);
            &&& within(before, all)
            &&& all.len() == before.len() + one_if(targets(o) != targets(n)) + one_if(
                o.load_balancing != n.load_balancing,
            ) + one_if(o.health_check is Some && n.health_check is None) + one_if(
                o.health_check is None && n.health_check is Some,
            )
            &&& targets(o) != targets(n) ==> reported(
                all,
                Severity::Advisory,
                "upstream"@,
                id,
                "upstream '"@ + id + "' target set changed ("@ + text::digits(o.targets@.len())
                    + " -> "@ + text::digits(n.targets@.len()) + " target(s))"@,
            )
            &&& o.load_balancing != n.load_balancing ==> reported(
                all,
                Severity::Advisory,
                "upstream"@,
                id,
                "upstream '"@ + id + "' load-balancing "@ + config::balancing_name(o.load_balancing)
                    + " -> "@ + config::balancing_name(n.load_balancing),
            )
            &&& o.health_check is Some && n.health_check is None ==> reported(
                all,
                Severity::Advisory,
                "upstream"@,
                id,
                "upstream '"@ + id + "' health check "@ + "removed"@,
            )
            &&& o.health_check is None && n.health_check is Some ==> reported(
                all,
                Severity::Advisory,
                "upstream"@,
                id,
                "upstream '"@ + id + "' health check "@ + "added"@,
            )
        }),
{
    lemma_target_keys(o);
    lemma_target_keys(n);
    let a1 = Change {
        severity: Severity::Advisory,
        category: "upstream"@,
        entity: id,
        summary: "upstream '"@ + id + "' target set changed ("@ + text::digits(o.targets@.len())
            + " -> "@ + text::digits(n.targets@.len()) + " target(s))"@,
    };
    let a = diff::add_if(before, targets(o) != targets(n), a1);
    lemma_added(before, targets(o) != targets(n), a1);
    let b1 = Change {
        severity: Severity::Advisory,
        category: "upstream"@,
        entity: id,
        summary: "upstream '"@ + id + "' load-balancing "@ + config::balancing_name(
            o.load_balancing,
        ) + " -> "@ + config::balancing_name(n.load_balancing),
    };
    let b = diff::add_if(a, o.load_balancing != n.load_balancing, b1);
    lemma_added(a, o.load_balancing != n.load_balancing, b1);
    let c1 = Change {
        severity: Severity::Advisory,
        category: "upstream"@,
        entity: id,
        summary: "upstream '"@ + id + "' health check "@ + diff::presence_word(
            n.health_check is Some,
        ),
    };
    lemma_added(b, o.health_check is Some != n.health_check is Some, c1);
}

// ---------------------------------------------------------------------------
// Routes
// ---------------------------------------------------------------------------

/// The filters that the old chain runs and the new one does not, and that call an agent.
pub open spec fn is_dropped_agent(
    old_chain: Seq<Seq<char>>,
    new_chain: Seq<Seq<char>>,
    filters: Seq<(Seq<char>, FilterConfig)>,
    id: Seq<char>,
) -> bool {
    old_chain.contains(id) && !new_chain.contains(id) && exists|i: int|
        0 <= i < filters.len() && (#[trigger] filters[i]).0 == id && filters[i].1.filter is Agent
}

proof fn lemma_dropped(
    o: Seq<Seq<char>>,
    n: Seq<Seq<char>>,
    filters: Seq<(Seq<char>, FilterConfig)>,
    k: int,
)
    requires
        strmap::sorted(filters),
        0 <= k <= o.len(),
    ensures
        forall|id: Seq<char>| #[trigger]
            diff::dropped_agents(o, n, filters, k).contains(id) <==> is_dropped_agent(
                o.take(k),
                n,
                filters,
                id,
            ),
    decreases k,
{
    let all = diff::dropped_agents(o, n, filters, k);
    if k > 0 {
        lemma_dropped(o, n, filters, k - 1);
        let rest = diff::dropped_agents(o, n, filters, k - 1);
        let last = o[k - 1];
        lemma_agent_filter(filters, last);
        let b = !n.contains(last) && diff::calls_agent(filters, last);
        assert forall|id: Seq<char>| #[trigger] all.contains(id) <==> is_dropped_agent(
            o.take(k),
            n,
            filters,
            id,
        ) by {
            if all.contains(id) {
                let i = choose|i: int| 0 <= i < all.len() && all[i] == id;
                if i < rest.len() {
                    assert(rest[i] == id);
                    assert(rest.contains(id));
                    let part = o.take(k - 1);
                    let j = choose|j: int| 0 <= j < part.len() && part[j] == id;
                    assert(o.take(k)[j] == id);
                } else {
                    assert(o.take(k)[k - 1] == id);
                }
            }
            if is_dropped_agent(o.take(k), n, filters, id) {
                let part = o.take(k);
                let j = choose|j: int| 0 <= j < part.len() && part[j] == id;
                if j < k - 1 {
                    assert(o.take(k - 1)[j] == id);
                    assert(rest.contains(id));
                    let i = choose|i: int| 0 <= i < rest.len() && rest[i] == id;
                    assert(all[i] == id);
                } else {
                    assert(b);
                    assert(all[rest.len() as int] == id);
                }
            }
        }
    }
}

proof fn lemma_agent_filter(filters: Seq<(Seq<char>, FilterConfig)>, id: Seq<char>)
    requires
        strmap::sorted(filters),
    ensures
        diff::calls_agent(filters, id) <==> exists|i: int|
            0 <= i < filters.len() && (#[trigger] filters[i]).0 == id && filters[i].1.filter is Agent,
{
    strmap::lemma_get_none(filters, id);
    strmap::lemma_rank(filters, id);
    if strmap::get(filters, id) is Some {
        let i = strmap::rank(filters, id);
        assert(filters[i].0 == id);
        assert forall|j: int| 0 <= j < filters.len() && (#[trigger] filters[j]).0 == id implies j
            == i by {
            strmap::lemma_get_at(filters, j);
        }
    }
}

/// A filter chain is compared in order. A chain that is another is reported, with high
/// severity exactly when it no longer runs a filter that calls an agent.
pub proof fn chain_reports(
    before: Seq<Change>,
    id: Seq<char>,
    o: Seq<Seq<char>>,
    n: Seq<Seq<char>>,
    filters: Seq<(Seq<char>, FilterConfig)>,
)
    requires
        strmap::sorted(filters),
    ensures
        ({
            let all = diff::chain_changes(before, id, o, n, filters);
            let lost = exists|f: Seq<char>| #[trigger] is_dropped_agent(o, n, filters, f);
            &&& o == n ==> all == before
            &&& o != n ==> all.len() == before.len() + 1 && all.drop_last() == before
                && all.last().category == "route"@ && all.last().entity == id
                && (all.last().severity == Severity::High <==> lost)
            &&& o != n && !lost ==> all.last().summary == "route '"@ + id
                + "' filter chain changed: "@ + ("["@ + text::join(o, ", "@) + "] -> ["@ + text::join(
                n,
                ", "@,
            ) + "]"@)
            &&& within(before, all)
        }),
{
    let all = diff::chain_changes(before, id, o, n, filters);
    let gone = diff::dropped_agents(o, n, filters, o.len() as int);
    lemma_dropped(o, n, filters, o.len() as int);
    assert(o.take(o.len() as int) =~= o);
    if gone.len() > 0 {
        assert(gone.contains(gone[0]));
        assert(is_dropped_agent(o, n, filters, gone[0]));
    } else {
        assert forall|f: Seq<char>| !#[trigger] is_dropped_agent(o, n, filters, f) by {
            assert(!gone.contains(f));
        }
    }
    if o != n {
        assert(all.drop_last() =~= before);
        lemma_pushed(before, all.last());
        assert(all =~= before.push(all.last()));
    }
}

/// The aspects in which two versions of a route differ, but for its filters and whether
/// it can be reached.
pub open spec fn route_aspects(o: RouteConfig, n: RouteConfig) -> int {
    one_if(o.upstream.deep_view() != n.upstream.deep_view()) + one_if(conditions(o) != conditions(n))
        + one_if(o.priority.weight != n.priority.weight) + one_if(
        o.policies.failure_mode != n.policies.failure_mode,
    ) + one_if(o.policies.timeout_secs != n.policies.timeout_secs)
}

/// A route is reported for its upstream, its conditions, its priority, its failure mode,
/// its timeout, its filters and for whether a route shadows it, each exactly when it is
/// another. The upstream, the failure mode and the loss of reachability are of high
/// severity.
pub proof fn route_reports(before: Seq<Change>, o: Config, n: Config, oi: int, ni: int)
    requires
        strmap::sorted(o.filters.deep_view()),
    ensures
        ({
            let all = diff::route_changes(before, o, n, oi, ni);
            let a = o.routes@[oi];
            let b = n.routes@[ni];
            let id = a.id@;
            let was = shadow::shadower(o.routes@, oi) is Some;
            let now = shadow::shadower(n.routes@, ni) is Some;
            &&& within(before, all)
            &&& all.len() == before.len() + route_aspects(a, b) + one_if(
                a.filters.deep_view() != b.filters.deep_view(),
            ) + one_if(was != now)
            &&& a.upstream.deep_view() != b.upstream.deep_view() ==> reported(
                all,
                Severity::High,
                "route"@,
                id,
                "route '"@ + id + "' upstream "@ + diff::option_word(a.upstream.deep_view()) + " -> "@
                    + diff::option_word(b.upstream.deep_view()),
            )
            &&& conditions(a) != conditions(b) ==> reported(
                all,
                Severity::Advisory,
                "route"@,
                id,
                "route '"@ + id + "' match conditions changed"@,
            )
            &&& a.priority.weight != b.priority.weight ==> reported(
                all,
                Severity::Advisory,
                "route"@,
                id,
                "route '"@ + id + "' priority "@ + text::int_text(a.priority.weight as int) + " -> "@
                    + text::int_text(b.priority.weight as int),
            )
            &&& a.policies.failure_mode != b.policies.failure_mode ==> reported(
                all,
                Severity::High,
                "route"@,
                id,
                "route '"@ + id + "' failure-mode "@ + config::failure_mode_name(
                    a.policies.failure_mode,
                ) + " -> "@ + config::failure_mode_name(b.policies.failure_mode),
            )
            &&& a.policies.timeout_secs != b.policies.timeout_secs ==> reported(
                all,
                Severity::Advisory,
                "route"@,
                id,
                "route '"@ + id + "' timeout "@ + diff::secs_word(a.policies.timeout_secs) + " -> "@
                    + diff::secs_word(b.policies.timeout_secs),
            )
            &&& !was && now ==> reported(
                all,
                Severity::High,
                "route"@,
                id,
                "route '"@ + id + "' became unreachable (now shadowed by '"@ + n.routes@[shadow::shadower(
                    n.routes@,
                    ni,
                )->0].id@ + "')"@,
            )
            &&& was && !now ==> reported(
                all,
                Severity::Advisory,
                "route"@,
                id,
                "route '"@ + id + "' became reachable"@,
            )
        }),
{
    let a = o.routes@[oi];
    let b = n.routes@[ni];
    let id = a.id@;
    lemma_conditions(a, b);
    let c1 = diff::high(
        "route"@,
        id,
        "route '"@ + id + "' upstream "@ + diff::option_word(a.upstream.deep_view()) + " -> "@
            + diff::option_word(b.upstream.deep_view()),
    );
    let p1 = a.upstream.deep_view() != b.upstream.deep_view();
    let s1 = diff::add_if(before, p1, c1);
    lemma_added(before, p1, c1);
    let c2 = diff::advisory("route"@, id, "route '"@ + id + "' match conditions changed"@);
    let p2 = !diff::same_multiset(a.matches@, b.matches@);
    let s2 = diff::add_if(s1, p2, c2);
    lemma_added(s1, p2, c2);
    let c3 = diff::advisory(
        "route"@,
        id,
        "route '"@ + id + "' priority "@ + text::int_text(a.priority.weight as int) + " -> "@
            + text::int_text(b.priority.weight as int),
    );
    let p3 = a.priority != b.priority;
    assert(p3 == (a.priority.weight != b.priority.weight));
    let s3 = diff::add_if(s2, p3, c3);
    lemma_added(s2, p3, c3);
    let c4 = diff::high(
        "route"@,
        id,
        "route '"@ + id + "' failure-mode "@ + config::failure_mode_name(a.policies.failure_mode)
            + " -> "@ + config::failure_mode_name(b.policies.failure_mode),
    );
    let p4 = a.policies.failure_mode != b.policies.failure_mode;
    let s4 = diff::add_if(s3, p4, c4);
    lemma_added(s3, p4, c4);
    let c5 = diff::advisory(
        "route"@,
        id,
        "route '"@ + id + "' timeout "@ + diff::secs_word(a.policies.timeout_secs) + " -> "@
            + diff::secs_word(b.policies.timeout_secs),
    );
    let p5 = a.policies.timeout_secs != b.policies.timeout_secs;
    let s5 = diff::add_if(s4, p5, c5);
    lemma_added(s4, p5, c5);
    let s6 = diff::chain_changes(
        s5,
        id,
        a.filters.deep_view(),
        b.filters.deep_view(),
        o.filters.deep_view(),
    );
    chain_reports(s5, id, a.filters.deep_view(), b.filters.deep_view(), o.filters.deep_view());
    let was = shadow::shadower(o.routes@, oi) is Some;
    match shadow::shadower(n.routes@, ni) {
        Some(h) => {
            lemma_added(
                s6,
                !was,
                diff::high(
                    "route"@,
                    id,
                    "route '"@ + id + "' became unreachable (now shadowed by '"@ + n.routes@[h].id@
                        + "')"@,
                ),
            );
        },
        None => {
            lemma_added(
                s6,
                was,
                diff::advisory("route"@, id, "route '"@ + id + "' became reachable"@),
            );
        },
    }
}

proof fn lemma_conditions(a: RouteConfig, b: RouteConfig)
    ensures
        diff::same_multiset(a.matches@, b.matches@) <==> conditions(a) == conditions(b),
{
    lemma_condition_keys(a);
    lemma_condition_keys(b);
}

proof fn lemma_condition_keys(a: RouteConfig)
    ensures
        diff::keys_of(a.matches@).to_multiset() == conditions(a),
{
    let ks = Seq::new(a.matches@.len(), |i: int| asked(a.matches@[i]));
    assert forall|i: int| 0 <= i < a.matches@.len() implies diff::keys_of(a.matches@)[i] == ks[i] by {
        lemma_asked(a.matches@[i]);
    }
    assert(diff::keys_of(a.matches@) =~= ks);
}

/// The words for what may be missing.
pub proof fn words_for_options(name: Seq<char>, secs: u64)
    ensures
        diff::option_word(Some(name)) == seq!['\''] + name + seq!['\''],
        diff::option_word(None) == "(none)"@,
        diff::secs_word(Some(secs)) == text::digits(secs as nat) + seq!['s'],
        diff::secs_word(None) == "(listener default)"@,
{
    reveal_strlit("'");
    reveal_strlit("s");
    assert("'"@ =~= seq!['\'']);
    assert("s"@ =~= seq!['s']);
}

// ---------------------------------------------------------------------------
// Listeners
// ---------------------------------------------------------------------------

/// The TLS settings of a listener are reported where the lowest version or the demand
/// for client certificates is another: with high severity where the new settings are
/// the weaker ones.
pub proof fn tls_reports(before: Seq<Change>, id: Seq<char>, o: TlsConfig, n: TlsConfig)
    ensures
        ({
            let all = diff::tls_changes(before, id, o, n);
            let lowered = o.min_version is Tls13 && n.min_version is Tls12;
            let raised = o.min_version is Tls12 && n.min_version is Tls13;
            &&& within(before, all)
            &&& all.len() == before.len() + one_if(lowered) + one_if(raised) + one_if(
                o.client_auth != n.client_auth,
            )
            &&& lowered ==> reported(
                all,
                Severity::High,
                "listener"@,
                id,
                "listener '"@ + id + "' TLS minimum lowered "@ + (server::tls_name(o.min_version)
                    + " -> "@ + server::tls_name(n.min_version)),
            )
            &&& raised ==> reported(
                all,
                Severity::Advisory,
                "listener"@,
                id,
                "listener '"@ + id + "' TLS minimum raised "@ + (server::tls_name(o.min_version)
                    + " -> "@ + server::tls_name(n.min_version)),
            )
            &&& o.client_auth && !n.client_auth ==> reported(
                all,
                Severity::High,
                "listener"@,
                id,
                "listener '"@ + id + "' client-auth disabled"@,
            )
            &&& !o.client_auth && n.client_auth ==> reported(
                all,
                Severity::Advisory,
                "listener"@,
                id,
                "listener '"@ + id + "' client-auth enabled"@,
            )
        }),
{
    let versions = server::tls_name(o.min_version) + " -> "@ + server::tls_name(n.min_version);
    let lowered = diff::tls_rank(n.min_version) < diff::tls_rank(o.min_version);
    let raised = diff::tls_rank(n.min_version) > diff::tls_rank(o.min_version);
    let c1 = diff::high("listener"@, id, "listener '"@ + id + "' TLS minimum lowered "@ + versions);
    let s1 = diff::add_if(before, lowered, c1);
    lemma_added(before, lowered, c1);
    let c2 = diff::advisory("listener"@, id, "listener '"@ + id + "' TLS minimum raised "@ + versions);
    let s2 = diff::add_if(s1, raised, c2);
    lemma_added(s1, raised, c2);
    let c3 = diff::high("listener"@, id, "listener '"@ + id + "' client-auth disabled"@);
    let s3 = diff::add_if(s2, o.client_auth && !n.client_auth, c3);
    lemma_added(s2, o.client_auth && !n.client_auth, c3);
    let c4 = diff::advisory("listener"@, id, "listener '"@ + id + "' client-auth enabled"@);
    lemma_added(s3, !o.client_auth && n.client_auth, c4);
}

/// A listener is reported for its TLS, its address and its default route, each exactly
/// when it is another; TLS that is gone is of high severity.
pub proof fn listener_reports(before: Seq<Change>, o: ListenerConfig, n: ListenerConfig)
    ensures
        ({
            let all = diff::listener_changes(before, o, n);
            let id = o.id@;
            &&& within(before, all)
            &&& all.len() == before.len() + (match (o.tls, n.tls) {
                (None, None) => 0int,
                (Some(a), Some(b)) => one_if(a.min_version != b.min_version) + one_if(
                    a.client_auth != b.client_auth,
                ),
                _ => 1int,
            }) + one_if(o.address@ != n.address@) + one_if(
                o.default_route.deep_view() != n.default_route.deep_view(),
            )
            &&& o.tls is Some && n.tls is None ==> reported(
                all,
                Severity::High,
                "listener"@,
                id,
                "listener '"@ + id + "' TLS removed"@,
            )
            &&& o.tls is None && n.tls is Some ==> reported(
                all,
                Severity::Advisory,
                "listener"@,
                id,
                "listener '"@ + id + "' TLS added"@,
            )
            &&& o.tls matches Some(a) ==> n.tls matches Some(b) ==> within(
                diff::tls_changes(before, id, a, b),
                all,
            )
            &&& o.address@ != n.address@ ==> reported(
                all,
                Severity::Advisory,
                "listener"@,
                id,
                "listener '"@ + id + "' address "@ + o.address@ + " -> "@ + n.address@,
            )
            &&& o.default_route.deep_view() != n.default_route.deep_view() ==> reported(
                all,
                Severity::Advisory,
                "listener"@,
                id,
                "listener '"@ + id + "' default-route "@ + diff::option_word(
                    o.default_route.deep_view(),
                ) + " -> "@ + diff::option_word(n.default_route.deep_view()),
            )
        }),
{
    let id = o.id@;
    let s1 = match (o.tls, n.tls) {
        (Some(_), None) => before.push(
            diff::high("listener"@, id, "listener '"@ + id + "' TLS removed"@),
        ),
        (None, Some(_)) => before.push(
            diff::advisory("listener"@, id, "listener '"@ + id + "' TLS added"@),
        ),
        (Some(ot), Some(nt)) => diff::tls_changes(before, id, ot, nt),
        (None, None) => before,
    };
    lemma_pushed(before, diff::high("listener"@, id, "listener '"@ + id + "' TLS removed"@));
    lemma_pushed(before, diff::advisory("listener"@, id, "listener '"@ + id + "' TLS added"@));
    if let Some(a) = o.tls {
        if let Some(b) = n.tls {
            tls_reports(before, id, a, b);
        }
    }
    let c2 = diff::advisory(
        "listener"@,
        id,
        "listener '"@ + id + "' address "@ + o.address@ + " -> "@ + n.address@,
    );
    let s2 = diff::add_if(s1, o.address@ != n.address@, c2);
    lemma_added(s1, o.address@ != n.address@, c2);
    let c3 = diff::advisory(
        "listener"@,
        id,
        "listener '"@ + id + "' default-route "@ + diff::option_word(o.default_route.deep_view())
            + " -> "@ + diff::option_word(n.default_route.deep_view()),
    );
    lemma_added(s2, o.default_route.deep_view() != n.default_route.deep_view(), c3);
}

// ---------------------------------------------------------------------------
// Agents and filters
// ---------------------------------------------------------------------------

/// An agent is reported for its failure mode, its type, how it is reached and its
/// timeout, each exactly when it is another; the failure mode is of high severity.
pub proof fn agent_reports(before: Seq<Change>, o: AgentConfig, n: AgentConfig)
    ensures
        ({
            let all = diff::agent_changes(before, o, n);
            let id = o.id@;
            let moved = o.transport.kind@ != n.transport.kind@ || o.transport.endpoint@
                != n.transport.endpoint@;
            &&& within(before, all)
            &&& all.len() == before.len() + one_if(o.failure_mode != n.failure_mode) + one_if(
                o.agent_type@ != n.agent_type@,
            ) + one_if(moved) + one_if(o.timeout_ms != n.timeout_ms)
            &&& o.failure_mode != n.failure_mode ==> reported(
                all,
                Severity::High,
                "agent"@,
                id,
                "agent '"@ + id + "' failure-mode "@ + config::failure_mode_name(o.failure_mode)
                    + " -> "@ + config::failure_mode_name(n.failure_mode),
            )
            &&& o.agent_type@ != n.agent_type@ ==> reported(
                all,
                Severity::Advisory,
                "agent"@,
                id,
                "agent '"@ + id + "' type changed"@,
            )
            &&& moved ==> reported(
                all,
                Severity::Advisory,
                "agent"@,
                id,
                "agent '"@ + id + "' transport/endpoint changed"@,
            )
            &&& o.timeout_ms != n.timeout_ms ==> reported(
                all,
                Severity::Advisory,
                "agent"@,
                id,
                "agent '"@ + id + "' timeout "@ + text::digits(o.timeout_ms as nat) + " -> "@
                    + text::digits(n.timeout_ms as nat) + " ms"@,
            )
        }),
{
    let id = o.id@;
    let c1 = diff::high(
        "agent"@,
        id,
        "agent '"@ + id + "' failure-mode "@ + config::failure_mode_name(o.failure_mode) + " -> "@
            + config::failure_mode_name(n.failure_mode),
    );
    let s1 = diff::add_if(before, o.failure_mode != n.failure_mode, c1);
    lemma_added(before, o.failure_mode != n.failure_mode, c1);
    let c2 = diff::advisory("agent"@, id, "agent '"@ + id + "' type changed"@);
    let s2 = diff::add_if(s1, o.agent_type@ != n.agent_type@, c2);
    lemma_added(s1, o.agent_type@ != n.agent_type@, c2);
    let moved = o.transport.kind@ != n.transport.kind@ || o.transport.endpoint@
        != n.transport.endpoint@;
    let c3 = diff::advisory("agent"@, id, "agent '"@ + id + "' transport/endpoint changed"@);
    let s3 = diff::add_if(s2, moved, c3);
    lemma_added(s2, moved, c3);
    let c4 = diff::advisory(
        "agent"@,
        id,
        "agent '"@ + id + "' timeout "@ + text::digits(o.timeout_ms as nat) + " -> "@ + text::digits(
            n.timeout_ms as nat,
        ) + " ms"@,
    );
    lemma_added(s3, o.timeout_ms != n.timeout_ms, c4);
}

/// A filter is reported, with high severity, where it is of another type. One that calls
/// an agent in both is reported for its failure mode, with high severity, and for the
/// agent that it calls, each exactly when it is another.
pub proof fn filter_reports(before: Seq<Change>, id: Seq<char>, o: FilterConfig, n: FilterConfig)
    ensures
        ({
            let all = diff::filter_changes(before, id, o, n);
            &&& within(before, all)
            &&& config::filter_kind(o) != config::filter_kind(n) ==> all.len() == before.len() + 1
                && reported(
                all,
                Severity::High,
                "filter"@,
                id,
                "filter '"@ + id + "' type "@ + config::filter_kind(o) + " -> "@
                    + config::filter_kind(n),
            )
            &&& config::filter_kind(o) == config::filter_kind(n) && !(o.filter is Agent
                && n.filter is Agent) ==> all == before
            &&& o.filter matches Filter::Agent(a) ==> n.filter matches Filter::Agent(b) ==> {
                &&& all.len() == before.len() + one_if(a.failure_mode != b.failure_mode) + one_if(
                    a.agent@ != b.agent@,
                )
                &&& a.failure_mode != b.failure_mode ==> reported(
                    all,
                    Severity::High,
                    "filter"@,
                    id,
                    "filter '"@ + id + "' failure-mode "@ + diff::mode_word(a.failure_mode) + " -> "@
                        + diff::mode_word(b.failure_mode),
                )
                &&& a.agent@ != b.agent@ ==> reported(
                    all,
                    Severity::Advisory,
                    "filter"@,
                    id,
                    "filter '"@ + id + "' agent reference '"@ + a.agent@ + "' -> '"@ + b.agent@
                        + "'"@,
                )
            }
        }),
{
    lemma_pushed(
        before,
        diff::high(
            "filter"@,
            id,
            "filter '"@ + id + "' type "@ + config::filter_kind(o) + " -> "@ + config::filter_kind(n),
        ),
    );
    if let Filter::Agent(a) = o.filter {
        if let Filter::Agent(b) = n.filter {
            let c1 = diff::high(
                "filter"@,
                id,
                "filter '"@ + id + "' failure-mode "@ + diff::mode_word(a.failure_mode) + " -> "@
                    + diff::mode_word(b.failure_mode),
            );
            let s1 = diff::add_if(before, a.failure_mode != b.failure_mode, c1);
            lemma_added(before, a.failure_mode != b.failure_mode, c1);
            lemma_added(
                s1,
                a.agent@ != b.agent@,
                diff::advisory(
                    "filter"@,
                    id,
                    "filter '"@ + id + "' agent reference '"@ + a.agent@ + "' -> '"@ + b.agent@
                        + "'"@,
                ),
            );
        }
    }
}

// ---------------------------------------------------------------------------
// What is reported of one entity
// ---------------------------------------------------------------------------

/// What is reported of the entity of a kind that has the identifier.
pub open spec fn about(list: Seq<Change>, category: Seq<char>, id: Seq<char>) -> Seq<Change> {
    list.filter(|c: Change| c.category == category && c.entity == id)
}

proof fn lemma_about(category: Seq<char>, id: Seq<char>)
    ensures
        forall|list: Seq<Change>, c: Change| #[trigger]
            about(list.push(c), category, id) == (if c.category == category && c.entity == id {
                about(list, category, id).push(c)
            } else {
                about(list, category, id)
            }),
        forall|list: Seq<Change>, b: bool, c: Change| #[trigger]
            about(diff::add_if(list, b, c), category, id) == diff::add_if(
                about(list, category, id),
                b && c.category == category && c.entity == id,
                c,
            ),
{
    let p = |c: Change| c.category == category && c.entity == id;
    assert forall|list: Seq<Change>, c: Change| #[trigger]
        about(list.push(c), category, id) == (if c.category == category && c.entity == id {
            about(list, category, id).push(c)
        } else {
            about(list, category, id)
        }) by {
        list.lemma_filter_push(c, p);
    }
    assert forall|list: Seq<Change>, b: bool, c: Change| #[trigger]
        about(diff::add_if(list, b, c), category, id) == diff::add_if(
            about(list, category, id),
            b && c.category == category && c.entity == id,
            c,
        ) by {
        list.lemma_filter_push(c, p);
    }
}

proof fn lemma_kinds()
    ensures
        "route"@.len() == 5 && "route"@[0] == 'r',
        "upstream"@.len() == 8 && "upstream"@[0] == 'u',
        "listener"@.len() == 8 && "listener"@[0] == 'l',
        "agent"@.len() == 5 && "agent"@[0] == 'a',
        "filter"@.len() == 6,
{
    reveal_strlit("route");
    reveal_strlit("upstream");
    reveal_strlit("listener");
    reveal_strlit("agent");
    reveal_strlit("filter");
}

proof fn lemma_of_upstream(
    before: Seq<Change>,
    e: Seq<char>,
    o: UpstreamConfig,
    n: UpstreamConfig,
    category: Seq<char>,
    id: Seq<char>,
)
    ensures
        about(diff::upstream_changes(before, e, o, n), category, id) == (if category == "upstream"@
            && id == e {
            diff::upstream_changes(about(before, category, id), e, o, n)
        } else {
            about(before, category, id)
        }),
{
    lemma_about(category, id);
}

proof fn lemma_of_filter(
    before: Seq<Change>,
    e: Seq<char>,
    o: FilterConfig,
    n: FilterConfig,
    category: Seq<char>,
    id: Seq<char>,
)
    ensures
        about(diff::filter_changes(before, e, o, n), category, id) == (if category == "filter"@
            && id == e {
            diff::filter_changes(about(before, category, id), e, o, n)
        } else {
            about(before, category, id)
        }),
{
    lemma_about(category, id);
}

proof fn lemma_of_agent(
    before: Seq<Change>,
    o: AgentConfig,
    n: AgentConfig,
    category: Seq<char>,
    id: Seq<char>,
)
    ensures
        about(diff::agent_changes(before, o, n), category, id) == (if category == "agent"@ && id
            == o.id@ {
            diff::agent_changes(about(before, category, id), o, n)
        } else {
            about(before, category, id)
        }),
{
    lemma_about(category, id);
}

proof fn lemma_of_tls(
    before: Seq<Change>,
    e: Seq<char>,
    o: TlsConfig,
    n: TlsConfig,
    category: Seq<char>,
    id: Seq<char>,
)
    ensures
        about(diff::tls_changes(before, e, o, n), category, id) == (if category == "listener"@ && id
            == e {
            diff::tls_changes(about(before, category, id), e, o, n)
        } else {
            about(before, category, id)
        }),
{
    lemma_about(category, id);
}

proof fn lemma_of_listener(
    before: Seq<Change>,
    o: ListenerConfig,
    n: ListenerConfig,
    category: Seq<char>,
    id: Seq<char>,
)
    ensures
        about(diff::listener_changes(before, o, n), category, id) == (if category == "listener"@
            && id == o.id@ {
            diff::listener_changes(about(before, category, id), o, n)
        } else {
            about(before, category, id)
        }),
{
    lemma_about(category, id);
    if let Some(a) = o.tls {
        if let Some(b) = n.tls {
            lemma_of_tls(before, o.id@, a, b, category, id);
        }
    }
}

proof fn lemma_of_route(
    before: Seq<Change>,
    o: Config,
    n: Config,
    oi: int,
    ni: int,
    category: Seq<char>,
    id: Seq<char>,
)
    ensures
        about(diff::route_changes(before, o, n, oi, ni), category, id) == (if category == "route"@
            && id == o.routes@[oi].id@ {
            diff::route_changes(about(before, category, id), o, n, oi, ni)
        } else {
            about(before, category, id)
        }),
{
    lemma_about(category, id);
}

proof fn lemma_of_missing(
    before: Seq<Change>,
    ids: Seq<Seq<char>>,
    others: Seq<Seq<char>>,
    severity: Severity,
    kind: Seq<char>,
    head: Seq<char>,
    tail: Seq<char>,
    n: int,
    category: Seq<char>,
    id: Seq<char>,
)
    requires
        category != kind || diff::last_of(others, id) >= 0,
    ensures
        about(
            diff::missing(before, ids, others, severity, kind, head, tail, n),
            category,
            id,
        ) == about(before, category, id),
    decreases n,
{
    lemma_about(category, id);
    if n > 0 {
        lemma_of_missing(before, ids, others, severity, kind, head, tail, n - 1, category, id);
    }
}

proof fn lemma_of_new<V>(
    before: Seq<Change>,
    o: Seq<(Seq<char>, V)>,
    n: Seq<(Seq<char>, V)>,
    kind: Seq<char>,
    k: int,
    category: Seq<char>,
    id: Seq<char>,
)
    requires
        category != kind || strmap::get(o, id) is Some,
    ensures
        about(diff::new_entries(before, o, n, kind, k), category, id) == about(
            before,
            category,
            id,
        ),
    decreases k,
{
    lemma_about(category, id);
    if k > 0 {
        lemma_of_new(before, o, n, kind, k - 1, category, id);
    }
}

proof fn lemma_of_listeners(
    before: Seq<Change>,
    o: Seq<ListenerConfig>,
    n: Seq<ListenerConfig>,
    k: int,
    category: Seq<char>,
    id: Seq<char>,
)
    requires
        0 <= k <= o.len(),
    ensures
        about(diff::common_listeners(before, o, n, k), category, id) == (if category == "listener"@
            && 0 <= diff::last_of(diff::listener_ids(o), id) < k && diff::last_of(diff::listener_ids(n), id)
            >= 0 {
            diff::listener_changes(
                about(before, category, id),
                o[diff::last_of(diff::listener_ids(o), id)],
                n[diff::last_of(diff::listener_ids(n), id)],
            )
        } else {
            about(before, category, id)
        }),
    decreases k,
{
    if k > 0 {
        lemma_of_listeners(before, o, n, k - 1, category, id);
        let rest = diff::common_listeners(before, o, n, k - 1);
        let e = o[k - 1].id@;
        let ni = diff::last_of(diff::listener_ids(n), e);
        lemma_of_listener(rest, o[k - 1], n[ni], category, id);
        diff::lemma_last_of(diff::listener_ids(o), id);
        diff::lemma_last_of(diff::listener_ids(o), e);
        if diff::last_of(diff::listener_ids(o), id) == k - 1 {
            assert(diff::listener_ids(o)[k - 1] == id);
        }
    }
}

proof fn lemma_of_agents(
    before: Seq<Change>,
    o: Seq<AgentConfig>,
    n: Seq<AgentConfig>,
    k: int,
    category: Seq<char>,
    id: Seq<char>,
)
    requires
        0 <= k <= o.len(),
    ensures
        about(diff::common_agents(before, o, n, k), category, id) == (if category == "agent"@
            && 0 <= diff::last_of(diff::agent_ids(o), id) < k && diff::last_of(diff::agent_ids(n), id)
            >= 0 {
            diff::agent_changes(
                about(before, category, id),
                o[diff::last_of(diff::agent_ids(o), id)],
                n[diff::last_of(diff::agent_ids(n), id)],
            )
        } else {
            about(before, category, id)
        }),
    decreases k,
{
    if k > 0 {
        lemma_of_agents(before, o, n, k - 1, category, id);
        let rest = diff::common_agents(before, o, n, k - 1);
        let e = o[k - 1].id@;
        let ni = diff::last_of(diff::agent_ids(n), e);
        lemma_of_agent(rest, o[k - 1], n[ni], category, id);
        diff::lemma_last_of(diff::agent_ids(o), id);
        diff::lemma_last_of(diff::agent_ids(o), e);
        if diff::last_of(diff::agent_ids(o), id) == k - 1 {
            assert(diff::agent_ids(o)[k - 1] == id);
        }
    }
}

proof fn lemma_of_routes(
    before: Seq<Change>,
    o: Config,
    n: Config,
    k: int,
    category: Seq<char>,
    id: Seq<char>,
)
    requires
        0 <= k <= o.routes@.len(),
    ensures
        about(diff::common_routes(before, o, n, k), category, id) == (if category == "route"@ && 0
            <= diff::last_of(diff::route_ids(o.routes@), id) < k && diff::last_of(
            diff::route_ids(n.routes@),
            id,
        ) >= 0 {
            diff::route_changes(
                about(before, category, id),
                o,
                n,
                diff::last_of(diff::route_ids(o.routes@), id),
                diff::last_of(diff::route_ids(n.routes@), id),
            )
        } else {
            about(before, category, id)
        }),
    decreases k,
{
    if k > 0 {
        lemma_of_routes(before, o, n, k - 1, category, id);
        let rest = diff::common_routes(before, o, n, k - 1);
        let oids = diff::route_ids(o.routes@);
        let e = o.routes@[k - 1].id@;
        let ni = diff::last_of(diff::route_ids(n.routes@), e);
        lemma_of_route(rest, o, n, k - 1, ni, category, id);
        diff::lemma_last_of(oids, id);
        diff::lemma_last_of(oids, e);
        if diff::last_of(oids, id) == k - 1 {
            assert(oids[k - 1] == id);
        }
    }
}

proof fn lemma_of_upstreams(
    before: Seq<Change>,
    o: Seq<(Seq<char>, UpstreamConfig)>,
    n: Seq<(Seq<char>, UpstreamConfig)>,
    k: int,
    category: Seq<char>,
    id: Seq<char>,
)
    requires
        strmap::sorted(o),
        0 <= k <= o.len(),
        category != "upstream"@ || strmap::get(o, id) is Some && strmap::get(n, id) is Some,
    ensures
        about(diff::old_upstreams(before, o, n, k), category, id) == (if category == "upstream"@
            && strmap::rank(o, id) < k {
            diff::upstream_changes(
                about(before, category, id),
                id,
                strmap::get(o, id)->0,
                strmap::get(n, id)->0,
            )
        } else {
            about(before, category, id)
        }),
    decreases k,
{
    lemma_about(category, id);
    strmap::lemma_rank(o, id);
    if k > 0 {
        lemma_of_upstreams(before, o, n, k - 1, category, id);
        let rest = diff::old_upstreams(before, o, n, k - 1);
        let e = o[k - 1].0;
        if let Some(u) = strmap::get(n, e) {
            lemma_of_upstream(rest, e, o[k - 1].1, u, category, id);
        }
        strmap::lemma_get_at(o, k - 1);
    }
}

proof fn lemma_of_filters(
    before: Seq<Change>,
    o: Seq<(Seq<char>, FilterConfig)>,
    n: Seq<(Seq<char>, FilterConfig)>,
    k: int,
    category: Seq<char>,
    id: Seq<char>,
)
    requires
        strmap::sorted(o),
        0 <= k <= o.len(),
        category != "filter"@ || strmap::get(o, id) is Some && strmap::get(n, id) is Some,
    ensures
        about(diff::old_filters(before, o, n, k), category, id) == (if category == "filter"@
            && strmap::rank(o, id) < k {
            diff::filter_changes(
                about(before, category, id),
                id,
                strmap::get(o, id)->0,
                strmap::get(n, id)->0,
            )
        } else {
            about(before, category, id)
        }),
    decreases k,
{
    lemma_about(category, id);
    strmap::lemma_rank(o, id);
    if k > 0 {
        lemma_of_filters(before, o, n, k - 1, category, id);
        let rest = diff::old_filters(before, o, n, k - 1);
        let e = o[k - 1].0;
        if let Some(u) = strmap::get(n, e) {
            lemma_of_filter(rest, e, o[k - 1].1, u, category, id);
        }
        strmap::lemma_get_at(o, k - 1);
    }
}

/// What is reported of an entity that both configurations have is what its two versions
/// differ in, and nothing else. Of entities of a kind that share an identifier the last
/// one counts.
pub proof fn reports_are_of_the_entity(o: Config, n: Config, id: Seq<char>)
    requires
        strmap::sorted(o.upstreams.deep_view()),
        strmap::sorted(o.filters.deep_view()),
    ensures
        ({
            let r = (
                diff::last_of(diff::route_ids(o.routes@), id),
                diff::last_of(diff::route_ids(n.routes@), id),
            );
            r.0 >= 0 && r.1 >= 0 ==> about(diff::changes(o, n), "route"@, id)
                == diff::route_changes(Seq::empty(), o, n, r.0, r.1)
        }),
        ({
            let l = (
                diff::last_of(diff::listener_ids(o.listeners@), id),
                diff::last_of(diff::listener_ids(n.listeners@), id),
            );
            l.0 >= 0 && l.1 >= 0 ==> about(diff::changes(o, n), "listener"@, id)
                == diff::listener_changes(Seq::empty(), o.listeners@[l.0], n.listeners@[l.1])
        }),
        ({
            let a = (
                diff::last_of(diff::agent_ids(o.agents@), id),
                diff::last_of(diff::agent_ids(n.agents@), id),
            );
            a.0 >= 0 && a.1 >= 0 ==> about(diff::changes(o, n), "agent"@, id)
                == diff::agent_changes(Seq::empty(), o.agents@[a.0], n.agents@[a.1])
        }),
        strmap::get(o.upstreams.deep_view(), id) matches Some(a) ==> strmap::get(
            n.upstreams.deep_view(),
            id,
        ) matches Some(b) ==> about(diff::changes(o, n), "upstream"@, id) == diff::upstream_changes(
            Seq::empty(),
            id,
            a,
            b,
        ),
        strmap::get(o.filters.deep_view(), id) matches Some(a) ==> strmap::get(
            n.filters.deep_view(),
            id,
        ) matches Some(b) ==> about(diff::changes(o, n), "filter"@, id) == diff::filter_changes(
            Seq::empty(),
            id,
            a,
            b,
        ),
{
    lemma_kinds();
    let oids = diff::route_ids(o.routes@);
    let nids = diff::route_ids(n.routes@);
    diff::lemma_last_of(oids, id);
    diff::lemma_last_of(diff::listener_ids(o.listeners@), id);
    diff::lemma_last_of(diff::agent_ids(o.agents@), id);
    if diff::last_of(oids, id) >= 0 && diff::last_of(nids, id) >= 0 {
        lemma_whole(o, n, "route"@, id);
    }
    if diff::last_of(diff::listener_ids(o.listeners@), id) >= 0 && diff::last_of(
        diff::listener_ids(n.listeners@),
        id,
    ) >= 0 {
        lemma_whole(o, n, "listener"@, id);
    }
    if diff::last_of(diff::agent_ids(o.agents@), id) >= 0 && diff::last_of(
        diff::agent_ids(n.agents@),
        id,
    ) >= 0 {
        lemma_whole(o, n, "agent"@, id);
    }
    if strmap::get(o.upstreams.deep_view(), id) is Some && strmap::get(
        n.upstreams.deep_view(),
        id,
    ) is Some {
        lemma_whole(o, n, "upstream"@, id);
    }
    if strmap::get(o.filters.deep_view(), id) is Some && strmap::get(
        n.filters.deep_view(),
        id,
    ) is Some {
        lemma_whole(o, n, "filter"@, id);
    }
}

/// Both configurations have an entity of the kind with the identifier.
spec fn in_both(o: Config, n: Config, kind: Seq<char>, id: Seq<char>) -> bool {
    if kind == "route"@ {
        diff::last_of(diff::route_ids(o.routes@), id) >= 0 && diff::last_of(
            diff::route_ids(n.routes@),
            id,
        ) >= 0
    } else if kind == "listener"@ {
        diff::last_of(diff::listener_ids(o.listeners@), id) >= 0 && diff::last_of(
            diff::listener_ids(n.listeners@),
            id,
        ) >= 0
    } else if kind == "agent"@ {
        diff::last_of(diff::agent_ids(o.agents@), id) >= 0 && diff::last_of(
            diff::agent_ids(n.agents@),
            id,
        ) >= 0
    } else if kind == "upstream"@ {
        strmap::get(o.upstreams.deep_view(), id) is Some && strmap::get(
            n.upstreams.deep_view(),
            id,
        ) is Some
    } else {
        strmap::get(o.filters.deep_view(), id) is Some && strmap::get(
            n.filters.deep_view(),
            id,
        ) is Some
    }
}

/// The changes of the entity of a kind with the identifier, if it is of that kind.
spec fn own_changes(before: Seq<Change>, o: Config, n: Config, kind: Seq<char>, id: Seq<char>) -> Seq<
    Change,
> {
    if kind == "route"@ {
        diff::route_changes(
            before,
            o,
            n,
            diff::last_of(diff::route_ids(o.routes@), id),
            diff::last_of(diff::route_ids(n.routes@), id),
        )
    } else if kind == "listener"@ {
        diff::listener_changes(
            before,
            o.listeners@[diff::last_of(diff::listener_ids(o.listeners@), id)],
            n.listeners@[diff::last_of(diff::listener_ids(n.listeners@), id)],
        )
    } else if kind == "agent"@ {
        diff::agent_changes(
            before,
            o.agents@[diff::last_of(diff::agent_ids(o.agents@), id)],
            n.agents@[diff::last_of(diff::agent_ids(n.agents@), id)],
        )
    } else if kind == "upstream"@ {
        diff::upstream_changes(
            before,
            id,
            strmap::get(o.upstreams.deep_view(), id)->0,
            strmap::get(n.upstreams.deep_view(), id)->0,
        )
    } else {
        diff::filter_changes(
            before,
            id,
            strmap::get(o.filters.deep_view(), id)->0,
            strmap::get(n.filters.deep_view(), id)->0,
        )
    }
}

proof fn lemma_whole(o: Config, n: Config, kind: Seq<char>, id: Seq<char>)
    requires
        strmap::sorted(o.upstreams.deep_view()),
        strmap::sorted(o.filters.deep_view()),
        kind == "route"@ || kind == "listener"@ || kind == "agent"@ || kind == "upstream"@ || kind
            == "filter"@,
        in_both(o, n, kind, id),
    ensures
        about(diff::changes(o, n), kind, id) == own_changes(Seq::empty(), o, n, kind, id),
{
    lemma_kinds();
    let none = Seq::<Change>::empty();
    assert(about(none, kind, id) =~= none) by {
        reveal(Seq::filter);
    }
    let s1 = diff::routes_diff(none, o, n);
    lemma_routes_part(none, o, n, kind, id);
    let s2 = diff::upstreams_diff(s1, o, n);
    let om = o.upstreams.deep_view();
    let nm = n.upstreams.deep_view();
    strmap::lemma_rank(om, id);
    lemma_of_upstreams(s1, om, nm, om.len() as int, kind, id);
    lemma_of_new(
        diff::old_upstreams(s1, om, nm, om.len() as int),
        om,
        nm,
        "upstream"@,
        nm.len() as int,
        kind,
        id,
    );
    let s3 = diff::listeners_diff(s2, o, n);
    lemma_listeners_part(s2, o, n, kind, id);
    let s4 = diff::agents_diff(s3, o, n);
    lemma_agents_part(s3, o, n, kind, id);
    let of = o.filters.deep_view();
    let nf = n.filters.deep_view();
    strmap::lemma_rank(of, id);
    lemma_of_filters(s4, of, nf, of.len() as int, kind, id);
    lemma_of_new(
        diff::old_filters(s4, of, nf, of.len() as int),
        of,
        nf,
        "filter"@,
        nf.len() as int,
        kind,
        id,
    );
}

proof fn lemma_routes_part(before: Seq<Change>, o: Config, n: Config, kind: Seq<char>, id: Seq<char>)
    requires
        in_both(o, n, kind, id),
    ensures
        about(diff::routes_diff(before, o, n), kind, id) == (if kind == "route"@ {
            own_changes(about(before, kind, id), o, n, kind, id)
        } else {
            about(before, kind, id)
        }),
{
    lemma_kinds();
    let oids = diff::route_ids(o.routes@);
    let nids = diff::route_ids(n.routes@);
    diff::lemma_last_of(oids, id);
    diff::lemma_last_of(nids, id);
    let a = diff::missing(
        before,
        oids,
        nids,
        Severity::High,
        "route"@,
        "route '"@,
        "' removed"@,
        oids.len() as int,
    );
    lemma_of_missing(
        before,
        oids,
        nids,
        Severity::High,
        "route"@,
        "route '"@,
        "' removed"@,
        oids.len() as int,
        kind,
        id,
    );
    let b = diff::missing(
        a,
        nids,
        oids,
        Severity::Advisory,
        "route"@,
        "route '"@,
        "' added"@,
        nids.len() as int,
    );
    lemma_of_missing(
        a,
        nids,
        oids,
        Severity::Advisory,
        "route"@,
        "route '"@,
        "' added"@,
        nids.len() as int,
        kind,
        id,
    );
    lemma_of_routes(b, o, n, o.routes@.len() as int, kind, id);
}

proof fn lemma_listeners_part(before: Seq<Change>, o: Config, n: Config, kind: Seq<char>, id: Seq<char>)
    requires
        in_both(o, n, kind, id),
    ensures
        about(diff::listeners_diff(before, o, n), kind, id) == (if kind == "listener"@ {
            own_changes(about(before, kind, id), o, n, kind, id)
        } else {
            about(before, kind, id)
        }),
{
    lemma_kinds();
    let oids = diff::listener_ids(o.listeners@);
    let nids = diff::listener_ids(n.listeners@);
    diff::lemma_last_of(oids, id);
    diff::lemma_last_of(nids, id);
    let a = diff::missing(
        before,
        oids,
        nids,
        Severity::High,
        "listener"@,
        "listener '"@,
        "' removed"@,
        oids.len() as int,
    );
    lemma_of_missing(
        before,
        oids,
        nids,
        Severity::High,
        "listener"@,
        "listener '"@,
        "' removed"@,
        oids.len() as int,
        kind,
        id,
    );
    let b = diff::missing(
        a,
        nids,
        oids,
        Severity::Advisory,
        "listener"@,
        "listener '"@,
        "' added"@,
        nids.len() as int,
    );
    lemma_of_missing(
        a,
        nids,
        oids,
        Severity::Advisory,
        "listener"@,
        "listener '"@,
        "' added"@,
        nids.len() as int,
        kind,
        id,
    );
    lemma_of_listeners(b, o.listeners@, n.listeners@, o.listeners@.len() as int, kind, id);
}

proof fn lemma_agents_part(before: Seq<Change>, o: Config, n: Config, kind: Seq<char>, id: Seq<char>)
    requires
        in_both(o, n, kind, id),
    ensures
        about(diff::agents_diff(before, o, n), kind, id) == (if kind == "agent"@ {
            own_changes(about(before, kind, id), o, n, kind, id)
        } else {
            about(before, kind, id)
        }),
{
    lemma_kinds();
    let oids = diff::agent_ids(o.agents@);
    let nids = diff::agent_ids(n.agents@);
    diff::lemma_last_of(oids, id);
    diff::lemma_last_of(nids, id);
    let a = diff::missing(
        before,
        oids,
        nids,
        Severity::High,
        "agent"@,
        "agent '"@,
        "' removed (routes referencing it will fail)"@,
        oids.len() as int,
    );
    lemma_of_missing(
        before,
        oids,
        nids,
        Severity::High,
        "agent"@,
        "agent '"@,
        "' removed (routes referencing it will fail)"@,
        oids.len() as int,
        kind,
        id,
    );
    let b = diff::missing(
        a,
        nids,
        oids,
        Severity::Advisory,
        "agent"@,
        "agent '"@,
        "' added"@,
        nids.len() as int,
    );
    lemma_of_missing(
        a,
        nids,
        oids,
        Severity::Advisory,
        "agent"@,
        "agent '"@,
        "' added"@,
        nids.len() as int,
        kind,
        id,
    );
    lemma_of_agents(b, o.agents@, n.agents@, o.agents@.len() as int, kind, id);
}

// ---------------------------------------------------------------------------
// The whole comparison
// ---------------------------------------------------------------------------

proof fn lemma_ordered(all: Seq<Change>)
    ensures
        diff::high_first(all).len() == all.len(),
        forall|c: Change| #[trigger] diff::high_first(all).contains(c) <==> all.contains(c),
{
    diff::high_changes_come_first(all);
    broadcast use vstd::seq_lib::group_to_multiset_ensures;

    let r = diff::high_first(all);
    assert(r.to_multiset().len() == r.len());
    assert(all.to_multiset().len() == all.len());
    assert forall|c: Change| #[trigger] r.contains(c) <==> all.contains(c) by {
        assert(r.contains(c) <==> r.to_multiset().count(c) > 0);
        assert(all.contains(c) <==> all.to_multiset().count(c) > 0);
    }
}

proof fn lemma_about_contains(all: Seq<Change>, category: Seq<char>, id: Seq<char>, c: Change)
    ensures
        about(all, category, id).contains(c) <==> all.contains(c) && c.category == category
            && c.entity == id,
        about(all, category, id).len() <= all.len(),
    decreases all.len(),
{
    reveal(Seq::filter);
    let some = about(all, category, id);
    if all.len() > 0 {
        let init = all.drop_last();
        let rest = about(init, category, id);
        lemma_about_contains(init, category, id, c);
        let last = all.last();
        assert(all =~= init.push(last));
        lemma_about(category, id);
        assert(all.contains(c) <==> init.contains(c) || c == last) by {
            lemma_added(init, true, last);
            if all.contains(c) {
                let i = choose|i: int| 0 <= i < all.len() && all[i] == c;
                if i < init.len() {
                    assert(init[i] == c);
                }
            }
        }
        assert(rest.push(last).contains(c) <==> rest.contains(c) || c == last) by {
            lemma_added(rest, true, last);
            let more = rest.push(last);
            if more.contains(c) {
                let i = choose|i: int| 0 <= i < more.len() && more[i] == c;
                if i < rest.len() {
                    assert(rest[i] == c);
                }
            }
        }
    }
}

/// The change reports that an upstream has other targets.
pub open spec fn reports_targets(c: Change, id: Seq<char>) -> bool {
    c.category == "upstream"@ && c.entity == id && ("upstream '"@ + id
        + "' target set changed ("@).is_prefix_of(c.summary)
}

/// Of an upstream that both configurations have, the comparison reports other targets
/// exactly if the targets are others: an address, a weight, a limit or metadata differs, or
/// one is there more often. Their order does not count.
pub proof fn targets_are_compared(o: Config, n: Config, id: Seq<char>, a: UpstreamConfig, b: UpstreamConfig)
    requires
        strmap::sorted(o.upstreams.deep_view()),
        strmap::sorted(o.filters.deep_view()),
        strmap::get(o.upstreams.deep_view(), id) == Some(a),
        strmap::get(n.upstreams.deep_view(), id) == Some(b),
    ensures
        (exists|c: Change|
            #[trigger] diff::high_first(diff::changes(o, n)).contains(c) && reports_targets(c, id))
            <==> targets(a) != targets(b),
{
    let all = diff::changes(o, n);
    let none = Seq::<Change>::empty();
    let own = diff::upstream_changes(none, id, a, b);
    reports_are_of_the_entity(o, n, id);
    lemma_ordered(all);
    upstream_reports(none, id, a, b);
    let head = "upstream '"@ + id + "' target set changed ("@;
    let first = Change {
        severity: Severity::Advisory,
        category: "upstream"@,
        entity: id,
        summary: "upstream '"@ + id + "' target set changed ("@ + text::digits(a.targets@.len())
            + " -> "@ + text::digits(b.targets@.len()) + " target(s))"@,
    };
    if targets(a) != targets(b) {
        lemma_about_contains(all, "upstream"@, id, first);
        assert(first.summary.take(head.len() as int) =~= head);
        assert(head =~= first.summary.subrange(0, head.len() as int));
        assert(reports_targets(first, id));
        assert(diff::high_first(all).contains(first));
    }
    assert forall|c: Change| #[trigger] diff::high_first(all).contains(c) && reports_targets(c, id)
        implies targets(a) != targets(b) by {
        lemma_about_contains(all, "upstream"@, id, c);
        assert(own.contains(c));
        if targets(a) == targets(b) {
            lemma_target_keys(a);
            lemma_target_keys(b);
            reveal_strlit("upstream '");
            reveal_strlit("' target set changed (");
            reveal_strlit("' load-balancing ");
            reveal_strlit("' health check ");
            let p = ("upstream '"@.len() + id.len() + 2) as int;
            assert(head[p] == 't');
            assert(c.summary[p] == 't') by {
                assert(c.summary.subrange(0, head.len() as int) == head);
                assert(c.summary.subrange(0, head.len() as int)[p] == c.summary[p]);
            }
            let balance = "upstream '"@ + id + "' load-balancing "@ + config::balancing_name(
                a.load_balancing,
            ) + " -> "@ + config::balancing_name(b.load_balancing);
            let health = "upstream '"@ + id + "' health check "@ + diff::presence_word(
                b.health_check is Some,
            );
            assert(balance[p] == 'l');
            assert(health[p] == 'h');
            let i = choose|i: int| 0 <= i < own.len() && own[i] == c;
            assert(own[i].summary == balance || own[i].summary == health);
        }
    }
}

/// Where nothing is reported, every upstream that both configurations have has the same
/// targets, balances them alike and is checked alike.
pub proof fn no_report_means_same_upstreams(
    o: Config,
    n: Config,
    id: Seq<char>,
    a: UpstreamConfig,
    b: UpstreamConfig,
)
    requires
        strmap::sorted(o.upstreams.deep_view()),
        strmap::sorted(o.filters.deep_view()),
        strmap::get(o.upstreams.deep_view(), id) == Some(a),
        strmap::get(n.upstreams.deep_view(), id) == Some(b),
        diff::high_first(diff::changes(o, n)).len() == 0,
    ensures
        targets(a) == targets(b),
        a.load_balancing == b.load_balancing,
        a.health_check is Some <==> b.health_check is Some,
{
    let all = diff::changes(o, n);
    reports_are_of_the_entity(o, n, id);
    lemma_ordered(all);
    upstream_reports(Seq::empty(), id, a, b);
    lemma_about_contains(all, "upstream"@, id, arbitrary());
}

/// Where nothing is reported, a route that both configurations have is served alike: by
/// the same upstream, for the same requests, with the same priority, policies and filters,
/// and just as reachable.
pub proof fn no_report_means_same_routes(o: Config, n: Config, oi: int, ni: int)
    requires
        strmap::sorted(o.upstreams.deep_view()),
        strmap::sorted(o.filters.deep_view()),
        0 <= oi < o.routes@.len(),
        0 <= ni < n.routes@.len(),
        o.routes@[oi].id@ == n.routes@[ni].id@,
        forall|j: int| oi < j < o.routes@.len() ==> (#[trigger] o.routes@[j]).id@ != o.routes@[oi].id@,
        forall|j: int| ni < j < n.routes@.len() ==> (#[trigger] n.routes@[j]).id@ != n.routes@[ni].id@,
        diff::high_first(diff::changes(o, n)).len() == 0,
    ensures
        ({
            let a = o.routes@[oi];
            let b = n.routes@[ni];
            &&& a.upstream.deep_view() == b.upstream.deep_view()
            &&& conditions(a) == conditions(b)
            &&& a.priority.weight == b.priority.weight
            &&& a.policies.failure_mode == b.policies.failure_mode
            &&& a.policies.timeout_secs == b.policies.timeout_secs
            &&& a.filters.deep_view() == b.filters.deep_view()
            &&& shadow::shadower(o.routes@, oi) is Some <==> shadow::shadower(
                n.routes@,
                ni,
            ) is Some
        }),
{
    let all = diff::changes(o, n);
    let id = o.routes@[oi].id@;
    lemma_last(diff::route_ids(o.routes@), oi);
    lemma_last(diff::route_ids(n.routes@), ni);
    reports_are_of_the_entity(o, n, id);
    lemma_ordered(all);
    route_reports(Seq::empty(), o, n, oi, ni);
    lemma_about_contains(all, "route"@, id, arbitrary());
}

proof fn lemma_last(ids: Seq<Seq<char>>, i: int)
    requires
        0 <= i < ids.len(),
        forall|j: int| i < j < ids.len() ==> #[trigger] ids[j] != ids[i],
    ensures
        diff::last_of(ids, ids[i]) == i,
{
    diff::lemma_last_of(ids, ids[i]);
}

/// Where nothing is reported, a listener that both configurations have listens on the same
/// address, hands what no route takes to the same one, and asks the same of TLS clients.
pub proof fn no_report_means_same_listeners(o: Config, n: Config, oi: int, ni: int)
    requires
        strmap::sorted(o.upstreams.deep_view()),
        strmap::sorted(o.filters.deep_view()),
        0 <= oi < o.listeners@.len(),
        0 <= ni < n.listeners@.len(),
        o.listeners@[oi].id@ == n.listeners@[ni].id@,
        forall|j: int|
            oi < j < o.listeners@.len() ==> (#[trigger] o.listeners@[j]).id@
                != o.listeners@[oi].id@,
        forall|j: int|
            ni < j < n.listeners@.len() ==> (#[trigger] n.listeners@[j]).id@
                != n.listeners@[ni].id@,
        diff::high_first(diff::changes(o, n)).len() == 0,
    ensures
        ({
            let a = o.listeners@[oi];
            let b = n.listeners@[ni];
            &&& a.address@ == b.address@
            &&& a.default_route.deep_view() == b.default_route.deep_view()
            &&& a.tls is Some <==> b.tls is Some
            &&& a.tls matches Some(x) ==> b.tls matches Some(y) ==> x.min_version == y.min_version
                && x.client_auth == y.client_auth
        }),
{
    let all = diff::changes(o, n);
    let id = o.listeners@[oi].id@;
    lemma_last(diff::listener_ids(o.listeners@), oi);
    lemma_last(diff::listener_ids(n.listeners@), ni);
    reports_are_of_the_entity(o, n, id);
    lemma_ordered(all);
    listener_reports(Seq::empty(), o.listeners@[oi], n.listeners@[ni]);
    lemma_about_contains(all, "listener"@, id, arbitrary());
}

/// Where nothing is reported, an agent that both configurations have is the same in type,
/// is reached alike, is waited for as long, and its failure means the same.
pub proof fn no_report_means_same_agents(o: Config, n: Config, oi: int, ni: int)
    requires
        strmap::sorted(o.upstreams.deep_view()),
        strmap::sorted(o.filters.deep_view()),
        0 <= oi < o.agents@.len(),
        0 <= ni < n.agents@.len(),
        o.agents@[oi].id@ == n.agents@[ni].id@,
        forall|j: int|
            oi < j < o.agents@.len() ==> (#[trigger] o.agents@[j]).id@ != o.agents@[oi].id@,
        forall|j: int|
            ni < j < n.agents@.len() ==> (#[trigger] n.agents@[j]).id@ != n.agents@[ni].id@,
        diff::high_first(diff::changes(o, n)).len() == 0,
    ensures
        ({
            let a = o.agents@[oi];
            let b = n.agents@[ni];
            &&& a.failure_mode == b.failure_mode
            &&& a.agent_type@ == b.agent_type@
            &&& a.transport.kind@ == b.transport.kind@
            &&& a.transport.endpoint@ == b.transport.endpoint@
            &&& a.timeout_ms == b.timeout_ms
        }),
{
    let all = diff::changes(o, n);
    let id = o.agents@[oi].id@;
    lemma_last(diff::agent_ids(o.agents@), oi);
    lemma_last(diff::agent_ids(n.agents@), ni);
    reports_are_of_the_entity(o, n, id);
    lemma_ordered(all);
    agent_reports(Seq::empty(), o.agents@[oi], n.agents@[ni]);
    lemma_about_contains(all, "agent"@, id, arbitrary());
}

/// Where nothing is reported, a filter that both configurations have is of the same type,
/// and one that calls an agent calls the same one, whose failure means the same.
pub proof fn no_report_means_same_filters(
    o: Config,
    n: Config,
    id: Seq<char>,
    a: FilterConfig,
    b: FilterConfig,
)
    requires
        strmap::sorted(o.upstreams.deep_view()),
        strmap::sorted(o.filters.deep_view()),
        strmap::get(o.filters.deep_view(), id) == Some(a),
        strmap::get(n.filters.deep_view(), id) == Some(b),
        diff::high_first(diff::changes(o, n)).len() == 0,
    ensures
        config::filter_kind(a) == config::filter_kind(b),
        a.filter matches Filter::Agent(x) ==> b.filter matches Filter::Agent(y) ==> x.agent@
            == y.agent@ && x.failure_mode == y.failure_mode,
{
    let all = diff::changes(o, n);
    reports_are_of_the_entity(o, n, id);
    lemma_ordered(all);
    filter_reports(Seq::empty(), id, a, b);
    lemma_about_contains(all, "filter"@, id, arbitrary());
}

/// The report of a comparison counts its changes by severity and has a line for each, in
/// order; a line says how severe the change is, of what kind, and what it is. Without a
/// change it says so.
pub proof fn report_in_words(all: Seq<Change>, c: Change, rest: Seq<Change>)
    ensures
        diff::report(Seq::empty()) == "No behavioral differences.\n"@,
        all.len() > 0 ==> diff::report(all) == text::digits(all.len()) + " behavioral change(s): "@
            + text::digits(all.filter(|d: Change| d.severity is High).len()) + " high, "@
            + text::digits(all.filter(|d: Change| d.severity is Advisory).len())
            + " advisory.\n\n"@ + diff::change_lines(all),
        diff::change_lines(rest.push(c)) == diff::change_lines(rest) + (if c.severity is High {
            "  [HIGH] "@
        } else {
            "  [adv ] "@
        }) + c.category + ": "@ + c.summary + seq!['\n'],
        diff::change_lines(Seq::empty()) == Seq::<char>::empty(),
{
    lemma_counted(all);
    assert(rest.push(c).drop_last() =~= rest);
    reveal_strlit("\n");
    reveal_strlit("  [");
    reveal_strlit("HIGH");
    reveal_strlit("adv ");
    reveal_strlit("] ");
    reveal_strlit("  [HIGH] ");
    reveal_strlit("  [adv ] ");
    let mark = if c.severity == Severity::High {
        "HIGH"@
    } else {
        "adv "@
    };
    assert("  ["@ + mark + "] "@ =~= (if c.severity is High {
        "  [HIGH] "@
    } else {
        "  [adv ] "@
    }));
    let tail = c.category + ": "@ + c.summary + "\n"@;
    assert("\n"@ =~= seq!['\n']);
    assert(diff::change_line(c) =~= "  ["@ + mark + "] "@ + tail);
    assert(diff::change_lines(rest.push(c)) =~= diff::change_lines(rest) + (
    if c.severity is High {
        "  [HIGH] "@
    } else {
        "  [adv ] "@
    }) + c.category + ": "@ + c.summary + seq!['\n']);
}

proof fn lemma_counted(all: Seq<Change>)
    ensures
        diff::count_high(all) == all.filter(|d: Change| d.severity is High).len(),
        all.len() - diff::count_high(all) == all.filter(|d: Change| d.severity is Advisory).len(),
    decreases all.len(),
{
    reveal(Seq::filter);
    if all.len() > 0 {
        lemma_counted(all.drop_last());
    }
}

} // verus!
