//! Dry-run explanation of how a request is routed.
//!
//! The report shows the winning route with what it beat, its filter chain, its
//! timeout, its failure mode and its upstream, and why each other route was
//! rejected. Nothing is sent, and no cache is read. Default routes of listeners
//! are not evaluated.

use crate::config;
use crate::config::{
    Config, FilterConfig, FilterPhase, MatchCondition, ProxyProtocolVersion, RouteConfig,
    RoutePolicies, UpstreamConfig,
};
use crate::matching;
use crate::matching::Request;
use crate::pattern;
use crate::profiles;
use crate::request;
use crate::routing;
use crate::routing::{ExplainTrace, RequestInfo, RouteError, RouteMatcher};
use crate::server::ListenerConfig;
use crate::strmap;
use crate::strmap::StringMap;
use crate::text;
use vstd::prelude::*;
use vstd::string::*;

verus! {

// ---------------------------------------------------------------------------
// Report
// ---------------------------------------------------------------------------

/// A request to explain.
#[derive(Debug)]
pub struct ExplainRequest {
    /// HTTP method, in upper case.
    pub method: String,
    /// Path, with or without a query string.
    pub path: String,
    /// Value of the `Host` header.
    pub host: String,
    /// Headers by lower-case name.
    pub headers: StringMap<String>,
}

/// The explanation of a request.
#[derive(Debug)]
pub struct ExplainReport {
    /// The request.
    pub request: RequestSummary,
    /// The winning route, if there is one.
    pub matched: Option<MatchedRoute>,
    /// Routes that do not match.
    pub rejected: Vec<RejectedRoute>,
    /// No route matches.
    pub no_match: bool,
}

/// Echo of the request.
#[derive(Debug)]
pub struct RequestSummary {
    /// HTTP method.
    pub method: String,
    /// Path.
    pub path: String,
    /// Host.
    pub host: String,
}

/// The winning route and its effective policy.
#[derive(Debug)]
pub struct MatchedRoute {
    /// Identifier.
    pub id: String,
    /// Priority.
    pub priority: i32,
    /// Specificity as a number: the sum of its parts. Routes of one priority are ordered
    /// by path, then by host, then by the rest, and not by this number: the winner may
    /// have a smaller number than a route that it beat.
    pub specificity: u32,
    /// Routes that match as well.
    pub beat: Vec<BeatRoute>,
    /// Filters in execution order.
    pub filters: Vec<FilterStep>,
    /// WAF shorthand.
    pub waf_enabled: bool,
    /// Timeout and where it comes from.
    pub timeout: TimeoutInfo,
    /// `open` or `closed`.
    pub failure_mode: String,
    /// Upstream, if the route has one.
    pub upstream: Option<UpstreamInfo>,
}

/// A route that the winner beat.
#[derive(Debug)]
pub struct BeatRoute {
    /// Identifier.
    pub id: String,
    /// Priority.
    pub priority: i32,
}

impl DeepView for BeatRoute {
    type V = (Seq<char>, i32);

    open spec fn deep_view(&self) -> (Seq<char>, i32) {
        (self.id@, self.priority)
    }
}

/// A filter of the chain.
#[derive(Debug)]
pub struct FilterStep {
    /// Identifier, as the route names it.
    pub id: String,
    /// Type name.
    pub kind: String,
    /// `request`, `response` or `both`.
    pub phase: String,
    /// The filter calls an agent.
    pub is_agent: bool,
    /// There is no such filter.
    pub undefined: bool,
}

/// A filter of the chain as plain values.
#[verifier::ext_equal]
pub ghost struct Step {
    pub id: Seq<char>,
    pub kind: Seq<char>,
    pub phase: Seq<char>,
    pub is_agent: bool,
    pub undefined: bool,
}

impl DeepView for FilterStep {
    type V = Step;

    open spec fn deep_view(&self) -> Step {
        Step {
            id: self.id@,
            kind: self.kind@,
            phase: self.phase@,
            is_agent: self.is_agent,
            undefined: self.undefined,
        }
    }
}

/// Effective timeout of a route.
#[derive(Debug)]
pub struct TimeoutInfo {
    /// Override of the route in seconds.
    pub route_override_secs: Option<u64>,
    /// Request timeouts of the listeners, which hold without an override.
    pub listener_defaults: Vec<ListenerTimeout>,
}

/// Request timeout of a listener.
#[derive(Debug)]
pub struct ListenerTimeout {
    /// Listener identifier.
    pub listener: String,
    /// Timeout in seconds.
    pub secs: u64,
}

impl DeepView for ListenerTimeout {
    type V = (Seq<char>, u64);

    open spec fn deep_view(&self) -> (Seq<char>, u64) {
        (self.listener@, self.secs)
    }
}

/// Upstream of the winning route.
#[derive(Debug)]
pub struct UpstreamInfo {
    /// Name.
    pub name: String,
    /// There is such an upstream.
    pub defined: bool,
    /// Load balancing algorithm.
    pub load_balancing: Option<String>,
    /// Number of targets.
    pub target_count: Option<usize>,
    /// PROXY protocol version that is emitted.
    pub proxy_protocol: Option<String>,
    /// Backend profile.
    pub profile: Option<String>,
    /// What the profile contributed, as `field=value` texts.
    pub profile_settings: Vec<String>,
}

/// A route that does not match.
#[derive(Debug)]
pub struct RejectedRoute {
    /// Identifier.
    pub id: String,
    /// Priority.
    pub priority: i32,
    /// Why it does not match.
    pub reason: String,
}

impl DeepView for RejectedRoute {
    type V = (Seq<char>, i32, Seq<char>);

    open spec fn deep_view(&self) -> (Seq<char>, i32, Seq<char>) {
        (self.id@, self.priority, self.reason@)
    }
}

// ---------------------------------------------------------------------------
// Model
// ---------------------------------------------------------------------------

/// The request as routing sees it: the path without its query string, and the
/// parameters of the query string.
pub open spec fn explained(r: ExplainRequest) -> Request {
    let k = text::find_char(r.path@, '?');
    Request {
        method: r.method@,
        path: r.path@.take(k),
        host: r.host@,
        headers: r.headers.deep_view(),
        query: request::params_of(
            text::split(
                if k < r.path@.len() {
                    r.path@.skip(k + 1)
                } else {
                    Seq::empty()
                },
                '&',
            ),
        ),
    }
}

/// The routes that do not match, each with its reason.
pub open spec fn rejections(table: Seq<RouteConfig>, q: Request) -> Seq<
    (Seq<char>, i32, Seq<char>),
>
    decreases table.len(),
{
    if table.len() == 0 {
        Seq::empty()
    } else {
        let rest = rejections(table.drop_last(), q);
        let r = table.last();
        match matching::reject_reason(r.matches@, q) {
            Some(reason) => rest.push((r.id@, r.priority.weight, reason)),
            None => rest,
        }
    }
}

/// The routes that match, but for the one at `win`.
pub open spec fn losers(table: Seq<RouteConfig>, q: Request, win: int) -> Seq<(Seq<char>, i32)>
    decreases table.len(),
{
    if table.len() == 0 {
        Seq::empty()
    } else {
        let rest = losers(table.drop_last(), q, win);
        let r = table.last();
        if table.len() - 1 != win && matching::route_matches(r, q) {
            rest.push((r.id@, r.priority.weight))
        } else {
            rest
        }
    }
}

/// The word for a filter phase.
pub open spec fn phase_word(p: FilterPhase) -> Seq<char> {
    match p {
        FilterPhase::Request => "request"@,
        FilterPhase::Response => "response"@,
        FilterPhase::Both => "both"@,
    }
}

/// A filter of the chain, looked up by identifier.
pub open spec fn step_of(filters: Seq<(Seq<char>, FilterConfig)>, id: Seq<char>) -> Step {
    match strmap::get(filters, id) {
        Some(f) => Step {
            id,
            kind: config::filter_kind(f),
            phase: phase_word(config::filter_phase(f)),
            is_agent: f.filter is Agent,
            undefined: false,
        },
        None => Step { id, kind: "?"@, phase: "?"@, is_agent: false, undefined: true },
    }
}

/// The filter chain of a route.
pub open spec fn steps_of(
    filters: Seq<(Seq<char>, FilterConfig)>,
    ids: Seq<Seq<char>>,
) -> Seq<Step> {
    ids.map_values(|id: Seq<char>| step_of(filters, id))
}

/// The request timeouts of listeners.
pub open spec fn listener_timeouts(listeners: Seq<ListenerConfig>) -> Seq<(Seq<char>, u64)> {
    listeners.map_values(|l: ListenerConfig| (l.id@, l.request_timeout_secs))
}

/// The word for a PROXY protocol version.
pub open spec fn version_word(v: ProxyProtocolVersion) -> Seq<char> {
    match v {
        ProxyProtocolVersion::V1 => "v1"@,
        ProxyProtocolVersion::V2 => "v2"@,
    }
}

/// The information is that on an upstream, looked up by name.
pub open spec fn upstream_info_of(
    u: UpstreamInfo,
    upstreams: Seq<(Seq<char>, UpstreamConfig)>,
    name: Seq<char>,
) -> bool {
    u.name@ == name && match strmap::get(upstreams, name) {
        Some(c) => {
            &&& u.defined
            &&& u.load_balancing.deep_view() == Some(config::balancing_name(c.load_balancing))
            &&& u.target_count matches Some(n) && n == c.targets@.len()
            &&& u.proxy_protocol.deep_view() == (match c.proxy_protocol {
                Some(v) => Some(version_word(v)),
                None => None,
            })
            &&& u.profile.deep_view() == (match c.profile {
                Some(p) => Some(p.name@),
                None => None,
            })
            &&& u.profile_settings.deep_view() == (match c.profile {
                Some(p) => profiles::setting_texts(p.settings@),
                None => Seq::empty(),
            })
        },
        None => {
            &&& !u.defined
            &&& u.load_balancing is None
            &&& u.target_count is None
            &&& u.proxy_protocol is None
            &&& u.profile is None
            &&& u.profile_settings@.len() == 0
        },
    }
}

/// The information is that on the winner at `w` of the table. Its wiring is that
/// of the first route of the configuration with its identifier.
pub open spec fn matched_route_of(
    m: MatchedRoute,
    c: Config,
    table: Seq<RouteConfig>,
    w: int,
    q: Request,
) -> bool {
    let route = c.routes@[matching::find_id(c.routes@, table[w].id@, 0)];
    &&& m.id@ == table[w].id@
    &&& m.priority == table[w].priority.weight
    &&& m.specificity == matching::score(table[w])
    &&& m.beat.deep_view() == losers(table, q, w)
    &&& m.filters.deep_view() == steps_of(c.filters.deep_view(), route.filters.deep_view())
    &&& m.waf_enabled == route.waf_enabled
    &&& m.timeout.route_override_secs == route.policies.timeout_secs
    &&& m.timeout.listener_defaults.deep_view() == listener_timeouts(c.listeners@)
    &&& m.failure_mode@ == config::failure_mode_name(route.policies.failure_mode)
    &&& match route.upstream {
        Some(name) => m.upstream matches Some(u) && upstream_info_of(
            u,
            c.upstreams.deep_view(),
            name@,
        ),
        None => m.upstream is None,
    }
}

/// The report is that on a request.
pub open spec fn report_of(rep: ExplainReport, c: Config, r: ExplainRequest) -> bool {
    let table = matching::ranked(c.routes@);
    let q = explained(r);
    &&& rep.request.method@ == r.method@
    &&& rep.request.path@ == r.path@
    &&& rep.request.host@ == r.host@
    &&& rep.rejected.deep_view() == rejections(table, q)
    &&& rep.no_match == (rep.matched is None)
    &&& match matching::decide(table, None, q) {
        Some(w) => rep.matched matches Some(m) && matched_route_of(m, c, table, w, q),
        None => rep.matched is None,
    }
}

/// Every route is accounted for: it wins, is beaten or is rejected.
pub proof fn every_route_is_accounted_for(table: Seq<RouteConfig>, q: Request, w: int)
    ensures
        0 <= w < table.len() && matching::route_matches(table[w], q) ==> rejections(table, q).len()
            + losers(table, q, w).len() + 1 == table.len(),
        (w < 0 || w >= table.len()) ==> rejections(table, q).len() + losers(table, q, w).len()
            == table.len(),
    decreases table.len(),
{
    if table.len() > 0 {
        let init = table.drop_last();
        every_route_is_accounted_for(init, q, w);
        matching::reason_iff_no_match(table.last().matches@, q);
    }
}

// ---------------------------------------------------------------------------
// What matching reads of a route
// ---------------------------------------------------------------------------

/// The two conditions ask for the same.
pub open spec fn same_condition(a: MatchCondition, b: MatchCondition) -> bool {
    a == b || (a matches MatchCondition::Method(x) && b matches MatchCondition::Method(y)
        && x.deep_view() == y.deep_view())
}

/// The two routes are matched alike.
pub open spec fn same_matching(a: RouteConfig, b: RouteConfig) -> bool {
    &&& a.id@ == b.id@
    &&& a.priority == b.priority
    &&& a.matches@.len() == b.matches@.len()
    &&& forall|i: int|
        0 <= i < a.matches@.len() ==> same_condition(#[trigger] a.matches@[i], b.matches@[i])
}

/// The routes of two tables are matched alike, one by one.
pub open spec fn same_tables(a: Seq<RouteConfig>, b: Seq<RouteConfig>) -> bool {
    a.len() == b.len() && forall|i: int| 0 <= i < a.len() ==> same_matching(#[trigger] a[i], b[i])
}

proof fn lemma_same_condition(a: MatchCondition, b: MatchCondition, q: Request)
    requires
        same_condition(a, b),
    ensures
        matching::condition_matches(a, q) == matching::condition_matches(b, q),
        matching::describe(a) == matching::describe(b),
        matching::condition_rank(a) == matching::condition_rank(b),
        routing::broken(a) == routing::broken(b),
        a is Host == b is Host,
{
    if a is Method {
        let x = a->Method_0;
        let y = b->Method_0;
        assert(x.deep_view() == y.deep_view());
        assert forall|i: int| 0 <= i < x@.len() implies x@[i]@ == y@[i]@ by {
            assert(x.deep_view()[i] == x@[i]@);
            assert(y.deep_view()[i] == y@[i]@);
        }
        assert(x@.len() == x.deep_view().len() && y@.len() == y.deep_view().len());
        assert(matching::upper_methods(x@) =~= matching::upper_methods(y@));
        if matching::condition_matches(a, q) {
            let i = choose|i: int|
                0 <= i < x@.len() && text::uppercase(#[trigger] x@[i]@) == q.method;
            assert(text::uppercase(y@[i]@) == q.method);
        }
        if matching::condition_matches(b, q) {
            let i = choose|i: int|
                0 <= i < y@.len() && text::uppercase(#[trigger] y@[i]@) == q.method;
            assert(text::uppercase(x@[i]@) == q.method);
        }
    }
}

proof fn lemma_same_scores(a: Seq<MatchCondition>, b: Seq<MatchCondition>)
    requires
        a.len() == b.len(),
        forall|i: int| 0 <= i < a.len() ==> same_condition(#[trigger] a[i], b[i]),
    ensures
        matching::ranks(a) == matching::ranks(b),
        matching::best_path_score(a) == matching::best_path_score(b),
    decreases a.len(),
{
    if a.len() > 0 {
        assert forall|i: int| 0 <= i < a.drop_last().len() implies same_condition(
            #[trigger] a.drop_last()[i],
            b.drop_last()[i],
        ) by {
            assert(a.drop_last()[i] == a[i] && b.drop_last()[i] == b[i]);
        }
        lemma_same_scores(a.drop_last(), b.drop_last());
        assert(same_condition(a[a.len() - 1], b[a.len() - 1]));
        let q = Request {
            method: Seq::empty(),
            path: Seq::empty(),
            host: Seq::empty(),
            headers: Seq::empty(),
            query: Seq::empty(),
        };
        lemma_same_condition(a.last(), b.last(), q);
    }
}

proof fn lemma_same_failing(a: Seq<MatchCondition>, b: Seq<MatchCondition>, q: Request, from: int)
    requires
        0 <= from <= a.len(),
        a.len() == b.len(),
        forall|i: int| 0 <= i < a.len() ==> same_condition(#[trigger] a[i], b[i]),
    ensures
        matching::first_failing(a, q, from) == matching::first_failing(b, q, from),
    decreases a.len() - from,
{
    if from < a.len() {
        assert(same_condition(a[from], b[from]));
        lemma_same_condition(a[from], b[from], q);
        lemma_same_failing(a, b, q, from + 1);
    }
}

proof fn lemma_same_hosts(a: Seq<MatchCondition>, b: Seq<MatchCondition>, q: Request)
    requires
        a.len() == b.len(),
        forall|i: int| 0 <= i < a.len() ==> same_condition(#[trigger] a[i], b[i]),
    ensures
        matching::has_host(a) ==> matching::has_host(b),
        matching::some_host_matches(a, q) ==> matching::some_host_matches(b, q),
{
    if matching::has_host(a) {
        let i = choose|i: int| 0 <= i < a.len() && (#[trigger] a[i]) is Host;
        assert(same_condition(a[i], b[i]));
        assert(b[i] is Host);
    }
    if matching::some_host_matches(a, q) {
        let i = choose|i: int|
            0 <= i < a.len() && (#[trigger] a[i]) is Host && matching::condition_matches(a[i], q);
        assert(same_condition(a[i], b[i]));
        lemma_same_condition(a[i], b[i], q);
        assert(b[i] is Host && matching::condition_matches(b[i], q));
    }
}

proof fn lemma_same_condition_symmetric(a: Seq<MatchCondition>, b: Seq<MatchCondition>)
    requires
        a.len() == b.len(),
        forall|i: int| 0 <= i < a.len() ==> same_condition(#[trigger] a[i], b[i]),
    ensures
        forall|i: int| 0 <= i < b.len() ==> same_condition(#[trigger] b[i], a[i]),
{
    assert forall|i: int| 0 <= i < b.len() implies same_condition(#[trigger] b[i], a[i]) by {
        assert(same_condition(a[i], b[i]));
    }
}

/// Routes that are matched alike fare alike with every request.
pub proof fn same_matching_fares_alike(a: RouteConfig, b: RouteConfig, q: Request)
    requires
        same_matching(a, b),
    ensures
        matching::route_matches(a, q) == matching::route_matches(b, q),
        matching::reject_reason(a.matches@, q) == matching::reject_reason(b.matches@, q),
        matching::specificity(a) == matching::specificity(b),
        matching::score(a) == matching::score(b),
{
    let x = a.matches@;
    let y = b.matches@;
    lemma_same_condition_symmetric(x, y);
    lemma_same_failing(x, y, q, 0);
    lemma_same_hosts(x, y, q);
    lemma_same_hosts(y, x, q);
    lemma_same_scores(x, y);
    matching::lemma_first_failing(x, q, 0);
    let k = matching::first_failing(x, q, 0);
    if k < x.len() {
        assert(same_condition(x[k], y[k]));
        lemma_same_condition(x[k], y[k], q);
    }
    matching::reason_iff_no_match(x, q);
    matching::reason_iff_no_match(y, q);
}

proof fn lemma_same_error(a: Seq<MatchCondition>, b: Seq<MatchCondition>, from: int)
    requires
        0 <= from <= a.len(),
        a.len() == b.len(),
        forall|i: int| 0 <= i < a.len() ==> same_condition(#[trigger] a[i], b[i]),
    ensures
        routing::first_broken(a, from) == routing::first_broken(b, from),
        from <= routing::first_broken(a, from) <= a.len(),
        routing::first_broken(a, from) < a.len() ==> routing::broken(
            a[routing::first_broken(a, from)],
        ),
    decreases a.len() - from,
{
    if from < a.len() {
        assert(same_condition(a[from], b[from]));
        lemma_same_error(a, b, from + 1);
    }
}

proof fn lemma_same_errors(a: Seq<RouteConfig>, b: Seq<RouteConfig>)
    requires
        same_tables(a, b),
    ensures
        routing::routes_error(a) == routing::routes_error(b),
    decreases a.len(),
{
    if a.len() > 0 {
        lemma_same_init(a, b);
        lemma_same_errors(a.drop_last(), b.drop_last());
        assert(same_matching(a[a.len() - 1], b[a.len() - 1]));
        let x = a.last().matches@;
        let y = b.last().matches@;
        lemma_same_error(x, y, 0);
        let k = routing::first_broken(x, 0);
        if k < x.len() {
            assert(same_condition(x[k], y[k]));
        }
    }
}

proof fn lemma_same_init(a: Seq<RouteConfig>, b: Seq<RouteConfig>)
    requires
        same_tables(a, b),
        a.len() > 0,
    ensures
        same_tables(a.drop_last(), b.drop_last()),
        same_matching(a.last(), b.last()),
{
    assert forall|i: int| 0 <= i < a.drop_last().len() implies same_matching(
        #[trigger] a.drop_last()[i],
        b.drop_last()[i],
    ) by {
        assert(a.drop_last()[i] == a[i] && b.drop_last()[i] == b[i]);
    }
    assert(same_matching(a[a.len() - 1], b[a.len() - 1]));
}

proof fn lemma_same_outranks(a: RouteConfig, b: RouteConfig, x: RouteConfig, y: RouteConfig)
    requires
        same_matching(a, b),
        same_matching(x, y),
    ensures
        matching::outranks(a, x) == matching::outranks(b, y),
{
    lemma_same_scores(a.matches@, b.matches@);
    lemma_same_scores(x.matches@, y.matches@);
}

proof fn lemma_same_slot(
    a: Seq<RouteConfig>,
    b: Seq<RouteConfig>,
    x: RouteConfig,
    y: RouteConfig,
    from: int,
)
    requires
        same_tables(a, b),
        same_matching(x, y),
        0 <= from <= a.len(),
    ensures
        matching::slot(a, x, from) == matching::slot(b, y, from),
    decreases a.len() - from,
{
    if from < a.len() {
        assert(same_matching(a[from], b[from]));
        lemma_same_outranks(x, y, a[from], b[from]);
        lemma_same_slot(a, b, x, y, from + 1);
    }
}

proof fn lemma_same_ranked(a: Seq<RouteConfig>, b: Seq<RouteConfig>)
    requires
        same_tables(a, b),
    ensures
        same_tables(matching::ranked(a), matching::ranked(b)),
    decreases a.len(),
{
    if a.len() > 0 {
        lemma_same_init(a, b);
        lemma_same_ranked(a.drop_last(), b.drop_last());
        let s = matching::ranked(a.drop_last());
        let t = matching::ranked(b.drop_last());
        lemma_same_slot(s, t, a.last(), b.last(), 0);
        matching::lemma_slot(s, a.last(), 0);
        let k = matching::slot(s, a.last(), 0);
        let m = s.insert(k, a.last());
        let n = t.insert(k, b.last());
        assert forall|i: int| 0 <= i < m.len() implies same_matching(#[trigger] m[i], n[i]) by {
            if i < k {
                assert(m[i] == s[i] && n[i] == t[i]);
            } else if i > k {
                assert(m[i] == s[i - 1] && n[i] == t[i - 1]);
            }
        }
    }
}

proof fn lemma_same_first(a: Seq<RouteConfig>, b: Seq<RouteConfig>, q: Request, from: int)
    requires
        same_tables(a, b),
        0 <= from <= a.len(),
    ensures
        matching::first_match(a, q, from) == matching::first_match(b, q, from),
    decreases a.len() - from,
{
    if from < a.len() {
        assert(same_matching(a[from], b[from]));
        same_matching_fares_alike(a[from], b[from], q);
        lemma_same_first(a, b, q, from + 1);
    }
}

fn copy_condition(c: &MatchCondition) -> (r: MatchCondition)
    ensures
        same_condition(r, *c),
{
    match c {
        MatchCondition::Path(p) => MatchCondition::Path(p.clone()),
        MatchCondition::PathPrefix(p) => MatchCondition::PathPrefix(p.clone()),
        MatchCondition::PathRegex(p) => MatchCondition::PathRegex(p.clone()),
        MatchCondition::Host(p) => MatchCondition::Host(p.clone()),
        MatchCondition::Header { name, value } => MatchCondition::Header {
            name: name.clone(),
            value: match value {
                Some(v) => Some(v.clone()),
                None => None,
            },
        },
        MatchCondition::Method(ms) => {
            let mut out: Vec<String> = Vec::new();
            let mut i: usize = 0;
            while i < ms.len()
                invariant
                    i <= ms@.len(),
                    out@.len() == i,
                    forall|j: int| 0 <= j < i ==> (#[trigger] out@[j])@ == ms@[j]@,
                decreases ms.len() - i,
            {
                out.push(ms[i].clone());
                i = i + 1;
            }
            assert(out.deep_view() =~= ms.deep_view());
            MatchCondition::Method(out)
        },
        MatchCondition::QueryParam { name, value } => MatchCondition::QueryParam {
            name: name.clone(),
            value: match value {
                Some(v) => Some(v.clone()),
                None => None,
            },
        },
    }
}

/// What matching reads of a route: identifier, priority and conditions.
fn matching_part(route: &RouteConfig) -> (r: RouteConfig)
    ensures
        same_matching(r, *route),
{
    let mut matches: Vec<MatchCondition> = Vec::new();
    let mut i: usize = 0;
    while i < route.matches.len()
        invariant
            i <= route.matches@.len(),
            matches@.len() == i,
            forall|j: int|
                0 <= j < i ==> same_condition(#[trigger] matches@[j], route.matches@[j]),
        decreases route.matches.len() - i,
    {
        matches.push(copy_condition(&route.matches[i]));
        i = i + 1;
    }
    RouteConfig {
        id: route.id.clone(),
        priority: route.priority,
        matches,
        upstream: None,
        service_type: route.service_type,
        policies: RoutePolicies::default(),
        filters: Vec::new(),
        waf_enabled: route.waf_enabled,
        retry_policy: None,
        shadow: None,
    }
}

fn matching_parts(routes: &Vec<RouteConfig>) -> (r: Vec<RouteConfig>)
    ensures
        same_tables(r@, routes@),
{
    let mut out: Vec<RouteConfig> = Vec::new();
    let mut i: usize = 0;
    while i < routes.len()
        invariant
            i <= routes@.len(),
            out@.len() == i,
            forall|j: int| 0 <= j < i ==> same_matching(#[trigger] out@[j], routes@[j]),
        decreases routes.len() - i,
    {
        out.push(matching_part(&routes[i]));
        i = i + 1;
    }
    out
}

// ---------------------------------------------------------------------------
// Building the report
// ---------------------------------------------------------------------------

/// The evaluations are those of a table.
closed spec fn evaluated(
    evaluations: Seq<routing::RouteEvaluation>,
    table: Seq<RouteConfig>,
    q: Request,
) -> bool {
    evaluations.len() == table.len() && forall|i: int|
        0 <= i < table.len() ==> routing::evaluation_of(#[trigger] evaluations[i], table[i], q)
}

/// What is reported of an evaluation that was beaten.
closed spec fn beat_view(e: routing::RouteEvaluation) -> (Seq<char>, i32) {
    (e.id@, e.priority.weight)
}

proof fn lemma_beaten(
    evaluations: Seq<routing::RouteEvaluation>,
    table: Seq<RouteConfig>,
    q: Request,
    win: int,
)
    requires
        evaluated(evaluations, table, q),
    ensures
        routing::beaten(evaluations, win).map_values(|e: routing::RouteEvaluation| beat_view(e))
            == losers(table, q, win),
    decreases table.len(),
{
    let f = |e: routing::RouteEvaluation| beat_view(e);
    if table.len() == 0 {
        assert(routing::beaten(evaluations, win).map_values(f) =~= losers(table, q, win));
    } else {
        let es = evaluations.drop_last();
        let ts = table.drop_last();
        assert forall|i: int| 0 <= i < ts.len() implies routing::evaluation_of(
            #[trigger] es[i],
            ts[i],
            q,
        ) by {
            assert(es[i] == evaluations[i] && ts[i] == table[i]);
        }
        lemma_beaten(es, ts, q, win);
        let e = evaluations.last();
        assert(routing::evaluation_of(evaluations[table.len() - 1], table[table.len() - 1], q));
        if table.len() - 1 != win && e.matched {
            assert(routing::beaten(evaluations, win).map_values(f) =~= routing::beaten(
                es,
                win,
            ).map_values(f).push(beat_view(e)));
        }
    }
}

fn list_rejected(
    trace: &ExplainTrace,
    Ghost(table): Ghost<Seq<RouteConfig>>,
    Ghost(q): Ghost<Request>,
) -> (r: Vec<RejectedRoute>)
    requires
        evaluated(trace.evaluations@, table, q),
    ensures
        r.deep_view() == rejections(table, q),
{
    let mut out: Vec<RejectedRoute> = Vec::new();
    let mut i: usize = 0;
    assert(out.deep_view() =~= rejections(table.take(0), q));
    while i < trace.evaluations.len()
        invariant
            i <= trace.evaluations@.len(),
            evaluated(trace.evaluations@, table, q),
            out.deep_view() == rejections(table.take(i as int), q),
        decreases trace.evaluations.len() - i,
    {
        let e = &trace.evaluations[i];
        let ghost before = out.deep_view();
        proof {
            assert(routing::evaluation_of(trace.evaluations@[i as int], table[i as int], q));
            assert(table.take(i + 1).drop_last() =~= table.take(i as int));
            assert(table.take(i + 1).last() == table[i as int]);
            matching::reason_iff_no_match(table[i as int].matches@, q);
        }
        if !e.matched {
            let reason = match &e.reject_reason {
                Some(t) => t.clone(),
                None => "unknown".to_owned(),
            };
            let ghost x = (e.id@, e.priority.weight, reason@);
            out.push(
                RejectedRoute {
                    id: e.id.as_str().to_owned(),
                    priority: e.priority.as_i32(),
                    reason,
                },
            );
            assert(out.deep_view() =~= before.push(x));
        }
        i = i + 1;
    }
    assert(table.take(i as int) =~= table);
    out
}

fn list_beaten(
    trace: &ExplainTrace,
    win: usize,
    Ghost(table): Ghost<Seq<RouteConfig>>,
    Ghost(q): Ghost<Request>,
) -> (r: Vec<BeatRoute>)
    requires
        evaluated(trace.evaluations@, table, q),
        trace.winner == Some(win),
    ensures
        r.deep_view() == losers(table, q, win as int),
{
    let beaten = trace.beaten();
    let ghost es = beaten@.map_values(|e: &routing::RouteEvaluation| *e);
    let ghost f = |e: routing::RouteEvaluation| beat_view(e);
    let mut out: Vec<BeatRoute> = Vec::new();
    let mut i: usize = 0;
    while i < beaten.len()
        invariant
            i <= beaten@.len(),
            out@.len() == i,
            es == beaten@.map_values(|e: &routing::RouteEvaluation| *e),
            forall|j: int|
                0 <= j < i ==> (#[trigger] out@[j]).deep_view() == beat_view(es[j]),
        decreases beaten.len() - i,
    {
        let e = beaten[i];
        assert(es[i as int] == *e);
        out.push(BeatRoute { id: e.id.as_str().to_owned(), priority: e.priority.as_i32() });
        i = i + 1;
    }
    proof {
        lemma_beaten(trace.evaluations@, table, q, win as int);
        assert(out.deep_view() =~= es.map_values(f));
    }
    out
}

fn phase_label(phase: FilterPhase) -> (r: &'static str)
    ensures
        r@ == phase_word(phase),
{
    match phase {
        FilterPhase::Request => "request",
        FilterPhase::Response => "response",
        FilterPhase::Both => "both",
    }
}

fn list_steps(config: &Config, route: &RouteConfig) -> (r: Vec<FilterStep>)
    ensures
        r.deep_view() == steps_of(config.filters.deep_view(), route.filters.deep_view()),
{
    let ghost filters = config.filters.deep_view();
    let mut out: Vec<FilterStep> = Vec::new();
    let mut i: usize = 0;
    while i < route.filters.len()
        invariant
            i <= route.filters@.len(),
            out@.len() == i,
            filters == config.filters.deep_view(),
            forall|j: int|
                0 <= j < i ==> (#[trigger] out@[j]).deep_view() == step_of(
                    filters,
                    route.filters@[j]@,
                ),
        decreases route.filters.len() - i,
    {
        let id = &route.filters[i];
        let step = match config.filters.get(id.as_str()) {
            Some(fc) => FilterStep {
                id: id.clone(),
                kind: fc.filter_type().to_owned(),
                phase: phase_label(fc.phase()).to_owned(),
                is_agent: fc.is_agent(),
                undefined: false,
            },
            None => FilterStep {
                id: id.clone(),
                kind: "?".to_owned(),
                phase: "?".to_owned(),
                is_agent: false,
                undefined: true,
            },
        };
        out.push(step);
        i = i + 1;
    }
    assert(out.deep_view() =~= steps_of(filters, route.filters.deep_view()));
    out
}

fn list_timeouts(listeners: &Vec<ListenerConfig>) -> (r: Vec<ListenerTimeout>)
    ensures
        r.deep_view() == listener_timeouts(listeners@),
{
    let mut out: Vec<ListenerTimeout> = Vec::new();
    let mut i: usize = 0;
    while i < listeners.len()
        invariant
            i <= listeners@.len(),
            out@.len() == i,
            forall|j: int|
                0 <= j < i ==> (#[trigger] out@[j]).deep_view() == (
                    listeners@[j].id@,
                    listeners@[j].request_timeout_secs,
                ),
        decreases listeners.len() - i,
    {
        out.push(
            ListenerTimeout {
                listener: listeners[i].id.clone(),
                secs: listeners[i].request_timeout_secs,
            },
        );
        i = i + 1;
    }
    assert(out.deep_view() =~= listener_timeouts(listeners@));
    out
}

fn describe_upstream(config: &Config, name: &String) -> (r: UpstreamInfo)
    ensures
        upstream_info_of(r, config.upstreams.deep_view(), name@),
{
    match config.upstreams.get(name.as_str()) {
        Some(up) => {
            let proxy_protocol = match up.proxy_protocol {
                Some(ProxyProtocolVersion::V1) => Some("v1".to_owned()),
                Some(ProxyProtocolVersion::V2) => Some("v2".to_owned()),
                None => None,
            };
            let profile = match &up.profile {
                Some(p) => Some(p.name.clone()),
                None => None,
            };
            let profile_settings: Vec<String> = match &up.profile {
                Some(p) => p.pairs(),
                None => Vec::new(),
            };
            assert(up.profile is None ==> profile_settings.deep_view() =~= Seq::empty());
            UpstreamInfo {
                name: name.clone(),
                defined: true,
                load_balancing: Some(up.load_balancing.name().to_owned()),
                target_count: Some(up.targets.len()),
                proxy_protocol,
                profile,
                profile_settings,
            }
        },
        None => UpstreamInfo {
            name: name.clone(),
            defined: false,
            load_balancing: None,
            target_count: None,
            proxy_protocol: None,
            profile: None,
            profile_settings: Vec::new(),
        },
    }
}

/// Index of the first route with an identifier that occurs.
fn find_route(routes: &Vec<RouteConfig>, id: &str) -> (r: usize)
    requires
        matching::find_id(routes@, id@, 0) < routes@.len(),
    ensures
        r == matching::find_id(routes@, id@, 0),
{
    let mut i: usize = 0;
    while i < routes.len() && !text::same(routes[i].id.as_str(), id)
        invariant
            i <= routes@.len(),
            matching::find_id(routes@, id@, 0) < routes@.len(),
            matching::find_id(routes@, id@, 0) == matching::find_id(routes@, id@, i as int),
        decreases routes.len() - i,
    {
        i = i + 1;
    }
    i
}

fn describe_winner(
    config: &Config,
    trace: &ExplainTrace,
    win: usize,
    Ghost(table): Ghost<Seq<RouteConfig>>,
    Ghost(q): Ghost<Request>,
) -> (r: MatchedRoute)
    requires
        evaluated(trace.evaluations@, table, q),
        trace.winner == Some(win),
        win < table.len(),
        matching::find_id(config.routes@, table[win as int].id@, 0) < config.routes@.len(),
    ensures
        matched_route_of(r, *config, table, win as int, q),
{
    let e = &trace.evaluations[win];
    proof {
        assert(routing::evaluation_of(trace.evaluations@[win as int], table[win as int], q));
        matching::lemma_find_id(config.routes@, table[win as int].id@, 0);
    }
    let k = find_route(&config.routes, e.id.as_str());
    let route = &config.routes[k];
    let beat = list_beaten(trace, win, Ghost(table), Ghost(q));
    let filters = list_steps(config, route);
    let timeout = TimeoutInfo {
        route_override_secs: route.policies.timeout_secs,
        listener_defaults: list_timeouts(&config.listeners),
    };
    let upstream = match &route.upstream {
        Some(name) => Some(describe_upstream(config, name)),
        None => None,
    };
    MatchedRoute {
        id: e.id.as_str().to_owned(),
        priority: e.priority.as_i32(),
        specificity: e.specificity,
        beat,
        filters,
        waf_enabled: route.waf_enabled,
        timeout,
        failure_mode: route.policies.failure_mode.name().to_owned(),
        upstream,
    }
}

proof fn lemma_evaluated(
    evaluations: Seq<routing::RouteEvaluation>,
    a: Seq<RouteConfig>,
    b: Seq<RouteConfig>,
    q: Request,
)
    requires
        evaluated(evaluations, a, q),
        same_tables(a, b),
    ensures
        evaluated(evaluations, b, q),
{
    assert forall|i: int| 0 <= i < b.len() implies routing::evaluation_of(
        #[trigger] evaluations[i],
        b[i],
        q,
    ) by {
        assert(routing::evaluation_of(evaluations[i], a[i], q));
        assert(same_matching(a[i], b[i]));
        same_matching_fares_alike(a[i], b[i], q);
    }
}

proof fn lemma_ranked_id_occurs(routes: Seq<RouteConfig>, w: int)
    requires
        0 <= w < matching::ranked(routes).len(),
    ensures
        matching::find_id(routes, matching::ranked(routes)[w].id@, 0) < routes.len(),
{
    broadcast use vstd::seq_lib::group_to_multiset_ensures;

    let table = matching::ranked(routes);
    matching::ranked_keeps_routes(routes);
    assert(table.contains(table[w]));
    assert(table.to_multiset().count(table[w]) > 0);
    assert(routes.contains(table[w]));
    let i = choose|i: int| 0 <= i < routes.len() && routes[i] == table[w];
    matching::lemma_find_id(routes, table[w].id@, 0);
    if matching::find_id(routes, table[w].id@, 0) >= routes.len() {
        assert(routes[i].id@ != table[w].id@);
    }
}

/// Explains how a request is routed. The only error is a path pattern that does
/// not compile.
pub fn explain(config: &Config, request: &ExplainRequest) -> (r: Result<ExplainReport, RouteError>)
    ensures
        (match r {
            Ok(rep) => routing::routes_error(config.routes@) is None && report_of(
                rep,
                *config,
                *request,
            ),
            Err(e) => {
                &&& e matches RouteError::InvalidRegex { pattern, error }
                &&& routing::routes_error(config.routes@) == Some((pattern@, error@))
            },
        }),
{
    let ghost table = matching::ranked(config.routes@);
    let ghost q = explained(*request);
    let parts = matching_parts(&config.routes);
    let ghost copy = matching::ranked(parts@);
    proof {
        lemma_same_errors(parts@, config.routes@);
        lemma_same_ranked(parts@, config.routes@);
        lemma_same_first(copy, table, q, 0);
        matching::lemma_first_match(copy, q, 0);
    }
    let matcher = match RouteMatcher::with_cache_size(
        parts,
        None,
        config.server.route_cache_size,
    ) {
        Ok(m) => m,
        Err(e) => {
            return Err(e);
        },
    };
    let v = text::chars_of(request.path.as_str());
    let k = text::find_in(v.as_slice(), '?', 0);
    let bare = text::string_of_range(v.as_slice(), 0, k);
    assert(bare@ =~= request.path@.take(k as int));
    let query = if k < v.len() {
        let t = text::string_of_range(v.as_slice(), k + 1, v.len());
        assert(t@ =~= request.path@.skip(k + 1));
        t
    } else {
        let t = String::new();
        assert(t@ =~= Seq::<char>::empty());
        t
    };
    let params = request::parse_query_string(query.as_str());
    let req = RequestInfo::new(
        request.method.as_str(),
        bare.as_str(),
        request.host.as_str(),
    ).with_headers(request.headers.copy()).with_query_params(params);
    assert(req@ == q);
    let trace = matcher.explain_request(&req);
    proof {
        assert(evaluated(trace.evaluations@, copy, q));
        lemma_evaluated(trace.evaluations@, copy, table, q);
        matching::ranked_is_in_order(config.routes@);
    }
    let rejected = list_rejected(&trace, Ghost(table), Ghost(q));
    let matched = match trace.winner {
        Some(win) => {
            proof {
                lemma_ranked_id_occurs(config.routes@, win as int);
            }
            Some(describe_winner(config, &trace, win, Ghost(table), Ghost(q)))
        },
        None => None,
    };
    Ok(
        ExplainReport {
            no_match: matched.is_none(),
            request: RequestSummary {
                method: request.method.clone(),
                path: request.path.clone(),
                host: request.host.clone(),
            },
            matched,
            rejected,
        },
    )
}

// ---------------------------------------------------------------------------
// Text
// ---------------------------------------------------------------------------

/// So many spaces.
pub open spec fn spaces(n: int) -> Seq<char>
    decreases n,
{
    if n <= 0 {
        Seq::empty()
    } else {
        spaces(n - 1).push(' ')
    }
}

/// A text filled up with spaces to a width.
pub open spec fn padded(s: Seq<char>, width: int) -> Seq<char> {
    s + spaces(width - s.len())
}

fn push_padded(out: &mut String, s: &str, width: usize)
    ensures
        final(out)@ == old(out)@ + padded(s@, width as int),
{
    let ghost before = out@;
    out.append(s);
    let v = text::chars_of(s);
    let mut i: usize = v.len();
    assert(out@ =~= before + (s@ + spaces(0)));
    while i < width
        invariant
            v@ == s@,
            i >= v@.len(),
            i <= width || i == v@.len(),
            out@ == before + (s@ + spaces(i - v@.len())),
        decreases width - i,
    {
        let ghost now = out@;
        out.push(' ');
        assert(out@ =~= before + (s@ + spaces(i + 1 - v@.len())));
        i = i + 1;
    }
    assert(width - s@.len() <= 0 ==> spaces(width - s@.len()) =~= spaces(i - v@.len()));
}

/// A route that was beaten, in words.
pub open spec fn beat_word(b: (Seq<char>, i32)) -> Seq<char> {
    "\""@ + b.0 + "\" [priority "@ + text::int_text(b.1 as int) + "]"@
}

/// A listener timeout in words.
pub open spec fn timeout_word(t: (Seq<char>, u64)) -> Seq<char> {
    t.0 + "="@ + text::digits(t.1 as nat) + "s"@
}

/// A filter of the chain as a line, with its number.
pub open spec fn step_line(n: nat, f: Step) -> Seq<char> {
    "    "@ + text::digits(n) + ". "@ + (if f.undefined {
        f.id + "  UNDEFINED (not in filters block; skipped at runtime)\n"@
    } else {
        padded(f.id, 20) + " "@ + padded(f.kind, 12) + " ["@ + f.phase + "]"@ + (if f.is_agent {
            "  <- agent"@
        } else {
            ""@
        }) + "\n"@
    })
}

/// The lines of the first filters.
pub open spec fn step_lines(steps: Seq<Step>) -> Seq<char>
    decreases steps.len(),
{
    if steps.len() == 0 {
        Seq::empty()
    } else {
        step_lines(steps.drop_last()) + step_line(steps.len(), steps.last())
    }
}

/// The line on PROXY protocol emission.
pub open spec fn proxy_line(version: Option<Seq<char>>) -> Seq<char> {
    match version {
        Some(v) => "  PROXY protocol: emits "@ + v
            + " header on new connections (backend sees real client IP; per-client connection pooling)\n"@,
        None => ""@,
    }
}

/// The line on the backend profile.
pub open spec fn profile_line(profile: Option<Seq<char>>, settings: Seq<Seq<char>>) -> Seq<char> {
    match profile {
        Some(p) => "  Profile: \""@ + p + (if settings.len() == 0 {
            "\" — contributed nothing (every setting is declared on the upstream)\n"@
        } else {
            "\" — contributed "@ + text::join(settings, ", "@) + "\n"@
        }),
        None => ""@,
    }
}

/// The lines on an upstream.
pub open spec fn upstream_lines(u: Option<UpstreamInfo>) -> Seq<char> {
    match u {
        Some(i) => if i.defined {
            "  Upstream: \""@ + i.name@ + "\"  ["@ + (match i.load_balancing {
                Some(b) => b@,
                None => "?"@,
            }) + ", "@ + text::digits(
                match i.target_count {
                    Some(n) => n as nat,
                    None => 0,
                },
            ) + " target(s)]\n"@ + proxy_line(i.proxy_protocol.deep_view()) + profile_line(
                i.profile.deep_view(),
                i.profile_settings.deep_view(),
            )
        } else {
            "  Upstream: \""@ + i.name@ + "\"  UNDEFINED (not in upstreams block)\n"@
        },
        None => "  Upstream: (none — static or built-in handler)\n"@,
    }
}

/// The line on the routes that were beaten.
pub open spec fn beat_line(beat: Seq<(Seq<char>, i32)>) -> Seq<char> {
    if beat.len() == 0 {
        "  Beat: (no other route matched)\n"@
    } else {
        "  Beat: "@ + text::join(beat.map_values(|b: (Seq<char>, i32)| beat_word(b)), ", "@) + "\n"@
    }
}

/// The lines on the filter chain.
pub open spec fn chain_lines(steps: Seq<Step>) -> Seq<char> {
    if steps.len() == 0 {
        "  Filters: (none)\n"@
    } else {
        "  Filters (in declared order):\n"@ + step_lines(steps)
    }
}

/// The lines on the winning route.
pub open spec fn matched_lines(m: MatchedRoute) -> Seq<char> {
    "Matched route: \""@ + m.id@ + "\"  [priority "@ + text::int_text(m.priority as int)
        + ", specificity "@ + text::digits(m.specificity as nat) + "]\n"@ + beat_line(
        m.beat.deep_view(),
    ) + chain_lines(m.filters.deep_view()) + (if m.waf_enabled {
        "  WAF: enabled (waf-enabled shorthand)\n"@
    } else {
        "  WAF: disabled\n"@
    }) + timeout_line(m.timeout) + "  Failure mode: "@ + m.failure_mode@ + "\n"@ + upstream_lines(
        m.upstream,
    )
}

/// The line on the timeout.
pub open spec fn timeout_line(t: TimeoutInfo) -> Seq<char> {
    match t.route_override_secs {
        Some(secs) => "  Effective timeout: "@ + text::digits(secs as nat)
            + "s  (route override)\n"@,
        None => "  Effective timeout: per-listener request-timeout — "@ + (if t.listener_defaults@.len()
            == 0 {
            "(no listeners configured)"@
        } else {
            text::join(
                t.listener_defaults.deep_view().map_values(
                    |l: (Seq<char>, u64)| timeout_word(l),
                ),
                ", "@,
            )
        }) + "\n"@,
    }
}

/// A rejected route as a line.
pub open spec fn rejected_line(r: (Seq<char>, i32, Seq<char>)) -> Seq<char> {
    "    - \""@ + r.0 + "\" [priority "@ + text::int_text(r.1 as int) + "]  rejected: "@ + r.2
        + "\n"@
}

/// The lines of the first rejected routes.
pub open spec fn rejected_lines(rs: Seq<(Seq<char>, i32, Seq<char>)>) -> Seq<char>
    decreases rs.len(),
{
    if rs.len() == 0 {
        Seq::empty()
    } else {
        rejected_lines(rs.drop_last()) + rejected_line(rs.last())
    }
}

/// The lines where no route matches.
pub open spec fn no_match_lines(rs: Seq<(Seq<char>, i32, Seq<char>)>) -> Seq<char> {
    "No route matched.\n  Evaluated "@ + text::digits(rs.len()) + " route(s):\n"@ + rejected_lines(rs)
        + "  (note: listener-scoped default routes are not evaluated by explain)\n"@
}

/// The report as text.
pub open spec fn report_text(r: ExplainReport) -> Seq<char> {
    "Request: "@ + r.request.method@ + " "@ + r.request.path@ + "  (host: "@ + r.request.host@
        + ")\n\n"@ + (match r.matched {
        Some(m) => matched_lines(m),
        None => no_match_lines(r.rejected.deep_view()),
    })
}

fn beat_text(b: &BeatRoute) -> (r: String)
    ensures
        r@ == beat_word(b.deep_view()),
{
    let mut out = "\"".to_owned();
    out.append(b.id.as_str());
    out.append("\" [priority ");
    let p = text::decimal_signed(b.priority as i64);
    out.append(p.as_str());
    out.append("]");
    out
}

fn beat_list(beat: &Vec<BeatRoute>) -> (r: String)
    ensures
        r@ == text::join(
            beat.deep_view().map_values(|b: (Seq<char>, i32)| beat_word(b)),
            ", "@,
        ),
{
    let mut parts: Vec<String> = Vec::new();
    let mut i: usize = 0;
    while i < beat.len()
        invariant
            i <= beat@.len(),
            parts@.len() == i,
            forall|j: int|
                0 <= j < i ==> (#[trigger] parts@[j])@ == beat_word(beat@[j].deep_view()),
        decreases beat.len() - i,
    {
        parts.push(beat_text(&beat[i]));
        i = i + 1;
    }
    assert(parts.deep_view() =~= beat.deep_view().map_values(
        |b: (Seq<char>, i32)| beat_word(b),
    ));
    text::join_with(&parts, ", ")
}

fn timeout_list(ts: &Vec<ListenerTimeout>) -> (r: String)
    ensures
        r@ == text::join(
            ts.deep_view().map_values(|l: (Seq<char>, u64)| timeout_word(l)),
            ", "@,
        ),
{
    let mut parts: Vec<String> = Vec::new();
    let mut i: usize = 0;
    while i < ts.len()
        invariant
            i <= ts@.len(),
            parts@.len() == i,
            forall|j: int|
                0 <= j < i ==> (#[trigger] parts@[j])@ == timeout_word(ts@[j].deep_view()),
        decreases ts.len() - i,
    {
        let mut t = ts[i].listener.clone();
        t.append("=");
        let n = text::decimal(ts[i].secs);
        t.append(n.as_str());
        t.append("s");
        parts.push(t);
        i = i + 1;
    }
    assert(parts.deep_view() =~= ts.deep_view().map_values(
        |l: (Seq<char>, u64)| timeout_word(l),
    ));
    text::join_with(&parts, ", ")
}

fn push_steps(out: &mut String, steps: &Vec<FilterStep>)
    ensures
        final(out)@ == old(out)@ + step_lines(steps.deep_view()),
{
    let ghost head = out@;
    let ghost all = steps.deep_view();
    let mut i: usize = 0;
    assert(out@ =~= head + step_lines(all.take(0)));
    while i < steps.len()
        invariant
            i <= steps@.len(),
            all == steps.deep_view(),
            all.len() == steps@.len(),
            out@ == head + step_lines(all.take(i as int)),
        decreases steps.len() - i,
    {
        let f = &steps[i];
        let ghost before = out@;
        assert(all.take(i + 1).drop_last() =~= all.take(i as int));
        assert(all.take(i + 1).last() == f.deep_view());
        out.append("    ");
        let n = text::decimal(i as u64 + 1);
        out.append(n.as_str());
        out.append(". ");
        if f.undefined {
            out.append(f.id.as_str());
            out.append("  UNDEFINED (not in filters block; skipped at runtime)\n");
        } else {
            push_padded(out, f.id.as_str(), 20);
            out.append(" ");
            push_padded(out, f.kind.as_str(), 12);
            out.append(" [");
            out.append(f.phase.as_str());
            out.append("]");
            out.append(
                if f.is_agent {
                    "  <- agent"
                } else {
                    ""
                },
            );
            out.append("\n");
        }
        assert(out@ =~= before + step_line((i + 1) as nat, f.deep_view()));
        assert(out@ =~= head + step_lines(all.take(i + 1)));
        i = i + 1;
    }
    assert(all.take(i as int) =~= all);
}

fn proxy_text(v: &Option<String>) -> (r: String)
    ensures
        r@ == proxy_line(v.deep_view()),
{
    match v {
        Some(v) => {
            let mut out = "  PROXY protocol: emits ".to_owned();
            out.append(v.as_str());
            out.append(
                " header on new connections (backend sees real client IP; per-client connection pooling)\n",
            );
            out
        },
        None => "".to_owned(),
    }
}

fn profile_text(profile: &Option<String>, settings: &Vec<String>) -> (r: String)
    ensures
        r@ == profile_line(profile.deep_view(), settings.deep_view()),
{
    match profile {
        Some(p) => {
            let tail = if settings.len() == 0 {
                "\" — contributed nothing (every setting is declared on the upstream)\n".to_owned()
            } else {
                let list = text::join_with(settings, ", ");
                let mut t = "\" — contributed ".to_owned();
                t.append(list.as_str());
                t.append("\n");
                t
            };
            let mut out = "  Profile: \"".to_owned();
            out.append(p.as_str());
            out.append(tail.as_str());
            out
        },
        None => "".to_owned(),
    }
}

fn upstream_text(u: &Option<UpstreamInfo>) -> (r: String)
    ensures
        r@ == upstream_lines(*u),
{
    match u {
        Some(i) => {
            if i.defined {
                let balancing = match &i.load_balancing {
                    Some(b) => b.as_str(),
                    None => "?",
                };
                let n = text::decimal(
                    match i.target_count {
                        Some(n) => n as u64,
                        None => 0,
                    },
                );
                let proxy = proxy_text(&i.proxy_protocol);
                let profile = profile_text(&i.profile, &i.profile_settings);
                let mut out = "  Upstream: \"".to_owned();
                out.append(i.name.as_str());
                out.append("\"  [");
                out.append(balancing);
                out.append(", ");
                out.append(n.as_str());
                out.append(" target(s)]\n");
                out.append(proxy.as_str());
                out.append(profile.as_str());
                out
            } else {
                let mut out = "  Upstream: \"".to_owned();
                out.append(i.name.as_str());
                out.append("\"  UNDEFINED (not in upstreams block)\n");
                out
            }
        },
        None => "  Upstream: (none — static or built-in handler)\n".to_owned(),
    }
}

fn timeout_text(t: &TimeoutInfo) -> (r: String)
    ensures
        r@ == timeout_line(*t),
{
    match t.route_override_secs {
        Some(secs) => {
            let n = text::decimal(secs);
            let mut out = "  Effective timeout: ".to_owned();
            out.append(n.as_str());
            out.append("s  (route override)\n");
            out
        },
        None => {
            let fallback = if t.listener_defaults.len() == 0 {
                "(no listeners configured)".to_owned()
            } else {
                timeout_list(&t.listener_defaults)
            };
            let mut out = "  Effective timeout: per-listener request-timeout — ".to_owned();
            out.append(fallback.as_str());
            out.append("\n");
            out
        },
    }
}

fn beat_line_text(beat: &Vec<BeatRoute>) -> (r: String)
    ensures
        r@ == beat_line(beat.deep_view()),
{
    if beat.len() == 0 {
        "  Beat: (no other route matched)\n".to_owned()
    } else {
        let list = beat_list(beat);
        let mut out = "  Beat: ".to_owned();
        out.append(list.as_str());
        out.append("\n");
        out
    }
}

fn chain_text(steps: &Vec<FilterStep>) -> (r: String)
    ensures
        r@ == chain_lines(steps.deep_view()),
{
    if steps.len() == 0 {
        "  Filters: (none)\n".to_owned()
    } else {
        let mut out = "  Filters (in declared order):\n".to_owned();
        push_steps(&mut out, steps);
        out
    }
}

fn matched_text(m: &MatchedRoute) -> (r: String)
    ensures
        r@ == matched_lines(*m),
{
    let p = text::decimal_signed(m.priority as i64);
    let s = text::decimal(m.specificity as u64);
    let beat = beat_line_text(&m.beat);
    let chain = chain_text(&m.filters);
    let waf = if m.waf_enabled {
        "  WAF: enabled (waf-enabled shorthand)\n"
    } else {
        "  WAF: disabled\n"
    };
    let timeout = timeout_text(&m.timeout);
    let upstream = upstream_text(&m.upstream);
    let mut out = "Matched route: \"".to_owned();
    out.append(m.id.as_str());
    out.append("\"  [priority ");
    out.append(p.as_str());
    out.append(", specificity ");
    out.append(s.as_str());
    out.append("]\n");
    out.append(beat.as_str());
    out.append(chain.as_str());
    out.append(waf);
    out.append(timeout.as_str());
    out.append("  Failure mode: ");
    out.append(m.failure_mode.as_str());
    out.append("\n");
    out.append(upstream.as_str());
    out
}

fn push_rejected(out: &mut String, rs: &Vec<RejectedRoute>)
    ensures
        final(out)@ == old(out)@ + rejected_lines(rs.deep_view()),
{
    let ghost head = out@;
    let ghost all = rs.deep_view();
    let mut i: usize = 0;
    assert(out@ =~= head + rejected_lines(all.take(0)));
    while i < rs.len()
        invariant
            i <= rs@.len(),
            all == rs.deep_view(),
            all.len() == rs@.len(),
            out@ == head + rejected_lines(all.take(i as int)),
        decreases rs.len() - i,
    {
        let r = &rs[i];
        let ghost before = out@;
        assert(all.take(i + 1).drop_last() =~= all.take(i as int));
        assert(all.take(i + 1).last() == r.deep_view());
        out.append("    - \"");
        out.append(r.id.as_str());
        out.append("\" [priority ");
        let p = text::decimal_signed(r.priority as i64);
        out.append(p.as_str());
        out.append("]  rejected: ");
        out.append(r.reason.as_str());
        out.append("\n");
        assert(out@ =~= before + rejected_line(r.deep_view()));
        assert(out@ =~= head + rejected_lines(all.take(i + 1)));
        i = i + 1;
    }
    assert(all.take(i as int) =~= all);
}

fn no_match_text(rs: &Vec<RejectedRoute>) -> (r: String)
    ensures
        r@ == no_match_lines(rs.deep_view()),
{
    let n = text::decimal(rs.len() as u64);
    let mut out = "No route matched.\n  Evaluated ".to_owned();
    out.append(n.as_str());
    out.append(" route(s):\n");
    push_rejected(&mut out, rs);
    out.append("  (note: listener-scoped default routes are not evaluated by explain)\n");
    out
}

impl ExplainReport {
    /// The report as text.
    pub fn render_text(&self) -> (r: String)
        ensures
            r@ == report_text(*self),
    {
        let body = match &self.matched {
            Some(m) => matched_text(m),
            None => no_match_text(&self.rejected),
        };
        let mut out = "Request: ".to_owned();
        out.append(self.request.method.as_str());
        out.append(" ");
        out.append(self.request.path.as_str());
        out.append("  (host: ");
        out.append(self.request.host.as_str());
        out.append(")\n\n");
        out.append(body.as_str());
        out
    }
}

// ---------------------------------------------------------------------------
// Laws
// ---------------------------------------------------------------------------

/// A request is explained with its path up to the first `?` and with the parameters that
/// `&` separates behind it.
pub proof fn request_is_explained_without_its_query(
    r: ExplainRequest,
    path: Seq<char>,
    pairs: Seq<Seq<char>>,
)
    requires
        !path.contains('?'),
        pairs.len() > 0,
        forall|i: int| 0 <= i < pairs.len() ==> !(#[trigger] pairs[i]).contains('&'),
        r.path@ == path + seq!['?'] + text::join(pairs, seq!['&']),
    ensures
        explained(r).path == path,
        explained(r).query == request::params_of(pairs),
        explained(r).method == r.method@,
        explained(r).host == r.host@,
        explained(r).headers == r.headers.deep_view(),
{
    let b = text::join(pairs, seq!['&']);
    let s = r.path@;
    text::lemma_find_from(s, '?', 0);
    let k = text::find_char(s, '?');
    assert(s[path.len() as int] == '?');
    if k < path.len() {
        assert(path[k] == '?');
    }
    assert(s.take(path.len() as int) =~= path);
    assert(s.skip((path.len() + 1) as int) =~= b);
    text::lemma_split_join(pairs, '&');
}

/// The rejected routes are all that do not match, in evaluation order, each with its
/// identifier, its priority and the reason.
pub proof fn all_others_are_rejected(table: Seq<RouteConfig>, q: Request)
    ensures
        rejections(table, q) == table.filter(
            |r: RouteConfig| !matching::route_matches(r, q),
        ).map_values(
            |r: RouteConfig|
                (r.id@, r.priority.weight, matching::reject_reason(r.matches@, q)->0),
        ),
    decreases table.len(),
{
    reveal(Seq::filter);
    let p = |r: RouteConfig| !matching::route_matches(r, q);
    let f = |r: RouteConfig|
        (r.id@, r.priority.weight, matching::reject_reason(r.matches@, q)->0);
    if table.len() > 0 {
        let init = table.drop_last();
        all_others_are_rejected(init, q);
        matching::reason_iff_no_match(table.last().matches@, q);
        let rest = init.filter(p);
        assert(rest.push(table.last()).map_values(f) =~= rest.map_values(f).push(f(table.last())));
    } else {
        assert(table.filter(p).map_values(f) =~= Seq::empty());
    }
}

/// The winner beats all others that match, in evaluation order; each is named with its
/// identifier and its priority.
pub proof fn winner_beats_the_rest(table: Seq<RouteConfig>, q: Request, win: int)
    requires
        0 <= win < table.len(),
    ensures
        losers(table, q, win) == (table.take(win) + table.skip(win + 1)).filter(
            |r: RouteConfig| matching::route_matches(r, q),
        ).map_values(|r: RouteConfig| (r.id@, r.priority.weight)),
{
    lemma_losers(table, table.len() as int, q, win);
    assert(table.take(table.len() as int) =~= table);
}

proof fn lemma_losers(table: Seq<RouteConfig>, n: int, q: Request, win: int)
    requires
        0 <= n <= table.len(),
        0 <= win < table.len(),
    ensures
        n <= win ==> losers(table.take(n), q, win) == table.take(n).filter(
            |r: RouteConfig| matching::route_matches(r, q),
        ).map_values(|r: RouteConfig| (r.id@, r.priority.weight)),
        n > win ==> losers(table.take(n), q, win) == (table.take(win) + table.subrange(
            win + 1,
            n,
        )).filter(|r: RouteConfig| matching::route_matches(r, q)).map_values(
            |r: RouteConfig| (r.id@, r.priority.weight),
        ),
    decreases n,
{
    let p = |r: RouteConfig| matching::route_matches(r, q);
    let f = |r: RouteConfig| (r.id@, r.priority.weight);
    reveal(Seq::filter);
    if n > 0 {
        lemma_losers(table, n - 1, q, win);
        let part = table.take(n);
        let r = table[n - 1];
        assert(part.drop_last() =~= table.take(n - 1));
        assert(part.last() == r);
        if n <= win {
            let rest = table.take(n - 1).filter(p);
            assert(rest.push(r).map_values(f) =~= rest.map_values(f).push(f(r)));
        } else if n - 1 == win {
            assert(table.take(win) + table.subrange(win + 1, n) =~= table.take(n - 1));
        } else {
            let whole = table.take(win) + table.subrange(win + 1, n);
            let rest = (table.take(win) + table.subrange(win + 1, n - 1)).filter(p);
            assert(whole.drop_last() =~= table.take(win) + table.subrange(win + 1, n - 1));
            assert(whole.last() == r);
            assert(rest.push(r).map_values(f) =~= rest.map_values(f).push(f(r)));
        }
    } else {
        assert(table.take(0) =~= Seq::empty());
        assert(table.take(0).filter(p).map_values(f) =~= Seq::empty());
    }
}

/// A filter of the chain is described as it is defined; one that is not defined is called
/// so.
pub proof fn chain_is_described(filters: Seq<(Seq<char>, FilterConfig)>, ids: Seq<Seq<char>>, i: int)
    requires
        0 <= i < ids.len(),
    ensures
        steps_of(filters, ids).len() == ids.len(),
        steps_of(filters, ids)[i].id == ids[i],
        steps_of(filters, ids)[i].undefined <==> strmap::get(filters, ids[i]) is None,
        strmap::get(filters, ids[i]) matches Some(f) ==> {
            let s = steps_of(filters, ids)[i];
            &&& s.kind == config::filter_kind(f)
            &&& s.is_agent <==> f.filter is Agent
            &&& config::filter_phase(f) is Request ==> s.phase == "request"@
            &&& config::filter_phase(f) is Response ==> s.phase == "response"@
            &&& config::filter_phase(f) is Both ==> s.phase == "both"@
        },
        strmap::get(filters, ids[i]) is None ==> !steps_of(filters, ids)[i].is_agent && steps_of(
            filters,
            ids,
        )[i].kind == "?"@ && steps_of(filters, ids)[i].phase == "?"@,
{
}

/// The report on a winner says what the first route of that identifier says: its filters,
/// its firewall, its timeout, what a failure means and its upstream, next to the timeouts
/// of the listeners.
pub proof fn winner_is_described(
    m: MatchedRoute,
    c: Config,
    table: Seq<RouteConfig>,
    w: int,
    q: Request,
    k: int,
)
    requires
        0 <= w < table.len(),
        matched_route_of(m, c, table, w, q),
        0 <= k < c.routes@.len(),
        c.routes@[k].id@ == table[w].id@,
        forall|j: int| 0 <= j < k ==> (#[trigger] c.routes@[j]).id@ != table[w].id@,
    ensures
        m.id@ == table[w].id@,
        m.priority == table[w].priority.weight,
        m.waf_enabled == c.routes@[k].waf_enabled,
        m.timeout.route_override_secs == c.routes@[k].policies.timeout_secs,
        m.timeout.listener_defaults@.len() == c.listeners@.len(),
        forall|i: int|
            0 <= i < c.listeners@.len() ==> m.timeout.listener_defaults.deep_view()[i] == (
                (#[trigger] c.listeners@[i]).id@,
                c.listeners@[i].request_timeout_secs,
            ),
        c.routes@[k].policies.failure_mode is Open ==> m.failure_mode@ == "open"@,
        c.routes@[k].policies.failure_mode is Closed ==> m.failure_mode@ == "closed"@,
        m.filters.deep_view() == steps_of(
            c.filters.deep_view(),
            c.routes@[k].filters.deep_view(),
        ),
        m.upstream is Some <==> c.routes@[k].upstream is Some,
        c.routes@[k].upstream matches Some(name) ==> m.upstream->0.name@ == name@ && (
        m.upstream->0.defined <==> strmap::get(c.upstreams.deep_view(), name@) is Some) && (
        strmap::get(c.upstreams.deep_view(), name@) matches Some(u) ==> {
            let i = m.upstream->0;
            &&& i.load_balancing is Some && i.load_balancing->0@ == config::balancing_name(
                u.load_balancing,
            )
            &&& i.target_count is Some && i.target_count->0 == u.targets@.len()
            &&& i.proxy_protocol is Some <==> u.proxy_protocol is Some
            &&& u.proxy_protocol matches Some(v) ==> v is V1 ==> i.proxy_protocol->0@ == "v1"@
            &&& u.proxy_protocol matches Some(v) ==> v is V2 ==> i.proxy_protocol->0@ == "v2"@
            &&& i.profile is Some <==> u.profile is Some
            &&& u.profile matches Some(p) ==> i.profile->0@ == p.name@
        }),
{
    matching::lemma_find_id(c.routes@, table[w].id@, 0);
    let f = matching::find_id(c.routes@, table[w].id@, 0);
    assert(f == k) by {
        if f < k {
            assert(c.routes@[f].id@ != table[w].id@);
        }
        if k < f {
            assert(c.routes@[k].id@ != table[w].id@);
        }
    }
    assert(m.timeout.listener_defaults.deep_view().len() == c.listeners@.len());
    assert(m.timeout.listener_defaults.deep_view().len() == m.timeout.listener_defaults@.len());
}

/// A report has a winner exactly if some route matches: the first in evaluation order. It
/// says that nothing matches exactly if it has none.
pub proof fn report_has_the_first_match(rep: ExplainReport, c: Config, r: ExplainRequest)
    requires
        report_of(rep, c, r),
    ensures
        rep.no_match <==> rep.matched is None,
        rep.matched is Some <==> exists|i: int|
            0 <= i < c.routes@.len() && matching::route_matches(
                #[trigger] matching::ranked(c.routes@)[i],
                explained(r),
            ),
        rep.matched matches Some(m) ==> exists|i: int|
            0 <= i < c.routes@.len() && matching::route_matches(
                #[trigger] matching::ranked(c.routes@)[i],
                explained(r),
            ) && m.id@ == matching::ranked(c.routes@)[i].id@ && (forall|j: int|
                0 <= j < i ==> !matching::route_matches(
                    #[trigger] matching::ranked(c.routes@)[j],
                    explained(r),
                )),
        rep.request.method@ == r.method@,
        rep.request.path@ == r.path@,
        rep.request.host@ == r.host@,
{
    let table = matching::ranked(c.routes@);
    let q = explained(r);
    matching::ranked_keeps_routes(c.routes@);
    matching::lemma_first_match(table, q, 0);
    assert(table.len() == c.routes@.len()) by {
        broadcast use vstd::seq_lib::group_to_multiset_ensures;

        assert(table.to_multiset().len() == table.len());
        assert(c.routes@.to_multiset().len() == c.routes@.len());
    }
    let k = matching::first_match(table, q, 0);
    if k < table.len() {
        assert(matching::route_matches(table[k], q));
    }
}

/// The effective timeout is the route's, where it has one, else that of the listener.
pub proof fn timeout_in_words(t: TimeoutInfo)
    ensures
        t.route_override_secs matches Some(secs) ==> timeout_line(t) == "  Effective timeout: "@
            + text::digits(secs as nat) + "s  (route override)\n"@,
        t.route_override_secs is None && t.listener_defaults@.len() == 0 ==> timeout_line(t)
            == "  Effective timeout: per-listener request-timeout — "@
            + "(no listeners configured)"@ + "\n"@,
        t.route_override_secs is None && t.listener_defaults@.len() > 0 ==> timeout_line(t)
            == "  Effective timeout: per-listener request-timeout — "@ + text::join(
            t.listener_defaults.deep_view().map_values(
                |l: (Seq<char>, u64)| l.0 + "="@ + text::digits(l.1 as nat) + "s"@,
            ),
            ", "@,
        ) + "\n"@,
{
    let a = t.listener_defaults.deep_view().map_values(|l: (Seq<char>, u64)| timeout_word(l));
    let b = t.listener_defaults.deep_view().map_values(
        |l: (Seq<char>, u64)| l.0 + "="@ + text::digits(l.1 as nat) + "s"@,
    );
    assert(a =~= b);
}

/// The text of a report says whether the firewall is on, what a failure means and where
/// the request goes, and names what is not defined.
pub proof fn report_in_words(m: MatchedRoute, u: UpstreamInfo, n: nat, s: Step)
    ensures
        matched_lines(m) == "Matched route: \""@ + m.id@ + "\"  [priority "@ + text::int_text(
            m.priority as int,
        ) + ", specificity "@ + text::digits(m.specificity as nat) + "]\n"@ + beat_line(
            m.beat.deep_view(),
        ) + chain_lines(m.filters.deep_view()) + (if m.waf_enabled {
            "  WAF: enabled (waf-enabled shorthand)\n"@
        } else {
            "  WAF: disabled\n"@
        }) + timeout_line(m.timeout) + "  Failure mode: "@ + m.failure_mode@ + "\n"@
            + upstream_lines(m.upstream),
        beat_line(Seq::empty()) == "  Beat: (no other route matched)\n"@,
        chain_lines(Seq::empty()) == "  Filters: (none)\n"@,
        upstream_lines(None) == "  Upstream: (none — static or built-in handler)\n"@,
        !u.defined ==> upstream_lines(Some(u)) == "  Upstream: \""@ + u.name@
            + "\"  UNDEFINED (not in upstreams block)\n"@,
        s.undefined ==> step_line(n, s) == "    "@ + text::digits(n) + ". "@ + (s.id
            + "  UNDEFINED (not in filters block; skipped at runtime)\n"@),
        proxy_line(None) == ""@,
        profile_line(None, Seq::empty()) == ""@,
{
}

/// A text is filled up with spaces behind it, and never cut.
pub proof fn padding_stands_behind(s: Seq<char>, width: int)
    ensures
        s.len() >= width ==> padded(s, width) == s,
        s.len() < width ==> padded(s, width).len() == width && padded(s, width).take(
            s.len() as int,
        ) == s && forall|i: int| s.len() <= i < width ==> #[trigger] padded(s, width)[i] == ' ',
{
    lemma_spaces(width - s.len());
    if s.len() >= width {
        assert(padded(s, width) =~= s);
    } else {
        assert(padded(s, width).take(s.len() as int) =~= s);
    }
}

proof fn lemma_spaces(n: int)
    ensures
        spaces(n).len() == (if n <= 0 {
            0
        } else {
            n
        }),
        forall|i: int| 0 <= i < spaces(n).len() ==> #[trigger] spaces(n)[i] == ' ',
    decreases n,
{
    if n > 0 {
        lemma_spaces(n - 1);
    }
}

/// The text of a report that has no winner counts the routes that were tried and lists
/// each with its priority and the reason.
pub proof fn rejections_in_words(rs: Seq<(Seq<char>, i32, Seq<char>)>, r: (Seq<char>, i32, Seq<char>))
    ensures
        no_match_lines(rs) == "No route matched.\n  Evaluated "@ + text::digits(rs.len())
            + " route(s):\n"@ + rejected_lines(rs)
            + "  (note: listener-scoped default routes are not evaluated by explain)\n"@,
        rejected_lines(rs.push(r)) == rejected_lines(rs) + ("    - \""@ + r.0 + "\" [priority "@
            + text::int_text(r.1 as int) + "]  rejected: "@ + r.2 + "\n"@),
        rejected_lines(Seq::empty()) == Seq::<char>::empty(),
{
    assert(rs.push(r).drop_last() =~= rs);
}

} // verus!
