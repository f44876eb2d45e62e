//! Best-practice checks over a configuration.

use crate::config::{
    Config, Filter, FilterConfig, HeaderModifications, RouteConfig, ServiceType, UpstreamConfig,
};
use crate::config;
use crate::server::ListenerConfig;
use crate::shadow;
use crate::strmap;
use crate::strmap::StringMap;
use crate::text;
use vstd::prelude::*;
use vstd::string::*;

verus! {

/// A recommendation.
#[derive(Debug, PartialEq, Eq)]
pub struct ValidationWarning {
    /// What is recommended, in words.
    pub message: String,
}

impl DeepView for ValidationWarning {
    type V = Seq<char>;

    open spec fn deep_view(&self) -> Seq<char> {
        self.message@
    }
}

impl ValidationWarning {
    /// A warning with a text.
    pub fn new(message: String) -> (r: ValidationWarning)
        ensures
            r.message@ == message@,
    {
        ValidationWarning { message }
    }
}

/// The outcome of a check.
#[derive(Debug, PartialEq, Eq)]
pub struct ValidationResult {
    /// Recommendations, in the order of the checks.
    pub warnings: Vec<ValidationWarning>,
}

impl View for ValidationResult {
    type V = Seq<Seq<char>>;

    open spec fn view(&self) -> Seq<Seq<char>> {
        self.warnings.deep_view()
    }
}

impl ValidationResult {
    /// Nothing to recommend.
    pub fn new() -> (r: ValidationResult)
        ensures
            r@ == Seq::<Seq<char>>::empty(),
    {
        let r = ValidationResult { warnings: Vec::new() };
        assert(r@ =~= Seq::<Seq<char>>::empty());
        r
    }

    /// Appends a warning.
    pub fn add_warning(&mut self, w: ValidationWarning)
        ensures
            final(self)@ == old(self)@.push(w.message@),
    {
        let ghost before = self@;
        let ghost t = w.message@;
        self.warnings.push(w);
        assert(self@ =~= before.push(t));
    }
}

// ---------------------------------------------------------------------------
// Routes
// ---------------------------------------------------------------------------

/// The route is served by an upstream.
pub open spec fn wants_upstream(r: RouteConfig) -> bool {
    r.service_type != ServiceType::Static && r.service_type != ServiceType::Builtin
}

/// A list with a text at its end if a condition holds.
pub open spec fn push_if(list: Seq<Seq<char>>, b: bool, t: Seq<char>) -> Seq<Seq<char>> {
    if b {
        list.push(t)
    } else {
        list
    }
}

/// `Route '<id>'` and a complaint.
pub open spec fn about_route(id: Seq<char>, complaint: Seq<char>) -> Seq<char> {
    "Route '"@ + id + complaint
}

/// What is missing on a route.
pub open spec fn route_warnings(before: Seq<Seq<char>>, r: RouteConfig) -> Seq<Seq<char>> {
    let a = push_if(
        before,
        r.retry_policy is None,
        about_route(r.id@, "' has no retry policy (recommended for production)"@),
    );
    let b = push_if(
        a,
        r.policies.timeout_secs is None,
        about_route(r.id@, "' has no timeout (recommended for production)"@),
    );
    push_if(
        b,
        r.upstream is None && wants_upstream(r),
        about_route(r.id@, "' has no upstream configured"@),
    )
}

/// [`route_warnings`] for each route.
pub open spec fn routes_warnings(
    before: Seq<Seq<char>>,
    routes: Seq<RouteConfig>,
) -> Seq<Seq<char>>
    decreases routes.len(),
{
    if routes.len() == 0 {
        before
    } else {
        route_warnings(routes_warnings(before, routes.drop_last()), routes.last())
    }
}

fn quoted(head: &str, name: &str, tail: &str) -> (r: String)
    ensures
        r@ == head@ + name@ + tail@,
{
    let mut out = head.to_owned();
    out.append(name);
    out.append(tail);
    out
}

fn warn(result: &mut ValidationResult, head: &str, name: &str, tail: &str)
    ensures
        final(result)@ == old(result)@.push(head@ + name@ + tail@),
{
    let m = quoted(head, name, tail);
    result.add_warning(ValidationWarning::new(m));
}

fn check_routes(config: &Config, result: &mut ValidationResult)
    ensures
        final(result)@ == routes_warnings(old(result)@, config.routes@),
{
    let ghost before = result@;
    let ghost all = config.routes@;
    let mut i: usize = 0;
    while i < config.routes.len()
        invariant
            i <= config.routes@.len(),
            all == config.routes@,
            result@ == routes_warnings(before, all.take(i as int)),
        decreases config.routes.len() - i,
    {
        let r = &config.routes[i];
        assert(all.take(i + 1).drop_last() =~= all.take(i as int));
        assert(all.take(i + 1).last() == *r);
        if r.retry_policy.is_none() {
            warn(
                result,
                "Route '",
                r.id.as_str(),
                "' has no retry policy (recommended for production)",
            );
        }
        if r.policies.timeout_secs.is_none() {
            warn(result, "Route '", r.id.as_str(), "' has no timeout (recommended for production)");
        }
        if r.upstream.is_none() && r.service_type != ServiceType::Static && r.service_type
            != ServiceType::Builtin {
            warn(result, "Route '", r.id.as_str(), "' has no upstream configured");
        }
        i = i + 1;
    }
    assert(all.take(i as int) =~= all);
}

// ---------------------------------------------------------------------------
// Upstreams
// ---------------------------------------------------------------------------

/// What is missing on an upstream.
pub open spec fn upstream_warnings(
    before: Seq<Seq<char>>,
    name: Seq<char>,
    u: UpstreamConfig,
) -> Seq<Seq<char>> {
    let a = push_if(
        before,
        u.health_check is None,
        "Upstream '"@ + name + "' has no health check (recommended for production)"@,
    );
    push_if(
        a,
        u.targets@.len() == 1 && u.health_check is None,
        "Upstream '"@ + name
            + "' has only one target and no health check (no failover possible)"@,
    )
}

/// [`upstream_warnings`] for each upstream.
pub open spec fn upstreams_warnings(
    before: Seq<Seq<char>>,
    upstreams: Seq<(Seq<char>, UpstreamConfig)>,
) -> Seq<Seq<char>>
    decreases upstreams.len(),
{
    if upstreams.len() == 0 {
        before
    } else {
        let u = upstreams.last();
        upstream_warnings(upstreams_warnings(before, upstreams.drop_last()), u.0, u.1)
    }
}

fn check_upstreams(config: &Config, result: &mut ValidationResult)
    ensures
        final(result)@ == upstreams_warnings(old(result)@, config.upstreams.deep_view()),
{
    let ghost before = result@;
    let ghost all = config.upstreams.deep_view();
    let n = config.upstreams.len();
    let mut i: usize = 0;
    while i < n
        invariant
            i <= n,
            n == all.len(),
            all == config.upstreams.deep_view(),
            result@ == upstreams_warnings(before, all.take(i as int)),
        decreases n - i,
    {
        let name = config.upstreams.key_at(i);
        let u = config.upstreams.value_at(i);
        assert(all.take(i + 1).drop_last() =~= all.take(i as int));
        assert(all.take(i + 1).last() == all[i as int]);
        if u.health_check.is_none() {
            warn(
                result,
                "Upstream '",
                name.as_str(),
                "' has no health check (recommended for production)",
            );
        }
        if u.targets.len() == 1 && u.health_check.is_none() {
            warn(
                result,
                "Upstream '",
                name.as_str(),
                "' has only one target and no health check (no failover possible)",
            );
        }
        i = i + 1;
    }
    assert(all.take(i as int) =~= all);
}

// ---------------------------------------------------------------------------
// Listeners
// ---------------------------------------------------------------------------

/// Index of the first block from `from` on that trusts a whole address family,
/// or the length.
pub open spec fn first_trust_all(blocks: Seq<Seq<char>>, from: int) -> int
    decreases blocks.len() - from,
{
    if from < 0 || from >= blocks.len() || blocks[from] == "0.0.0.0/0"@ || blocks[from] == "::/0"@ {
        from
    } else {
        first_trust_all(blocks, from + 1)
    }
}

/// The block by which a listener trusts a whole address family, if it does.
pub open spec fn trusts_all(l: ListenerConfig) -> Option<Seq<char>> {
    match l.proxy_protocol {
        Some(pp) => {
            let blocks = pp.trusted.deep_view();
            let k = first_trust_all(blocks, 0);
            if k < blocks.len() {
                Some(blocks[k])
            } else {
                None
            }
        },
        None => None,
    }
}

/// What is risky about a listener.
pub open spec fn listener_warnings(before: Seq<Seq<char>>, l: ListenerConfig) -> Seq<Seq<char>> {
    let a = push_if(
        before,
        ":80"@.is_suffix_of(l.address@) && l.tls is None,
        "Listener '"@ + l.address@
            + "' serves HTTP on port 80 without TLS (consider HTTPS redirect)"@,
    );
    match trusts_all(l) {
        Some(block) => a.push(
            "Listener '"@ + l.address@ + "' trusts PROXY protocol headers from "@ + block
                + ": any client that can reach it can spoof its address (only safe on isolated networks)"@,
        ),
        None => a,
    }
}

/// [`listener_warnings`] for each listener.
pub open spec fn listeners_warnings(
    before: Seq<Seq<char>>,
    listeners: Seq<ListenerConfig>,
) -> Seq<Seq<char>>
    decreases listeners.len(),
{
    if listeners.len() == 0 {
        before
    } else {
        listener_warnings(listeners_warnings(before, listeners.drop_last()), listeners.last())
    }
}

fn trust_all_block(l: &ListenerConfig) -> (r: Option<String>)
    ensures
        r.deep_view() == trusts_all(*l),
{
    match &l.proxy_protocol {
        Some(pp) => {
            let ghost blocks = pp.trusted.deep_view();
            let mut i: usize = 0;
            while i < pp.trusted.len()
                invariant
                    i <= pp.trusted@.len(),
                    blocks == pp.trusted.deep_view(),
                    blocks.len() == pp.trusted@.len(),
                    l.proxy_protocol == Some(*pp),
                    first_trust_all(blocks, 0) == first_trust_all(blocks, i as int),
                decreases pp.trusted.len() - i,
            {
                let b = &pp.trusted[i];
                assert(blocks[i as int] == b@);
                if text::same(b.as_str(), "0.0.0.0/0") || text::same(b.as_str(), "::/0") {
                    return Some(b.clone());
                }
                i = i + 1;
            }
            None
        },
        None => None,
    }
}

fn check_listeners(config: &Config, result: &mut ValidationResult)
    ensures
        final(result)@ == listeners_warnings(old(result)@, config.listeners@),
{
    let ghost before = result@;
    let ghost all = config.listeners@;
    let mut i: usize = 0;
    while i < config.listeners.len()
        invariant
            i <= config.listeners@.len(),
            all == config.listeners@,
            result@ == listeners_warnings(before, all.take(i as int)),
        decreases config.listeners.len() - i,
    {
        let l = &config.listeners[i];
        assert(all.take(i + 1).drop_last() =~= all.take(i as int));
        assert(all.take(i + 1).last() == *l);
        if text::ends_with(l.address.as_str(), ":80") && l.tls.is_none() {
            warn(
                result,
                "Listener '",
                l.address.as_str(),
                "' serves HTTP on port 80 without TLS (consider HTTPS redirect)",
            );
        }
        match trust_all_block(l) {
            Some(block) => {
                let mut m = quoted(
                    "Listener '",
                    l.address.as_str(),
                    "' trusts PROXY protocol headers from ",
                );
                m.append(block.as_str());
                m.append(
                    ": any client that can reach it can spoof its address (only safe on isolated networks)",
                );
                result.add_warning(ValidationWarning::new(m));
            },
            None => {},
        }
        i = i + 1;
    }
    assert(all.take(i as int) =~= all);
}

// ---------------------------------------------------------------------------
// HSTS
// ---------------------------------------------------------------------------

/// Header that pins clients to TLS; its name is compared without regard to case.
pub const HSTS_HEADER: &'static str = "Strict-Transport-Security";

/// Some header of the map pins clients to TLS.
pub open spec fn sets_hsts(headers: Seq<(Seq<char>, Seq<char>)>) -> bool {
    exists|i: int|
        0 <= i < headers.len() && text::eq_ignore_case(#[trigger] headers[i].0, HSTS_HEADER@)
}

/// The response headers of a route pin clients to TLS.
pub open spec fn modifications_set_hsts(m: HeaderModifications) -> bool {
    sets_hsts(m.set.deep_view()) || sets_hsts(m.add.deep_view())
}

/// The filter pins clients to TLS.
pub open spec fn filter_sets_hsts(f: FilterConfig) -> bool {
    f.filter matches Filter::Headers(h) && (sets_hsts(h.set.deep_view()) || sets_hsts(
        h.add.deep_view(),
    ))
}

/// Some listener serves TLS.
pub open spec fn has_tls(listeners: Seq<ListenerConfig>) -> bool {
    exists|i: int| 0 <= i < listeners.len() && (#[trigger] listeners[i]).tls is Some
}

/// Some route or filter pins clients to TLS.
pub open spec fn has_hsts(c: Config) -> bool {
    ||| exists|i: int|
        0 <= i < c.routes@.len() && modifications_set_hsts(
            (#[trigger] c.routes@[i]).policies.response_headers,
        )
    ||| exists|i: int|
        0 <= i < c.filters.deep_view().len() && filter_sets_hsts(
            (#[trigger] c.filters.deep_view()[i]).1,
        )
}

fn map_sets_hsts(m: &StringMap<String>) -> (r: bool)
    ensures
        r == sets_hsts(m.deep_view()),
{
    let n = m.len();
    let mut i: usize = 0;
    while i < n
        invariant
            i <= n,
            n == m.deep_view().len(),
            forall|k: int|
                0 <= k < i ==> !text::eq_ignore_case(
                    #[trigger] m.deep_view()[k].0,
                    HSTS_HEADER@,
                ),
        decreases n - i,
    {
        if text::same_ignore_case(m.key_at(i).as_str(), HSTS_HEADER) {
            return true;
        }
        i = i + 1;
    }
    false
}

fn any_tls(listeners: &Vec<ListenerConfig>) -> (r: bool)
    ensures
        r == has_tls(listeners@),
{
    let mut i: usize = 0;
    while i < listeners.len()
        invariant
            i <= listeners@.len(),
            forall|k: int| 0 <= k < i ==> (#[trigger] listeners@[k]).tls is None,
        decreases listeners.len() - i,
    {
        if listeners[i].tls.is_some() {
            return true;
        }
        i = i + 1;
    }
    false
}

fn any_hsts(config: &Config) -> (r: bool)
    ensures
        r == has_hsts(*config),
{
    let mut i: usize = 0;
    while i < config.routes.len()
        invariant
            i <= config.routes@.len(),
            forall|k: int|
                0 <= k < i ==> !modifications_set_hsts(
                    (#[trigger] config.routes@[k]).policies.response_headers,
                ),
        decreases config.routes.len() - i,
    {
        let h = &config.routes[i].policies.response_headers;
        if map_sets_hsts(&h.set) || map_sets_hsts(&h.add) {
            assert(modifications_set_hsts(config.routes@[i as int].policies.response_headers));
            return true;
        }
        i = i + 1;
    }
    let n = config.filters.len();
    let mut j: usize = 0;
    while j < n
        invariant
            j <= n,
            n == config.filters.deep_view().len(),
            forall|k: int|
                0 <= k < config.routes@.len() ==> !modifications_set_hsts(
                    (#[trigger] config.routes@[k]).policies.response_headers,
                ),
            forall|k: int|
                0 <= k < j ==> !filter_sets_hsts((#[trigger] config.filters.deep_view()[k]).1),
        decreases n - j,
    {
        let f = config.filters.value_at(j);
        match &f.filter {
            Filter::Headers(h) => {
                if map_sets_hsts(&h.set) || map_sets_hsts(&h.add) {
                    assert(filter_sets_hsts(config.filters.deep_view()[j as int].1));
                    return true;
                }
            },
            _ => {},
        }
        j = j + 1;
    }
    false
}

/// The recommendation to pin clients to TLS.
pub open spec fn hsts_warning() -> Seq<char> {
    "TLS is enabled but no HSTS (Strict-Transport-Security) header is configured. Consider adding HSTS to protect against protocol downgrade attacks and cookie hijacking. Recommended value: 'max-age=31536000; includeSubDomains'"@
}

// ---------------------------------------------------------------------------
// Unreachable routes
// ---------------------------------------------------------------------------

/// The warning for a shadowed route.
pub open spec fn unreachable_warning(lower: RouteConfig, higher: RouteConfig) -> Seq<char> {
    "Route '"@ + lower.id@ + "' (priority "@ + text::int_text(lower.priority.weight as int)
        + ") is unreachable: route '"@ + higher.id@ + "' (priority "@ + text::int_text(
        higher.priority.weight as int,
    ) + ") is evaluated first and matches every request '"@ + lower.id@ + "' would. Narrow '"@
        + higher.id@ + "' or raise the priority of '"@ + lower.id@ + "'."@
}

/// Warnings for the first `n` routes that are shadowed.
pub open spec fn unreachable_warnings(
    before: Seq<Seq<char>>,
    routes: Seq<RouteConfig>,
    n: int,
) -> Seq<Seq<char>>
    decreases n,
{
    if n <= 0 {
        before
    } else {
        let rest = unreachable_warnings(before, routes, n - 1);
        match shadow::shadower(routes, n - 1) {
            Some(h) => rest.push(unreachable_warning(routes[n - 1], routes[h])),
            None => rest,
        }
    }
}

fn check_unreachable_routes(config: &Config, result: &mut ValidationResult)
    ensures
        final(result)@ == unreachable_warnings(
            old(result)@,
            config.routes@,
            config.routes@.len() as int,
        ),
{
    let ghost before = result@;
    let mut i: usize = 0;
    while i < config.routes.len()
        invariant
            i <= config.routes@.len(),
            result@ == unreachable_warnings(before, config.routes@, i as int),
        decreases config.routes.len() - i,
    {
        match shadow::shadowing_route(&config.routes, i) {
            Some(h) => {
                let lower = &config.routes[i];
                let higher = &config.routes[h];
                let mut m = quoted("Route '", lower.id.as_str(), "' (priority ");
                let lp = lower.priority.text();
                m.append(lp.as_str());
                m.append(") is unreachable: route '");
                m.append(higher.id.as_str());
                m.append("' (priority ");
                let hp = higher.priority.text();
                m.append(hp.as_str());
                m.append(") is evaluated first and matches every request '");
                m.append(lower.id.as_str());
                m.append("' would. Narrow '");
                m.append(higher.id.as_str());
                m.append("' or raise the priority of '");
                m.append(lower.id.as_str());
                m.append("'.");
                assert(m@ == unreachable_warning(*lower, *higher));
                result.add_warning(ValidationWarning::new(m));
            },
            None => {},
        }
        i = i + 1;
    }
}

// ---------------------------------------------------------------------------
// Agent filters
// ---------------------------------------------------------------------------

/// The identifier names an agent filter without a failure mode.
pub open spec fn implied_policy(
    filters: Seq<(Seq<char>, FilterConfig)>,
    id: Seq<char>,
) -> bool {
    strmap::get(filters, id) matches Some(f) && (f.filter matches Filter::Agent(a)
        && a.failure_mode is None)
}

/// The warning for an agent filter without a failure mode.
pub open spec fn implied_policy_warning(id: Seq<char>, r: RouteConfig) -> Seq<char> {
    "Agent filter '"@ + id + "' on route '"@ + r.id@
        + "' has no explicit failure-mode; on agent failure it silently inherits the route's failure-mode ('"@
        + config::failure_mode_name(r.policies.failure_mode)
        + "'). Set failure-mode on the filter to make the policy explicit."@
}

/// Warnings for the first `n` filters of a route.
pub open spec fn filter_warnings(
    before: Seq<Seq<char>>,
    filters: Seq<(Seq<char>, FilterConfig)>,
    r: RouteConfig,
    n: int,
) -> Seq<Seq<char>>
    decreases n,
{
    if n <= 0 {
        before
    } else {
        push_if(
            filter_warnings(before, filters, r, n - 1),
            implied_policy(filters, r.filters@[n - 1]@),
            implied_policy_warning(r.filters@[n - 1]@, r),
        )
    }
}

/// [`filter_warnings`] for each route.
pub open spec fn filters_warnings(
    before: Seq<Seq<char>>,
    filters: Seq<(Seq<char>, FilterConfig)>,
    routes: Seq<RouteConfig>,
) -> Seq<Seq<char>>
    decreases routes.len(),
{
    if routes.len() == 0 {
        before
    } else {
        filter_warnings(
            filters_warnings(before, filters, routes.drop_last()),
            filters,
            routes.last(),
            routes.last().filters@.len() as int,
        )
    }
}

fn check_agent_filter_failure_modes(config: &Config, result: &mut ValidationResult)
    ensures
        final(result)@ == filters_warnings(
            old(result)@,
            config.filters.deep_view(),
            config.routes@,
        ),
{
    let ghost before = result@;
    let ghost all = config.routes@;
    let ghost filters = config.filters.deep_view();
    let mut i: usize = 0;
    while i < config.routes.len()
        invariant
            i <= config.routes@.len(),
            all == config.routes@,
            filters == config.filters.deep_view(),
            result@ == filters_warnings(before, filters, all.take(i as int)),
        decreases config.routes.len() - i,
    {
        let r = &config.routes[i];
        let ghost so_far = result@;
        assert(all.take(i + 1).drop_last() =~= all.take(i as int));
        assert(all.take(i + 1).last() == *r);
        let mut j: usize = 0;
        while j < r.filters.len()
            invariant
                j <= r.filters@.len(),
                filters == config.filters.deep_view(),
                result@ == filter_warnings(so_far, filters, *r, j as int),
            decreases r.filters.len() - j,
        {
            let id = &r.filters[j];
            let mut implied = false;
            match config.filters.get(id.as_str()) {
                Some(f) => match &f.filter {
                    Filter::Agent(a) => {
                        implied = a.failure_mode.is_none();
                    },
                    _ => {},
                },
                None => {},
            }
            assert(implied == implied_policy(filters, r.filters@[j as int]@));
            if implied {
                let mut m = quoted("Agent filter '", id.as_str(), "' on route '");
                m.append(r.id.as_str());
                m.append(
                    "' has no explicit failure-mode; on agent failure it silently inherits the route's failure-mode ('",
                );
                m.append(r.policies.failure_mode.name());
                m.append("'). Set failure-mode on the filter to make the policy explicit.");
                assert(m@ == implied_policy_warning(id@, *r));
                result.add_warning(ValidationWarning::new(m));
            }
            j = j + 1;
        }
        i = i + 1;
    }
    assert(all.take(i as int) =~= all);
}

// ---------------------------------------------------------------------------
// Shadow traffic
// ---------------------------------------------------------------------------

/// The upstream is the primary one of some route.
pub open spec fn is_primary(routes: Seq<RouteConfig>, upstream: Seq<char>) -> bool {
    exists|i: int|
        0 <= i < routes.len() && (#[trigger] routes[i]).upstream.deep_view() == Some(upstream)
}

/// The warning for traffic that is mirrored to a live upstream.
pub open spec fn mirror_warning(r: RouteConfig, upstream: Seq<char>) -> Seq<char> {
    let target = if r.upstream.deep_view() == Some(upstream) {
        "its own primary upstream"@
    } else {
        "upstream '"@ + upstream + "', which serves live traffic"@
    };
    "Route '"@ + r.id@ + "' mirrors shadow traffic to "@ + target
        + ". Mirrored requests will hit production; use a dedicated shadow upstream to avoid duplicate side effects."@
}

/// Warnings for the first `n` routes that mirror traffic to a live upstream.
pub open spec fn mirror_warnings(
    before: Seq<Seq<char>>,
    routes: Seq<RouteConfig>,
    n: int,
) -> Seq<Seq<char>>
    decreases n,
{
    if n <= 0 {
        before
    } else {
        let rest = mirror_warnings(before, routes, n - 1);
        match routes[n - 1].shadow {
            Some(s) => push_if(
                rest,
                is_primary(routes, s.upstream@),
                mirror_warning(routes[n - 1], s.upstream@),
            ),
            None => rest,
        }
    }
}

fn same_upstream(u: &Option<String>, name: &str) -> (r: bool)
    ensures
        r == (u.deep_view() == Some(name@)),
{
    match u {
        Some(s) => text::same(s.as_str(), name),
        None => false,
    }
}

fn serves_live(routes: &Vec<RouteConfig>, upstream: &str) -> (r: bool)
    ensures
        r == is_primary(routes@, upstream@),
{
    let mut i: usize = 0;
    while i < routes.len()
        invariant
            i <= routes@.len(),
            forall|k: int|
                0 <= k < i ==> (#[trigger] routes@[k]).upstream.deep_view() != Some(upstream@),
        decreases routes.len() - i,
    {
        if same_upstream(&routes[i].upstream, upstream) {
            return true;
        }
        i = i + 1;
    }
    false
}

fn check_shadow_upstreams(config: &Config, result: &mut ValidationResult)
    ensures
        final(result)@ == mirror_warnings(
            old(result)@,
            config.routes@,
            config.routes@.len() as int,
        ),
{
    let ghost before = result@;
    let mut i: usize = 0;
    while i < config.routes.len()
        invariant
            i <= config.routes@.len(),
            result@ == mirror_warnings(before, config.routes@, i as int),
        decreases config.routes.len() - i,
    {
        let r = &config.routes[i];
        match &r.shadow {
            Some(s) => {
                if serves_live(&config.routes, s.upstream.as_str()) {
                    let target = if same_upstream(&r.upstream, s.upstream.as_str()) {
                        "its own primary upstream".to_owned()
                    } else {
                        quoted("upstream '", s.upstream.as_str(), "', which serves live traffic")
                    };
                    let mut m = quoted("Route '", r.id.as_str(), "' mirrors shadow traffic to ");
                    m.append(target.as_str());
                    m.append(
                        ". Mirrored requests will hit production; use a dedicated shadow upstream to avoid duplicate side effects.",
                    );
                    assert(m@ == mirror_warning(*r, s.upstream@));
                    result.add_warning(ValidationWarning::new(m));
                }
            },
            None => {},
        }
        i = i + 1;
    }
}

// ---------------------------------------------------------------------------
// All checks
// ---------------------------------------------------------------------------

/// Everything the checks recommend, in order. Upstreams come in name order.
pub open spec fn warnings_of(c: Config) -> Seq<Seq<char>> {
    let a = routes_warnings(Seq::empty(), c.routes@);
    let b = upstreams_warnings(a, c.upstreams.deep_view());
    let d = listeners_warnings(b, c.listeners@);
    let e = push_if(d, has_tls(c.listeners@) && !has_hsts(c), hsts_warning());
    let f = push_if(
        e,
        !c.observability.metrics.enabled,
        "Metrics are disabled (recommended for production monitoring)"@,
    );
    let g = push_if(
        f,
        c.observability.logging.access_log matches Some(log) && !log.enabled,
        "Access logs are disabled (recommended for debugging and compliance)"@,
    );
    let h = unreachable_warnings(g, c.routes@, c.routes@.len() as int);
    let i = filters_warnings(h, c.filters.deep_view(), c.routes@);
    mirror_warnings(i, c.routes@, c.routes@.len() as int)
}

/// Checks a configuration for missing best practices.
pub fn lint_config(config: &Config) -> (r: ValidationResult)
    ensures
        r@ == warnings_of(*config),
{
    let mut result = ValidationResult::new();
    check_routes(config, &mut result);
    check_upstreams(config, &mut result);
    check_listeners(config, &mut result);
    if any_tls(&config.listeners) && !any_hsts(config) {
        result.add_warning(
            ValidationWarning::new(
                "TLS is enabled but no HSTS (Strict-Transport-Security) header is configured. Consider adding HSTS to protect against protocol downgrade attacks and cookie hijacking. Recommended value: 'max-age=31536000; includeSubDomains'".to_owned(),
            ),
        );
    }
    if !config.observability.metrics.enabled {
        result.add_warning(
            ValidationWarning::new(
                "Metrics are disabled (recommended for production monitoring)".to_owned(),
            ),
        );
    }
    if let Some(log) = &config.observability.logging.access_log {
        if !log.enabled {
            result.add_warning(
                ValidationWarning::new(
                    "Access logs are disabled (recommended for debugging and compliance)".to_owned(),
                ),
            );
        }
    }
    check_unreachable_routes(config, &mut result);
    check_agent_filter_failure_modes(config, &mut result);
    check_shadow_upstreams(config, &mut result);
    result
}

} // verus!
