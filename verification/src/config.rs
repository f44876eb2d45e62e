//! Routes, upstreams, filters and agents: what the decision core reads of a
//! configuration.

use crate::profiles::AppliedProfile;
use crate::server::{ListenerConfig, ServerConfig};
use crate::strmap::StringMap;
use crate::text;
use vstd::prelude::*;
use vstd::string::*;

verus! {

/// Evaluation weight of a route: higher is evaluated first.
#[derive(Debug, Clone, Copy, PartialEq, Eq, Structural, PartialOrd, Ord)]
pub struct Priority {
    /// The weight.
    pub weight: i32,
}

impl Priority {
    /// Below the default.
    pub fn low() -> (r: Priority)
        ensures
            r.weight == 10,
    {
        Priority { weight: 10 }
    }

    /// The default.
    pub fn normal() -> (r: Priority)
        ensures
            r.weight == 50,
    {
        Priority { weight: 50 }
    }

    /// Above the default.
    pub fn high() -> (r: Priority)
        ensures
            r.weight == 100,
    {
        Priority { weight: 100 }
    }

    /// The weight.
    pub fn as_i32(&self) -> (r: i32)
        ensures
            r == self.weight,
    {
        self.weight
    }

    /// The weight in decimal form.
    pub fn text(&self) -> (r: String)
        ensures
            r@ == text::int_text(self.weight as int),
    {
        text::decimal_signed(self.weight as i64)
    }
}

/// What happens to a request when a dependency fails.
#[derive(Debug, Clone, Copy, PartialEq, Eq, Structural)]
pub enum FailureMode {
    /// Let the request pass.
    Open,
    /// Refuse the request.
    Closed,
}

/// The word for a failure mode.
pub open spec fn failure_mode_name(m: FailureMode) -> Seq<char> {
    match m {
        FailureMode::Open => "open"@,
        FailureMode::Closed => "closed"@,
    }
}

impl FailureMode {
    /// The word for reports.
    pub fn name(&self) -> (r: &'static str)
        ensures
            r@ == failure_mode_name(*self),
    {
        match self {
            FailureMode::Open => "open",
            FailureMode::Closed => "closed",
        }
    }
}

impl Default for FailureMode {
    fn default() -> (r: FailureMode)
        ensures
            r == FailureMode::Closed,
    {
        FailureMode::Closed
    }
}

/// A condition on a request.
#[derive(Debug, PartialEq, Eq)]
pub enum MatchCondition {
    /// Exact path.
    Path(String),
    /// Path prefix, at a segment boundary.
    PathPrefix(String),
    /// Regular expression on the path.
    PathRegex(String),
    /// Host, exact or with a wildcard.
    Host(String),
    /// Header presence or value.
    Header {
        /// Header name.
        name: String,
        /// Required value; `None` for presence.
        value: Option<String>,
    },
    /// One of several methods.
    Method(Vec<String>),
    /// Query parameter presence or value.
    QueryParam {
        /// Parameter name.
        name: String,
        /// Required value; `None` for presence.
        value: Option<String>,
    },
}

/// What serves a route.
#[derive(Debug, Clone, Copy, PartialEq, Eq, Structural)]
pub enum ServiceType {
    /// A web upstream.
    Web,
    /// An API upstream.
    Api,
    /// Files on disk.
    Static,
    /// A handler inside the proxy.
    Builtin,
}

/// Header modifications of a route.
#[derive(Debug)]
pub struct HeaderModifications {
    /// Headers to replace.
    pub set: StringMap<String>,
    /// Headers to add.
    pub add: StringMap<String>,
}

impl Default for HeaderModifications {
    fn default() -> (r: HeaderModifications)
        ensures
            r.set.deep_view().len() == 0,
            r.add.deep_view().len() == 0,
    {
        HeaderModifications { set: StringMap::new(), add: StringMap::new() }
    }
}

/// Policies of a route.
#[derive(Debug)]
pub struct RoutePolicies {
    /// Timeout override in seconds.
    pub timeout_secs: Option<u64>,
    /// What happens when a dependency fails.
    pub failure_mode: FailureMode,
    /// Changes to the response headers.
    pub response_headers: HeaderModifications,
}

impl Default for RoutePolicies {
    fn default() -> (r: RoutePolicies)
        ensures
            r.timeout_secs is None,
            r.failure_mode == FailureMode::Closed,
            r.response_headers.set.deep_view().len() == 0,
            r.response_headers.add.deep_view().len() == 0,
    {
        RoutePolicies {
            timeout_secs: None,
            failure_mode: FailureMode::default(),
            response_headers: HeaderModifications::default(),
        }
    }
}

/// Retries of a route.
#[derive(Debug, Clone, Copy, PartialEq, Eq, Structural)]
pub struct RetryPolicy {
    /// Attempts in all.
    pub max_attempts: u32,
}

/// Mirroring of a route.
#[derive(Debug)]
pub struct ShadowConfig {
    /// Upstream that gets the mirrored requests.
    pub upstream: String,
}

/// A route.
#[derive(Debug)]
pub struct RouteConfig {
    /// Identifier.
    pub id: String,
    /// Evaluation weight.
    pub priority: Priority,
    /// Conditions on a request.
    pub matches: Vec<MatchCondition>,
    /// Upstream that serves the route.
    pub upstream: Option<String>,
    /// What serves the route.
    pub service_type: ServiceType,
    /// Policies.
    pub policies: RoutePolicies,
    /// Filter identifiers, in execution order.
    pub filters: Vec<String>,
    /// WAF shorthand.
    pub waf_enabled: bool,
    /// Retries.
    pub retry_policy: Option<RetryPolicy>,
    /// Mirroring.
    pub shadow: Option<ShadowConfig>,
}

/// Load balancing algorithm.
#[derive(Debug, Clone, Copy, PartialEq, Eq, Structural)]
pub enum LoadBalancingAlgorithm {
    /// One target after the other.
    RoundRobin,
    /// The target with the fewest connections.
    LeastConnections,
    /// A random target.
    Random,
    /// By client address.
    IpHash,
    /// By weight.
    Weighted,
    /// By consistent hash.
    ConsistentHash,
    /// The better of two random targets.
    PowerOfTwoChoices,
}

/// The name of an algorithm.
pub open spec fn balancing_name(a: LoadBalancingAlgorithm) -> Seq<char> {
    match a {
        LoadBalancingAlgorithm::RoundRobin => "RoundRobin"@,
        LoadBalancingAlgorithm::LeastConnections => "LeastConnections"@,
        LoadBalancingAlgorithm::Random => "Random"@,
        LoadBalancingAlgorithm::IpHash => "IpHash"@,
        LoadBalancingAlgorithm::Weighted => "Weighted"@,
        LoadBalancingAlgorithm::ConsistentHash => "ConsistentHash"@,
        LoadBalancingAlgorithm::PowerOfTwoChoices => "PowerOfTwoChoices"@,
    }
}

impl LoadBalancingAlgorithm {
    /// The name for reports.
    pub fn name(&self) -> (r: &'static str)
        ensures
            r@ == balancing_name(*self),
    {
        match self {
            LoadBalancingAlgorithm::RoundRobin => "RoundRobin",
            LoadBalancingAlgorithm::LeastConnections => "LeastConnections",
            LoadBalancingAlgorithm::Random => "Random",
            LoadBalancingAlgorithm::IpHash => "IpHash",
            LoadBalancingAlgorithm::Weighted => "Weighted",
            LoadBalancingAlgorithm::ConsistentHash => "ConsistentHash",
            LoadBalancingAlgorithm::PowerOfTwoChoices => "PowerOfTwoChoices",
        }
    }
}

/// A backend of an upstream.
#[derive(Debug)]
pub struct UpstreamTarget {
    /// Address of the backend.
    pub address: String,
    /// Weight for load balancing.
    pub weight: u32,
    /// Maximum concurrent requests.
    pub max_requests: Option<u32>,
    /// Free-form labels.
    pub metadata: StringMap<String>,
}

/// Health check of an upstream.
#[derive(Debug, Clone, Copy, PartialEq, Eq, Structural)]
pub struct HealthCheck {
    /// Interval in seconds.
    pub interval_secs: u64,
}

/// PROXY protocol version emitted to an upstream.
#[derive(Debug, Clone, Copy, PartialEq, Eq, Structural)]
pub enum ProxyProtocolVersion {
    /// Text format.
    V1,
    /// Binary format.
    V2,
}

/// An upstream.
#[derive(Debug)]
pub struct UpstreamConfig {
    /// Backends.
    pub targets: Vec<UpstreamTarget>,
    /// Load balancing.
    pub load_balancing: LoadBalancingAlgorithm,
    /// Health check.
    pub health_check: Option<HealthCheck>,
    /// PROXY protocol emission.
    pub proxy_protocol: Option<ProxyProtocolVersion>,
    /// Backend profile and what it contributed.
    pub profile: Option<AppliedProfile>,
}

impl DeepView for UpstreamConfig {
    type V = UpstreamConfig;

    open spec fn deep_view(&self) -> UpstreamConfig {
        *self
    }
}

/// When a filter runs.
#[derive(Debug, Clone, Copy, PartialEq, Eq, Structural)]
pub enum FilterPhase {
    /// On the request.
    Request,
    /// On the response.
    Response,
    /// On both.
    Both,
}

/// A filter that calls an agent.
#[derive(Debug)]
pub struct AgentFilter {
    /// Agent identifier.
    pub agent: String,
    /// When the filter runs; on the request unless set.
    pub phase: Option<FilterPhase>,
    /// What happens when the agent fails; inherited from the route unless set.
    pub failure_mode: Option<FailureMode>,
}

/// A filter that changes headers.
#[derive(Debug)]
pub struct HeadersFilter {
    /// Headers to replace.
    pub set: StringMap<String>,
    /// Headers to add.
    pub add: StringMap<String>,
}

impl Default for HeadersFilter {
    fn default() -> (r: HeadersFilter)
        ensures
            r.set.deep_view().len() == 0,
            r.add.deep_view().len() == 0,
    {
        HeadersFilter { set: StringMap::new(), add: StringMap::new() }
    }
}

/// What a filter does.
#[derive(Debug)]
pub enum Filter {
    /// Calls an agent.
    Agent(AgentFilter),
    /// Changes headers.
    Headers(HeadersFilter),
    /// Anything else: its type name and the phase it runs in.
    Other {
        /// Type name, e.g. `cors` or `rate-limit`.
        kind: String,
        /// When the filter runs.
        phase: FilterPhase,
    },
}

/// A filter definition.
#[derive(Debug)]
pub struct FilterConfig {
    /// Identifier.
    pub id: String,
    /// What the filter does.
    pub filter: Filter,
}

impl DeepView for FilterConfig {
    type V = FilterConfig;

    open spec fn deep_view(&self) -> FilterConfig {
        *self
    }
}

/// The type name of a filter.
pub open spec fn filter_kind(f: FilterConfig) -> Seq<char> {
    match f.filter {
        Filter::Agent(_) => "agent"@,
        Filter::Headers(_) => "headers"@,
        Filter::Other { kind, .. } => kind@,
    }
}

/// The phase a filter runs in.
pub open spec fn filter_phase(f: FilterConfig) -> FilterPhase {
    match f.filter {
        Filter::Agent(a) => match a.phase {
            Some(p) => p,
            None => FilterPhase::Request,
        },
        Filter::Headers(_) => FilterPhase::Both,
        Filter::Other { phase, .. } => phase,
    }
}

impl FilterConfig {
    /// A filter definition.
    pub fn new(id: &str, filter: Filter) -> (r: FilterConfig)
        ensures
            r.id@ == id@,
            r.filter == filter,
    {
        FilterConfig { id: id.to_owned(), filter }
    }

    /// The type name.
    pub fn filter_type(&self) -> (r: &str)
        ensures
            r@ == filter_kind(*self),
    {
        match &self.filter {
            Filter::Agent(_) => "agent",
            Filter::Headers(_) => "headers",
            Filter::Other { kind, .. } => kind.as_str(),
        }
    }

    /// The phase the filter runs in.
    pub fn phase(&self) -> (r: FilterPhase)
        ensures
            r == filter_phase(*self),
    {
        match &self.filter {
            Filter::Agent(a) => match a.phase {
                Some(p) => p,
                None => FilterPhase::Request,
            },
            Filter::Headers(_) => FilterPhase::Both,
            Filter::Other { phase, .. } => *phase,
        }
    }

    /// True for a filter that calls an agent.
    pub fn is_agent(&self) -> (r: bool)
        ensures
            r == (self.filter is Agent),
    {
        match &self.filter {
            Filter::Agent(_) => true,
            _ => false,
        }
    }
}

/// How an agent is reached.
#[derive(Debug)]
pub struct AgentTransport {
    /// Transport name, e.g. `unix` or `grpc`.
    pub kind: String,
    /// Path or address.
    pub endpoint: String,
}

/// An agent definition.
#[derive(Debug)]
pub struct AgentConfig {
    /// Identifier.
    pub id: String,
    /// Type name, e.g. `waf`.
    pub agent_type: String,
    /// How the agent is reached.
    pub transport: AgentTransport,
    /// What happens when the agent fails.
    pub failure_mode: FailureMode,
    /// Timeout in milliseconds.
    pub timeout_ms: u64,
}

/// Metrics settings.
#[derive(Debug, Clone, Copy, PartialEq, Eq, Structural)]
pub struct MetricsConfig {
    /// Export metrics.
    pub enabled: bool,
}

/// Access log settings.
#[derive(Debug, Clone, Copy, PartialEq, Eq, Structural)]
pub struct AccessLogConfig {
    /// Write the access log.
    pub enabled: bool,
}

/// Logging settings.
#[derive(Debug, Clone, Copy, PartialEq, Eq, Structural)]
pub struct LoggingConfig {
    /// Access log.
    pub access_log: Option<AccessLogConfig>,
}

/// Observability settings.
#[derive(Debug, Clone, Copy, PartialEq, Eq, Structural)]
pub struct ObservabilityConfig {
    /// Metrics.
    pub metrics: MetricsConfig,
    /// Logging.
    pub logging: LoggingConfig,
}

/// A configuration.
#[derive(Debug)]
pub struct Config {
    /// Server-wide settings.
    pub server: ServerConfig,
    /// Listeners.
    pub listeners: Vec<ListenerConfig>,
    /// Routes.
    pub routes: Vec<RouteConfig>,
    /// Upstreams by name.
    pub upstreams: StringMap<UpstreamConfig>,
    /// Filters by identifier.
    pub filters: StringMap<FilterConfig>,
    /// Agents.
    pub agents: Vec<AgentConfig>,
    /// Observability.
    pub observability: ObservabilityConfig,
}

// ---------------------------------------------------------------------------
// Laws
// ---------------------------------------------------------------------------

/// A filter runs when it says. One that calls an agent and does not say runs on the
/// request; one that changes headers runs on both.
pub proof fn filters_run_when_they_say(f: FilterConfig)
    ensures
        f.filter matches Filter::Agent(a) ==> filter_kind(f) == "agent"@ && (a.phase matches Some(
            p,
        ) ==> filter_phase(f) == p) && (a.phase is None ==> filter_phase(f) is Request),
        f.filter is Headers ==> filter_kind(f) == "headers"@ && filter_phase(f) is Both,
        f.filter matches Filter::Other { kind, phase } ==> filter_kind(f) == kind@ && filter_phase(
            f,
        ) == phase,
{
}

/// No two failure modes and no two algorithms share a name.
pub proof fn names_tell_settings_apart(
    x: FailureMode,
    y: FailureMode,
    a: LoadBalancingAlgorithm,
    b: LoadBalancingAlgorithm,
)
    ensures
        failure_mode_name(x) == failure_mode_name(y) ==> x == y,
        failure_mode_name(FailureMode::Open) == seq!['o', 'p', 'e', 'n'],
        balancing_name(a) == balancing_name(b) ==> a == b,
{
    reveal_strlit("open");
    reveal_strlit("closed");
    reveal_strlit("RoundRobin");
    reveal_strlit("LeastConnections");
    reveal_strlit("Random");
    reveal_strlit("IpHash");
    reveal_strlit("Weighted");
    reveal_strlit("ConsistentHash");
    reveal_strlit("PowerOfTwoChoices");
    assert("open"@ =~= seq!['o', 'p', 'e', 'n']);
    if balancing_name(a) == balancing_name(b) {
        assert(balancing_name(a).len() == balancing_name(b).len());
        assert(balancing_name(a)[0] == balancing_name(b)[0]);
    }
}

} // verus!
