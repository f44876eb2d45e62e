use zentinel::config::{
    AccessLogConfig, AgentFilter, Config, FailureMode, Filter, FilterConfig, HeadersFilter,
    LoadBalancingAlgorithm, LoggingConfig, MatchCondition, MetricsConfig, ObservabilityConfig,
    Priority, RouteConfig, RoutePolicies, ServiceType, ShadowConfig, UpstreamConfig,
    UpstreamTarget,
};
use zentinel::lint::lint_config;
use zentinel::server::{
    ListenerConfig, ListenerProtocol, ProxyProtocolConfig, ServerConfig, TlsConfig, TlsVersion,
    TraceIdFormat,
};
use zentinel::shadow::shadowing_route;
use zentinel::strmap::StringMap;

fn default_for_testing() -> Config {
    Config {
        server: ServerConfig {
            worker_threads: 0,
            max_connections: 10000,
            graceful_shutdown_timeout_secs: 30,
            daemon: false,
            pid_file: None,
            user: None,
            group: None,
            working_directory: None,
            trace_id_format: TraceIdFormat::TinyFlake,
            auto_reload: false,
            route_cache_size: 1000,
        },
        listeners: vec![],
        routes: vec![],
        upstreams: StringMap::new(),
        filters: StringMap::new(),
        agents: vec![],
        observability: ObservabilityConfig {
            metrics: MetricsConfig { enabled: true },
            logging: LoggingConfig {
                access_log: Some(AccessLogConfig { enabled: true }),
            },
        },
    }
}

fn test_route_config() -> RouteConfig {
    RouteConfig {
        id: "test".to_string(),
        priority: Priority::normal(),
        matches: vec![MatchCondition::PathPrefix("/".to_string())],
        upstream: None,
        service_type: ServiceType::Web,
        policies: RoutePolicies::default(),
        filters: vec![],
        waf_enabled: false,
        retry_policy: None,
        shadow: None,
    }
}

fn test_upstream_config() -> UpstreamConfig {
    UpstreamConfig {
        targets: vec![UpstreamTarget {
            address: "127.0.0.1:8080".to_string(),
            weight: 1,
            max_requests: None,
            metadata: StringMap::new(),
        }],
        load_balancing: LoadBalancingAlgorithm::RoundRobin,
        health_check: None,
        proxy_protocol: None,
        profile: None,
    }
}

fn test_listener_config(address: &str) -> ListenerConfig {
    ListenerConfig {
        id: "test".to_string(),
        address: address.to_string(),
        protocol: ListenerProtocol::Http,
        tls: None,
        default_route: None,
        namespace: None,
        request_timeout_secs: 60,
        keepalive_timeout_secs: 75,
        max_concurrent_streams: 100,
        keepalive_max_requests: None,
        proxy_protocol: None,
    }
}

fn test_tls_listener_config(address: &str) -> ListenerConfig {
    ListenerConfig {
        id: "tls-test".to_string(),
        address: address.to_string(),
        protocol: ListenerProtocol::Http,
        tls: Some(TlsConfig {
            cert_file: Some("/path/to/cert.pem".to_string()),
            key_file: Some("/path/to/key.pem".to_string()),
            combined_file: None,
            additional_certs: vec![],
            sni_cert_dirs: vec![],
            ca_file: None,
            min_version: TlsVersion::Tls12,
            max_version: None,
            cipher_suites: vec![],
            client_auth: false,
            ocsp_stapling: true,
            session_resumption: true,
            acme: None,
        }),
        default_route: None,
        namespace: None,
        request_timeout_secs: 60,
        keepalive_timeout_secs: 75,
        max_concurrent_streams: 100,
        keepalive_max_requests: None,
        proxy_protocol: None,
    }
}

#[test]
fn test_lint_missing_retry_policy() {
    let mut config = default_for_testing();
    config.routes = vec![test_route_config()];

    let result = lint_config(&config);

    assert!(result
        .warnings
        .iter()
        .any(|w| w.message.contains("no retry policy")));
}

#[test]
fn test_lint_missing_health_check() {
    let mut config = default_for_testing();
    config
        .upstreams
        .insert("test".to_string(), test_upstream_config());

    let result = lint_config(&config);

    assert!(result
        .warnings
        .iter()
        .any(|w| w.message.contains("no health check")));
}

#[test]
fn test_lint_http_on_port_80() {
    let mut config = default_for_testing();
    config.listeners = vec![test_listener_config("0.0.0.0:80")];

    let result = lint_config(&config);

    assert!(result
        .warnings
        .iter()
        .any(|w| w.message.contains("without TLS")));
}

#[test]
fn test_lint_tls_without_hsts() {
    let mut config = default_for_testing();
    config.listeners = vec![test_tls_listener_config("0.0.0.0:443")];

    let result = lint_config(&config);

    assert!(
        result
            .warnings
            .iter()
            .any(|w| w.message.contains("HSTS")
                && w.message.contains("Strict-Transport-Security"))
    );
}

#[test]
fn test_lint_tls_with_hsts_in_route_policies() {
    let mut config = default_for_testing();
    config.listeners = vec![test_tls_listener_config("0.0.0.0:443")];

    // Add route with HSTS header in response_headers
    let mut route = test_route_config();
    route.policies.response_headers.set.insert(
        "Strict-Transport-Security".to_string(),
        "max-age=31536000; includeSubDomains".to_string(),
    );
    config.routes = vec![route];

    let result = lint_config(&config);

    // Should NOT warn about HSTS since it's configured
    assert!(
        !result.warnings.iter().any(|w| w.message.contains("HSTS")),
        "Should not warn about HSTS when it's configured in route policies"
    );
}

#[test]
fn test_lint_tls_with_hsts_in_filter() {
    let mut config = default_for_testing();
    config.listeners = vec![test_tls_listener_config("0.0.0.0:443")];

    // Add headers filter with HSTS
    let mut headers_filter = HeadersFilter::default();
    headers_filter.set.insert(
        "Strict-Transport-Security".to_string(),
        "max-age=31536000".to_string(),
    );
    config.filters.insert(
        "hsts-filter".to_string(),
        FilterConfig::new("hsts-filter", Filter::Headers(headers_filter)),
    );

    let result = lint_config(&config);

    // Should NOT warn about HSTS since it's configured in filter
    assert!(
        !result.warnings.iter().any(|w| w.message.contains("HSTS")),
        "Should not warn about HSTS when it's configured in headers filter"
    );
}

#[test]
fn test_lint_hsts_case_insensitive() {
    let mut config = default_for_testing();
    config.listeners = vec![test_tls_listener_config("0.0.0.0:443")];

    // Add route with lowercase HSTS header
    let mut route = test_route_config();
    route.policies.response_headers.set.insert(
        "strict-transport-security".to_string(),
        "max-age=31536000".to_string(),
    );
    config.routes = vec![route];

    let result = lint_config(&config);

    // Should NOT warn about HSTS (case-insensitive match)
    assert!(
        !result.warnings.iter().any(|w| w.message.contains("HSTS")),
        "Should detect HSTS header with case-insensitive matching"
    );
}

#[test]
fn test_lint_no_hsts_warning_without_tls() {
    let mut config = default_for_testing();
    // Only HTTP listener, no TLS
    config.listeners = vec![test_listener_config("0.0.0.0:8080")];

    let result = lint_config(&config);

    // Should NOT warn about HSTS when there's no TLS listener
    assert!(
        !result.warnings.iter().any(|w| w.message.contains("HSTS")),
        "Should not warn about HSTS when there's no TLS listener"
    );
}

// ------------------------------------------------------------------
// Rule: unreachable route (shadowing)
// ------------------------------------------------------------------

fn route_with(id: &str, priority: Priority, matches: Vec<MatchCondition>) -> RouteConfig {
    let mut r = test_route_config();
    r.id = id.to_string();
    r.priority = priority;
    r.matches = matches;
    r.upstream = Some("backend".to_string());
    r
}

fn unreachable_warnings(config: &Config) -> Vec<String> {
    lint_config(config)
        .warnings
        .into_iter()
        .filter(|w| w.message.contains("is unreachable"))
        .map(|w| w.message)
        .collect()
}

#[test]
fn unreachable_high_priority_catchall_shadows_specific() {
    let mut config = default_for_testing();
    config.routes = vec![
        route_with(
            "catchall",
            Priority::high(),
            vec![MatchCondition::PathPrefix("/".into())],
        ),
        route_with(
            "specific",
            Priority::normal(),
            vec![MatchCondition::PathPrefix("/api/v1".into())],
        ),
    ];
    let warnings = unreachable_warnings(&config);
    assert_eq!(warnings.len(), 1);
    assert!(warnings[0].contains("'specific'"));
    assert!(warnings[0].contains("'catchall'"));
}

#[test]
fn unreachable_prefix_shadows_subprefix() {
    let mut config = default_for_testing();
    config.routes = vec![
        route_with(
            "api",
            Priority::high(),
            vec![MatchCondition::PathPrefix("/api".into())],
        ),
        route_with(
            "apiv1",
            Priority::normal(),
            vec![MatchCondition::PathPrefix("/api/v1".into())],
        ),
    ];
    assert_eq!(unreachable_warnings(&config).len(), 1);
}

#[test]
fn no_unreachable_when_prefix_not_at_boundary() {
    // "/api" must NOT generalize "/apix".
    let mut config = default_for_testing();
    config.routes = vec![
        route_with(
            "api",
            Priority::high(),
            vec![MatchCondition::PathPrefix("/api".into())],
        ),
        route_with(
            "apix",
            Priority::normal(),
            vec![MatchCondition::PathPrefix("/apix".into())],
        ),
    ];
    assert!(unreachable_warnings(&config).is_empty());
}

#[test]
fn no_unreachable_at_equal_priority() {
    let mut config = default_for_testing();
    config.routes = vec![
        route_with(
            "a",
            Priority::normal(),
            vec![MatchCondition::PathPrefix("/".into())],
        ),
        route_with(
            "b",
            Priority::normal(),
            vec![MatchCondition::PathPrefix("/api".into())],
        ),
    ];
    assert!(unreachable_warnings(&config).is_empty());
}

#[test]
fn no_unreachable_when_higher_restricts_method() {
    // Higher catch-all only matches GET; lower matches all methods.
    let mut config = default_for_testing();
    config.routes = vec![
        route_with(
            "get-only",
            Priority::high(),
            vec![
                MatchCondition::PathPrefix("/".into()),
                MatchCondition::Method(vec!["GET".into()]),
            ],
        ),
        route_with(
            "any",
            Priority::normal(),
            vec![MatchCondition::PathPrefix("/api".into())],
        ),
    ];
    assert!(unreachable_warnings(&config).is_empty());
}

#[test]
fn no_unreachable_when_higher_restricts_host() {
    let mut config = default_for_testing();
    config.routes = vec![
        route_with(
            "host-scoped",
            Priority::high(),
            vec![
                MatchCondition::PathPrefix("/".into()),
                MatchCondition::Host("a.example.com".into()),
            ],
        ),
        route_with(
            "any-host",
            Priority::normal(),
            vec![MatchCondition::PathPrefix("/api".into())],
        ),
    ];
    assert!(unreachable_warnings(&config).is_empty());
}

#[test]
fn no_unreachable_when_higher_uses_path_regex() {
    // A regex catch-all is treated as opaque (bail), so no false positive.
    let mut config = default_for_testing();
    config.routes = vec![
        route_with(
            "regex",
            Priority::high(),
            vec![MatchCondition::PathRegex(".*".into())],
        ),
        route_with(
            "specific",
            Priority::normal(),
            vec![MatchCondition::PathPrefix("/api".into())],
        ),
    ];
    assert!(unreachable_warnings(&config).is_empty());
}

#[test]
fn no_unreachable_when_higher_needs_header_lower_does_not() {
    let mut config = default_for_testing();
    config.routes = vec![
        route_with(
            "needs-header",
            Priority::high(),
            vec![
                MatchCondition::PathPrefix("/".into()),
                MatchCondition::Header {
                    name: "x-key".into(),
                    value: None,
                },
            ],
        ),
        route_with(
            "no-header",
            Priority::normal(),
            vec![MatchCondition::PathPrefix("/api".into())],
        ),
    ];
    assert!(unreachable_warnings(&config).is_empty());
}

#[test]
fn unreachable_host_wildcard_covers_exact() {
    // Higher "*.example.com" catch-all shadows lower "api.example.com".
    let mut config = default_for_testing();
    config.routes = vec![
        route_with(
            "wild",
            Priority::high(),
            vec![
                MatchCondition::PathPrefix("/".into()),
                MatchCondition::Host("*.example.com".into()),
            ],
        ),
        route_with(
            "exact",
            Priority::normal(),
            vec![
                MatchCondition::PathPrefix("/api".into()),
                MatchCondition::Host("api.example.com".into()),
            ],
        ),
    ];
    assert_eq!(unreachable_warnings(&config).len(), 1);
}

// ------------------------------------------------------------------
// Rule: agent filter without explicit failure-mode
// ------------------------------------------------------------------

fn agent_filter(id: &str, failure_mode: Option<FailureMode>) -> FilterConfig {
    FilterConfig {
        id: id.to_string(),
        filter: Filter::Agent(AgentFilter {
            agent: "myagent".to_string(),
            phase: None,
            failure_mode,
        }),
    }
}

#[test]
fn agent_filter_without_failure_mode_warns() {
    let mut config = default_for_testing();
    let mut route = route_with(
        "r",
        Priority::normal(),
        vec![MatchCondition::PathPrefix("/".into())],
    );
    route.filters = vec!["waf".to_string()];
    config.routes = vec![route];
    config
        .filters
        .insert("waf".to_string(), agent_filter("waf", None));

    let result = lint_config(&config);
    assert!(result
        .warnings
        .iter()
        .any(|w| w.message.contains("no explicit failure-mode")));
}

#[test]
fn agent_filter_with_failure_mode_no_warn() {
    let mut config = default_for_testing();
    let mut route = route_with(
        "r",
        Priority::normal(),
        vec![MatchCondition::PathPrefix("/".into())],
    );
    route.filters = vec!["waf".to_string()];
    config.routes = vec![route];
    config.filters.insert(
        "waf".to_string(),
        agent_filter("waf", Some(FailureMode::Closed)),
    );

    let result = lint_config(&config);
    assert!(!result
        .warnings
        .iter()
        .any(|w| w.message.contains("failure-mode")));
}

// ------------------------------------------------------------------
// Rule: shadow traffic to a production upstream
// ------------------------------------------------------------------

fn shadow_to(upstream: &str) -> ShadowConfig {
    ShadowConfig {
        upstream: upstream.to_string(),
    }
}

#[test]
fn shadow_to_production_upstream_warns() {
    let mut config = default_for_testing();
    let live = route_with(
        "live",
        Priority::normal(),
        vec![MatchCondition::PathPrefix("/live".into())],
    );
    let mut canary = route_with(
        "canary",
        Priority::normal(),
        vec![MatchCondition::PathPrefix("/canary".into())],
    );
    canary.shadow = Some(shadow_to("backend")); // "backend" is live's primary
    config.routes = vec![live, canary];

    let result = lint_config(&config);
    assert!(result
        .warnings
        .iter()
        .any(|w| w.message.contains("mirrors shadow traffic")));
}

#[test]
fn shadow_to_dedicated_upstream_no_warn() {
    let mut config = default_for_testing();
    let mut route = route_with(
        "r",
        Priority::normal(),
        vec![MatchCondition::PathPrefix("/".into())],
    );
    route.shadow = Some(shadow_to("shadow-pool")); // not any route's primary
    config.routes = vec![route];

    let result = lint_config(&config);
    assert!(!result
        .warnings
        .iter()
        .any(|w| w.message.contains("mirrors shadow traffic")));
}

#[test]
fn trusting_the_whole_internet_warns() {
    for block in ["0.0.0.0/0", "::/0"] {
        let mut config = default_for_testing();
        let mut l = test_listener_config("0.0.0.0:8080");
        l.proxy_protocol = Some(ProxyProtocolConfig {
            trusted: vec!["10.0.0.0/8".to_string(), block.to_string()],
            header_timeout_ms: 2000,
        });
        config.listeners = vec![l];
        assert!(
            lint_config(&config)
                .warnings
                .iter()
                .any(|w| w.message.contains(block)),
            "no warning for {block}"
        );
    }
}

#[test]
fn disabled_observability_warns() {
    let mut config = default_for_testing();
    config.observability.metrics.enabled = false;
    config.observability.logging.access_log = Some(AccessLogConfig { enabled: false });
    let result = lint_config(&config);
    assert!(result.warnings.iter().any(|w| w.message.contains("etrics")));
    assert!(result
        .warnings
        .iter()
        .any(|w| w.message.contains("Access logs are disabled")));
}

#[test]
fn shadowing_route_names_the_first_shadower() {
    let routes = vec![
        route_with(
            "low",
            Priority::normal(),
            vec![MatchCondition::PathPrefix("/api/v1".into())],
        ),
        route_with(
            "high",
            Priority::high(),
            vec![MatchCondition::PathPrefix("/api".into())],
        ),
    ];
    assert_eq!(shadowing_route(&routes, 0), Some(1));
    assert_eq!(shadowing_route(&routes, 1), None);
}

#[test]
fn header_names_shadow_beyond_ascii() {
    let by_header = |id: &str, priority: Priority, name: &str| {
        route_with(
            id,
            priority,
            vec![MatchCondition::Header {
                name: name.into(),
                value: None,
            }],
        )
    };
    let routes = vec![
        by_header("high", Priority::high(), "X-\u{e9}t\u{e9}"),
        by_header("low", Priority::normal(), "x-\u{e9}t\u{e9}"),
        by_header("other", Priority::normal(), "x-\u{e8}t\u{e9}"),
    ];
    assert_eq!(shadowing_route(&routes, 1), Some(0));
    assert_eq!(shadowing_route(&routes, 2), None);
}
