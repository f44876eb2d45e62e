use zentinel::apache::{parse_apache, Note, VirtualHost};
use zentinel::config::{
    AccessLogConfig, Config, FailureMode, Filter, FilterConfig, FilterPhase,
    LoadBalancingAlgorithm, LoggingConfig, MatchCondition, MetricsConfig, ObservabilityConfig,
    Priority, ProxyProtocolVersion, RouteConfig, RoutePolicies, ServiceType, UpstreamConfig,
    UpstreamTarget,
};
use zentinel::diff::{diff, ConfigDiff, Severity};
use zentinel::explain::{explain, ExplainRequest};
use zentinel::import::{emit_kdl, import_apache, MAX_INPUT_BYTES};
use zentinel::naming::{kdl_escape, sanitize_id, unique_id};
use zentinel::nodes::{KdlNode, KdlValue};
use zentinel::profiles::{AppliedProfile, BackendProfile, ProfileSetting};
use zentinel::settings::{parse_listeners, parse_server_config};
use zentinel::strmap::StringMap;

fn value(v: &kdl::KdlValue) -> KdlValue {
    if let Some(s) = v.as_string() {
        KdlValue::Text(s.to_string())
    } else if let Some(i) = v.as_integer() {
        KdlValue::Integer(i)
    } else if let Some(b) = v.as_bool() {
        KdlValue::Bool(b)
    } else {
        KdlValue::Other
    }
}

fn node(n: &kdl::KdlNode) -> KdlNode {
    KdlNode {
        name: n.name().value().to_string(),
        entries: n.entries().iter().map(|e| value(e.value())).collect(),
        children: match n.children() {
            Some(d) => d.nodes().iter().map(node).collect(),
            None => vec![],
        },
    }
}

fn document(text: &str) -> Vec<KdlNode> {
    let doc: kdl::KdlDocument = text.parse().unwrap();
    doc.nodes().iter().map(node).collect()
}

fn texts(n: &KdlNode) -> Vec<String> {
    n.entries
        .iter()
        .filter_map(|e| match e {
            KdlValue::Text(s) => Some(s.clone()),
            _ => None,
        })
        .collect()
}

fn integer(n: &KdlNode) -> Option<i128> {
    n.entries.iter().find_map(|e| match e {
        KdlValue::Integer(i) => Some(*i),
        _ => None,
    })
}

fn condition(n: &KdlNode) -> MatchCondition {
    let args = texts(n);
    match n.name.as_str() {
        "path" => MatchCondition::Path(args[0].clone()),
        "path-prefix" => MatchCondition::PathPrefix(args[0].clone()),
        "host" => MatchCondition::Host(args[0].clone()),
        "method" => MatchCondition::Method(args),
        "query-param" => MatchCondition::QueryParam {
            name: args[0].clone(),
            value: args.get(1).cloned(),
        },
        other => panic!("unknown condition {other}"),
    }
}

fn route(n: &KdlNode) -> RouteConfig {
    let priority = match n.child("priority") {
        None => Priority::normal(),
        Some(p) => match (texts(p).first().map(String::as_str), integer(p)) {
            (Some("high"), _) => Priority::high(),
            (Some("low"), _) => Priority::low(),
            (Some("normal"), _) => Priority::normal(),
            (_, Some(i)) => Priority { weight: i as i32 },
            other => panic!("unknown priority {other:?}"),
        },
    };
    let mut policies = RoutePolicies::default();
    if let Some(p) = n.child("policies") {
        policies.timeout_secs = p.int_entry("timeout-secs").map(|t| t as u64);
        policies.failure_mode = match p.string_entry("failure-mode").as_deref() {
            Some("open") => FailureMode::Open,
            _ => FailureMode::Closed,
        };
    }
    RouteConfig {
        id: n.first_arg_string().unwrap(),
        priority,
        matches: match n.child("matches") {
            Some(m) => m.children.iter().map(condition).collect(),
            None => vec![],
        },
        upstream: n.string_entry("upstream"),
        service_type: ServiceType::Web,
        policies,
        filters: n.child("filters").map(texts).unwrap_or_default(),
        waf_enabled: false,
        retry_policy: None,
        shadow: None,
    }
}

fn applied(name: &str, n: &KdlNode) -> AppliedProfile {
    let p = BackendProfile::find(name).unwrap();
    let given = |block: &str, field: &str| {
        n.child(block).map_or(false, |b| b.child(field).is_some())
    };
    let mut settings = vec![];
    for (block, field, value) in [
        ("timeouts", "connect", format!("{}s", p.connect_secs)),
        ("timeouts", "request", format!("{}s", p.request_secs)),
        ("timeouts", "read", format!("{}s", p.read_secs)),
        ("timeouts", "write", format!("{}s", p.write_secs)),
        ("connection-pool", "max-connections", p.max_connections.to_string()),
        ("connection-pool", "max-idle", p.max_idle.to_string()),
        ("connection-pool", "idle-timeout", format!("{}s", p.idle_timeout_secs)),
    ] {
        if !given(block, field) {
            settings.push(ProfileSetting::new(&format!("{block}.{field}"), &value));
        }
    }
    AppliedProfile {
        name: name.to_string(),
        settings,
    }
}

fn upstream(n: &KdlNode) -> UpstreamConfig {
    let mut targets = vec![];
    for c in &n.children {
        let address = match c.name.as_str() {
            "target" => c.first_arg_string(),
            "targets" => None,
            _ => continue,
        };
        if let Some(address) = address {
            targets.push(UpstreamTarget {
                address,
                weight: integer(c).unwrap_or(1) as u32,
                max_requests: None,
                metadata: StringMap::new(),
            });
        }
    }
    UpstreamConfig {
        targets,
        load_balancing: LoadBalancingAlgorithm::RoundRobin,
        health_check: None,
        proxy_protocol: match n.string_entry("proxy-protocol").as_deref() {
            Some("v1") => Some(ProxyProtocolVersion::V1),
            Some("v2") => Some(ProxyProtocolVersion::V2),
            _ => None,
        },
        profile: n.string_entry("profile").map(|p| applied(&p, n)),
    }
}

/// Reads the documents of these tests.
fn cfg(text: &str) -> Config {
    let doc = document(text);
    let find = |name: &str| doc.iter().find(|n| n.name == name);
    let empty = KdlNode {
        name: "system".to_string(),
        entries: vec![],
        children: vec![],
    };
    let mut upstreams = StringMap::new();
    for n in find("upstreams").map_or(&[][..], |u| &u.children) {
        upstreams.insert(n.first_arg_string().unwrap(), upstream(n));
    }
    let mut filters = StringMap::new();
    for n in find("filters").map_or(&[][..], |u| &u.children) {
        let id = n.first_arg_string().unwrap();
        let kind = n.string_entry("type").unwrap();
        let filter = Filter::Other {
            kind,
            phase: FilterPhase::Both,
        };
        filters.insert(id.clone(), FilterConfig::new(&id, filter));
    }
    Config {
        server: parse_server_config(find("system").unwrap_or(&empty)).unwrap(),
        listeners: find("listeners").map_or(vec![], |l| parse_listeners(l).unwrap()),
        routes: find("routes").map_or(vec![], |r| r.children.iter().map(route).collect()),
        upstreams,
        filters,
        agents: vec![],
        observability: ObservabilityConfig {
            metrics: MetricsConfig { enabled: true },
            logging: LoggingConfig {
                access_log: Some(AccessLogConfig { enabled: true }),
            },
        },
    }
}



const BASE: &str = r#"
        system { worker-threads 0 }
        listeners {
            listener "http" { address "0.0.0.0:8080"  protocol "http" }
        }
        routes {
            route "api" {
                priority "normal"
                matches {
                    path-prefix "/api"
                    method "GET" "POST"
                }
                upstream "backend"
            }
        }
        upstreams {
            upstream "backend" {
                target "127.0.0.1:9000" weight=1
                load-balancing "round_robin"
            }
        }
    "#;


fn summaries(d: &ConfigDiff) -> Vec<String> {
    d.deltas.iter().map(|x| x.summary.clone()).collect()
}

#[test]
fn identical_configs_have_no_deltas() {
    let d = diff(&cfg(BASE), &cfg(BASE));
    assert!(
        d.deltas.is_empty(),
        "unexpected deltas: {:?}",
        summaries(&d)
    );
    assert!(!d.has_high_severity());
}

#[test]
fn reordered_match_conditions_are_not_a_delta() {
    // Behavioral equality: reordering match conditions must NOT diff.
    let a = r#"
            system { worker-threads 0 }
            listeners { listener "http" { address "0.0.0.0:8080"  protocol "http" } }
            routes {
                route "api" {
                    priority "normal"
                    matches {
                        path-prefix "/api"
                        host "example.com"
                        method "GET"
                    }
                    upstream "backend"
                }
            }
            upstreams {
                upstream "backend" {
                    target "127.0.0.1:9000" weight=1
                    load-balancing "round_robin"
                }
            }
        "#;
    let b = r#"
            system { worker-threads 0 }
            listeners { listener "http" { address "0.0.0.0:8080"  protocol "http" } }
            routes {
                route "api" {
                    priority "normal"
                    matches {
                        method "GET"
                        host "example.com"
                        path-prefix "/api"
                    }
                    upstream "backend"
                }
            }
            upstreams {
                upstream "backend" {
                    target "127.0.0.1:9000" weight=1
                    load-balancing "round_robin"
                }
            }
        "#;
    let d = diff(&cfg(a), &cfg(b));
    assert!(
        d.deltas.is_empty(),
        "reordering conditions should be no-op, got: {:?}",
        summaries(&d)
    );
}

#[test]
fn changed_match_conditions_are_advisory() {
    let changed = BASE.replace("/api", "/apiv2");
    let d = diff(&cfg(BASE), &cfg(&changed));
    assert!(d
        .deltas
        .iter()
        .any(|x| x.summary.contains("match conditions changed")
            && x.severity == Severity::Advisory));
}

#[test]
fn route_upstream_change_is_high() {
    let mut two = String::from(BASE);
    two = two.replace(
        "upstream \"backend\" {\n                target \"127.0.0.1:9000\"",
        "upstream \"other\" {\n                target \"127.0.0.1:9001\"",
    );
    // Point the route at the new upstream.
    let two = two.replace("upstream \"backend\"\n", "upstream \"other\"\n");
    let d = diff(&cfg(BASE), &cfg(&two));
    assert!(
        d.has_high_severity(),
        "expected high-severity delta, got: {:?}",
        summaries(&d)
    );
    assert!(d
        .deltas
        .iter()
        .any(|x| x.summary.contains("upstream") && x.severity == Severity::High));
}

#[test]
fn route_removed_is_high() {
    let removed = r#"
            system { worker-threads 0 }
            listeners {
                listener "http" { address "0.0.0.0:8080"  protocol "http" }
            }
            routes {
                route "other" {
                    priority "normal"
                    matches { path-prefix "/other" }
                    upstream "backend"
                }
            }
            upstreams {
                upstream "backend" {
                    target "127.0.0.1:9000" weight=1
                    load-balancing "round_robin"
                }
            }
        "#;
    let d = diff(&cfg(BASE), &cfg(removed));
    assert!(d
        .deltas
        .iter()
        .any(|x| x.summary.contains("route 'api' removed") && x.severity == Severity::High));
    assert!(d.has_high_severity());
}

#[test]
fn route_became_unreachable_is_high() {
    // New config adds a higher-priority catch-all that shadows "api".
    let shadowed = r#"
            system { worker-threads 0 }
            listeners {
                listener "http" { address "0.0.0.0:8080"  protocol "http" }
            }
            routes {
                route "catchall" {
                    priority "high"
                    matches { path-prefix "/" }
                    upstream "backend"
                }
                route "api" {
                    priority "normal"
                    matches {
                        path-prefix "/api"
                        method "GET" "POST"
                    }
                    upstream "backend"
                }
            }
            upstreams {
                upstream "backend" {
                    target "127.0.0.1:9000" weight=1
                    load-balancing "round_robin"
                }
            }
        "#;
    let d = diff(&cfg(BASE), &cfg(shadowed));
    assert!(
        d.deltas
            .iter()
            .any(|x| x.summary.contains("became unreachable")
                && x.summary.contains("catchall")
                && x.severity == Severity::High),
        "expected unreachable delta, got: {:?}",
        summaries(&d)
    );
}

#[test]
fn tls_minimum_lowered_is_high() {
    let tls13 = r#"
            system { worker-threads 0 }
            listeners {
                listener "https" {
                    address "0.0.0.0:8443"
                    protocol "https"
                    tls {
                        cert-file "/c.pem"
                        key-file "/k.pem"
                        min-version "TLS1.3"
                    }
                }
            }
            routes {
                route "api" {
                    priority "normal"
                    matches { path-prefix "/api" }
                    upstream "backend"
                }
            }
            upstreams {
                upstream "backend" {
                    target "127.0.0.1:9000" weight=1
                    load-balancing "round_robin"
                }
            }
        "#;
    let tls12 = tls13.replace("TLS1.3", "TLS1.2");
    let d = diff(&cfg(tls13), &cfg(&tls12));
    assert!(
        d.deltas
            .iter()
            .any(|x| x.summary.contains("TLS minimum lowered") && x.severity == Severity::High),
        "got: {:?}",
        summaries(&d)
    );
}

#[test]
fn route_failure_mode_flip_is_high() {
    let open = r#"
            system { worker-threads 0 }
            listeners { listener "http" { address "0.0.0.0:8080"  protocol "http" } }
            routes {
                route "api" {
                    priority "normal"
                    matches { path-prefix "/api" }
                    upstream "backend"
                    policies { failure-mode "open" }
                }
            }
            upstreams {
                upstream "backend" {
                    target "127.0.0.1:9000" weight=1
                    load-balancing "round_robin"
                }
            }
        "#;
    let closed = open.replace("\"open\"", "\"closed\"");
    let d = diff(&cfg(open), &cfg(&closed));
    assert!(
        d.deltas
            .iter()
            .any(|x| x.summary.contains("failure-mode open -> closed")
                && x.severity == Severity::High),
        "got: {:?}",
        summaries(&d)
    );
}


/// Two routes: high-priority `/api` (with a filter, upstream, timeout
/// override, fail-open) and a low-priority catch-all `/`.
const CONFIG_MULTI: &str = r#"
        system { worker-threads 0 }
        listeners {
            listener "http" {
                address "0.0.0.0:8080"
                protocol "http"
                request-timeout-secs 45
            }
        }
        filters {
            filter "cors" { type "cors" }
        }
        routes {
            route "api" {
                priority "high"
                matches { path-prefix "/api" }
                upstream "backend"
                filters "cors"
                policies {
                    timeout-secs 7
                    failure-mode "open"
                }
            }
            route "wide" {
                priority "low"
                matches { path-prefix "/" }
                upstream "backend"
            }
        }
        upstreams {
            upstream "backend" {
                target "127.0.0.1:9000" weight=1
                load-balancing "round_robin"
            }
        }
    "#;

fn req(method: &str, path: &str, host: &str) -> ExplainRequest {
    ExplainRequest {
        method: method.to_string(),
        path: path.to_string(),
        host: host.to_string(),
        headers: StringMap::new(),
    }
}

#[test]
fn upstream_proxy_protocol_is_surfaced() {
    let config = cfg(
        r#"
            system { worker-threads 0 }
            listeners {
                listener "http" { address "0.0.0.0:8080" }
            }
            routes {
                route "api" {
                    matches { path-prefix "/" }
                    upstream "backend"
                }
            }
            upstreams {
                upstream "backend" {
                    target "127.0.0.1:9000"
                    proxy-protocol "v2"
                }
            }
            "#,
    );

    let report = explain(&config, &req("GET", "/x", "example.com")).unwrap();
    let m = report.matched.as_ref().expect("should match");
    assert_eq!(
        m.upstream
            .as_ref()
            .and_then(|u| u.proxy_protocol.as_deref()),
        Some("v2")
    );
    assert!(report
        .render_text()
        .contains("PROXY protocol: emits v2 header"));
}

#[test]
fn backend_profile_expansion_is_surfaced() {
    let config = cfg(
        r#"
            system { worker-threads 0 }
            listeners {
                listener "http" { address "0.0.0.0:8080" }
            }
            routes {
                route "api" {
                    matches { path-prefix "/" }
                    upstream "backend"
                }
            }
            upstreams {
                upstream "backend" {
                    target "127.0.0.1:9000"
                    profile "apache-shared-hosting"
                    timeouts { request 120 }
                }
            }
            "#,
    );

    let report = explain(&config, &req("GET", "/x", "example.com")).unwrap();
    let upstream = report
        .matched
        .as_ref()
        .expect("should match")
        .upstream
        .as_ref()
        .expect("upstream resolved");

    assert_eq!(upstream.profile.as_deref(), Some("apache-shared-hosting"));
    // The overridden setting is not claimed by the profile; the rest are.
    assert!(!upstream
        .profile_settings
        .iter()
        .any(|s| s.starts_with("timeouts.request=")));
    assert!(upstream
        .profile_settings
        .iter()
        .any(|s| s == "timeouts.connect=5s"));

    let text = report.render_text();
    assert!(
        text.contains("Profile: \"apache-shared-hosting\" — contributed"),
        "profile expansion missing from explain output:\n{text}"
    );
    assert!(text.contains("connection-pool.idle-timeout=3s"), "{text}");
}

#[test]
fn matched_route_resolves_full_wiring() {
    let config = cfg(CONFIG_MULTI);
    let report = explain(&config, &req("GET", "/api/users", "example.com")).unwrap();

    assert!(!report.no_match);
    let m = report.matched.expect("should match");
    assert_eq!(m.id, "api");
    assert_eq!(m.priority, 100); // "high"

    // Beat the low-priority catch-all, which also matched.
    let beat: Vec<&str> = m.beat.iter().map(|b| b.id.as_str()).collect();
    assert_eq!(beat, vec!["wide"]);

    // Filter chain resolved in declared order, with phase and non-agent flag.
    assert_eq!(m.filters.len(), 1);
    assert_eq!(m.filters[0].id, "cors");
    assert_eq!(m.filters[0].kind, "cors");
    assert_eq!(m.filters[0].phase, "both");
    assert!(!m.filters[0].is_agent);
    assert!(!m.filters[0].undefined);

    // Route-level `timeout-secs` / `failure-mode` from the `policies` block
    // are honored (parsed from KDL); explain reflects them.
    assert_eq!(m.timeout.route_override_secs, Some(7));
    assert_eq!(m.failure_mode, "open");

    let up = m.upstream.expect("has upstream");
    assert!(up.defined);
    assert_eq!(up.target_count, Some(1));
    assert!(up.load_balancing.unwrap().contains("RoundRobin"));
}

#[test]
fn route_policies_reflect_current_values() {
    // explain reports whatever `RoutePolicies` currently holds, regardless
    // of source. Set values distinct from the config's KDL to prove it reads
    // the live struct, not a hardcoded default.
    let mut config = cfg(CONFIG_MULTI);
    let api = config
        .routes
        .iter_mut()
        .find(|r| r.id == "api")
        .expect("api route exists");
    api.policies.timeout_secs = Some(99);
    api.policies.failure_mode = FailureMode::Closed;

    let report = explain(&config, &req("GET", "/api/users", "example.com")).unwrap();
    let m = report.matched.as_ref().expect("should match");
    assert_eq!(m.timeout.route_override_secs, Some(99));
    assert_eq!(m.failure_mode, "closed");

    // Text render reflects the override branch.
    assert!(report.render_text().contains("route override"));
}

#[test]
fn query_param_route_matches_via_path_query() {
    // A `--path` carrying a query string routes to a `query-param` route,
    // exactly as the running proxy would (both source params from the query).
    let config = cfg(
        r#"
            system { worker-threads 0 }
            listeners { listener "http" { address "0.0.0.0:8080"  protocol "http" } }
            routes {
                route "beta" {
                    priority "high"
                    matches { query-param "flag" "on" }
                    upstream "backend"
                }
                route "wide" {
                    priority "low"
                    matches { path-prefix "/" }
                    upstream "backend"
                }
            }
            upstreams {
                upstream "backend" {
                    target "127.0.0.1:9000" weight=1
                    load-balancing "round_robin"
                }
            }
        "#,
    );

    // With ?flag=on the beta route wins.
    let hit = explain(&config, &req("GET", "/x?flag=on", "example.com")).unwrap();
    assert_eq!(hit.matched.expect("match").id, "beta");

    // Without it, the catch-all handles the request.
    let miss = explain(&config, &req("GET", "/x?flag=off", "example.com")).unwrap();
    assert_eq!(miss.matched.expect("match").id, "wide");
}

#[test]
fn timeout_falls_back_to_listener_when_no_override() {
    let config = cfg(CONFIG_MULTI);
    // `/other` misses `/api` but hits the catch-all `wide`, which has no
    // route-level timeout override.
    let report = explain(&config, &req("GET", "/other", "example.com")).unwrap();

    let m = report.matched.expect("catch-all matches");
    assert_eq!(m.id, "wide");
    assert_eq!(m.timeout.route_override_secs, None);
    assert_eq!(m.timeout.listener_defaults.len(), 1);
    assert_eq!(m.timeout.listener_defaults[0].listener, "http");
    assert_eq!(m.timeout.listener_defaults[0].secs, 45);
    // Default failure mode is fail-closed (secure by default).
    assert_eq!(m.failure_mode, "closed");
}

#[test]
fn no_match_reports_reasons() {
    // A single host-scoped route; a request to a different host matches
    // nothing, so the report is a no-match with an explained rejection.
    let config = cfg(
        r#"
            system { worker-threads 0 }
            listeners {
                listener "http" { address "0.0.0.0:8080"  protocol "http" }
            }
            routes {
                route "only" {
                    matches { host "only.example.com" }
                    upstream "backend"
                }
            }
            upstreams {
                upstream "backend" { target "127.0.0.1:9000" weight=1 }
            }
        "#,
    );

    let report = explain(&config, &req("GET", "/", "other.example.com")).unwrap();
    assert!(report.no_match);
    assert!(report.matched.is_none());
    assert_eq!(report.rejected.len(), 1);
    assert_eq!(report.rejected[0].id, "only");
    assert!(report.rejected[0].reason.contains("host"));
}

#[test]
fn query_string_in_path_is_stripped_for_matching() {
    // Production matches against `uri.path()` (query stripped). A `--path`
    // carrying a query string must still route to the path route, exactly
    // as the running proxy would.
    let config = cfg(CONFIG_MULTI);
    let report = explain(
        &config,
        &req("GET", "/api/users?flag=1&debug=true", "example.com"),
    )
    .unwrap();

    let m = report
        .matched
        .expect("path route matches despite query string");
    assert_eq!(m.id, "api");
}


const SAMPLE: &str = r#"
# global directives are reported, not imported
ServerRoot "/etc/httpd"
Listen 80
Listen 443

<VirtualHost *:80>
    ServerName example.com
    ServerAlias www.example.com
    ProxyPass / http://127.0.0.1:8080/
    ProxyPassReverse / http://127.0.0.1:8080/
</VirtualHost>

<VirtualHost *:443>
    ServerName example.com
    SSLEngine on
    SSLCertificateFile /etc/ssl/example.crt
    SSLCertificateKeyFile /etc/ssl/example.key
    ProxyPass /api/ https://api.internal:9443/api/
    ProxyPass / http://127.0.0.1:8080/
    RewriteEngine on
    RewriteRule ^/old$ /new [R=301]
</VirtualHost>
"#;

fn import(content: &str) -> (Vec<VirtualHost>, Vec<Note>, String) {
    let mut notes = Vec::new();
    let vhosts = parse_apache(content, &mut notes).expect("parse should succeed");
    let kdl = emit_kdl(&vhosts, &mut notes, "test.conf").expect("emit should succeed");
    (vhosts, notes, kdl)
}

#[test]
fn parse_extracts_vhost_with_all_mapped_directives() {
    let mut notes = Vec::new();
    let vhosts = parse_apache(SAMPLE, &mut notes).unwrap();

    assert_eq!(vhosts.len(), 2);
    let https = &vhosts[1];
    assert_eq!(https.server_name.as_deref(), Some("example.com"));
    assert_eq!(https.cert_file.as_deref(), Some("/etc/ssl/example.crt"));
    assert_eq!(https.key_file.as_deref(), Some("/etc/ssl/example.key"));
    assert!(https.ssl_engine);
    assert_eq!(https.proxy_passes.len(), 2);
    assert_eq!(https.proxy_passes[0].path, "/api/");
    assert!(https.proxy_passes[0].target.tls);
    assert_eq!(https.proxy_passes[0].target.host, "api.internal");
    assert_eq!(https.proxy_passes[0].target.port, 9443);
}

#[test]
fn parse_records_unmapped_directives_with_line_numbers() {
    let mut notes = Vec::new();
    parse_apache(SAMPLE, &mut notes).unwrap();

    let directives: Vec<&str> = notes.iter().map(|n| n.directive.as_str()).collect();
    assert!(directives.iter().any(|d| d.starts_with("ServerRoot")));
    assert!(directives.iter().any(|d| d.starts_with("ProxyPassReverse")));
    assert!(directives.iter().any(|d| d.starts_with("RewriteRule")));
    let rewrite = notes
        .iter()
        .find(|n| n.directive.starts_with("RewriteRule"))
        .unwrap();
    assert_eq!(rewrite.line, 22);
}

#[test]
fn parse_skips_nested_sections_entirely() {
    let conf = r#"
<VirtualHost *:80>
    ServerName example.com
    <IfModule mod_proxy.c>
        <Location /admin>
            ProxyPass / http://hidden:9999/
        </Location>
    </IfModule>
    ProxyPass / http://visible:8080/
</VirtualHost>
"#;
    let mut notes = Vec::new();
    let vhosts = parse_apache(conf, &mut notes).unwrap();

    assert_eq!(vhosts[0].proxy_passes.len(), 1);
    assert_eq!(vhosts[0].proxy_passes[0].target.host, "visible");
    let section_notes: Vec<_> = notes
        .iter()
        .filter(|n| n.detail.contains("section skipped"))
        .collect();
    assert_eq!(section_notes.len(), 1);
    assert!(section_notes[0].directive.contains("IfModule"));
}

#[test]
fn parse_joins_line_continuations() {
    let conf = "<VirtualHost *:80>\nServerName example.com\nProxyPass \\\n    /app \\\n    http://backend:8080/app\n</VirtualHost>\n";
    let mut notes = Vec::new();
    let vhosts = parse_apache(conf, &mut notes).unwrap();

    assert_eq!(vhosts[0].proxy_passes.len(), 1);
    assert_eq!(vhosts[0].proxy_passes[0].path, "/app");
}

#[test]
fn parse_fails_on_unclosed_virtualhost() {
    let mut notes = Vec::new();
    let err = parse_apache("<VirtualHost *:80>\nServerName x.com\n", &mut notes).unwrap_err();
    assert!(err.message.contains("unclosed <VirtualHost>"));
}

#[test]
fn parse_fails_on_stray_closing_tag() {
    let mut notes = Vec::new();
    let err = parse_apache("</VirtualHost>\n", &mut notes).unwrap_err();
    assert!(err.message.contains("without matching"));
}

#[test]
fn server_name_is_stripped_of_scheme_and_port() {
    let conf = "<VirtualHost *:80>\nServerName https://example.com:443\nProxyPass / http://b:8080\n</VirtualHost>\n";
    let mut notes = Vec::new();
    let vhosts = parse_apache(conf, &mut notes).unwrap();
    assert_eq!(vhosts[0].server_name.as_deref(), Some("example.com"));
}

#[test]
fn emitted_kdl_round_trips_through_config_parser() {
    let (_, _, kdl) = import(SAMPLE);

    let config = cfg(&kdl);

    assert_eq!(config.listeners.len(), 2);
    assert_eq!(config.routes.len(), 4);
    assert_eq!(config.upstreams.len(), 2);

    let https = config
        .listeners
        .iter()
        .find(|l| l.address.ends_with(":443"))
        .expect("https listener");
    let tls = https.tls.as_ref().expect("tls block");
    assert_eq!(
        tls.cert_file.as_deref(),
        Some("/etc/ssl/example.crt")
    );
    assert!(kdl.contains("host \"example.com\""));
    assert!(kdl.contains("host \"www.example.com\""));
}

#[test]
fn https_vhosts_on_same_address_emit_sni_certificates() {
    let conf = r#"
<VirtualHost *:443>
    ServerName a.example.com
    SSLCertificateFile /etc/ssl/a.crt
    SSLCertificateKeyFile /etc/ssl/a.key
    ProxyPass / http://a-backend:8080
</VirtualHost>
<VirtualHost *:443>
    ServerName b.example.com
    ServerAlias b-alt.example.com
    SSLCertificateFile /etc/ssl/b.crt
    SSLCertificateKeyFile /etc/ssl/b.key
    ProxyPass / http://b-backend:8080
</VirtualHost>
"#;
    let (_, _, kdl) = import(conf);

    let config = cfg(&kdl);
    assert_eq!(config.listeners.len(), 1);
    let tls = config.listeners[0].tls.as_ref().expect("tls block");
    assert_eq!(tls.cert_file.as_deref(), Some("/etc/ssl/a.crt"));
    assert_eq!(tls.additional_certs.len(), 1);
    assert_eq!(
        tls.additional_certs[0].hostnames,
        vec!["b.example.com".to_string(), "b-alt.example.com".to_string()]
    );
    assert_eq!(
        tls.additional_certs[0].cert_file.as_deref(),
        Some("/etc/ssl/b.crt")
    );
}

#[test]
fn proxy_pass_path_mismatch_is_reported() {
    let conf = "<VirtualHost *:80>\nServerName x.com\nProxyPass /api http://b:8080/app\n</VirtualHost>\n";
    let (_, notes, _) = import(conf);

    assert!(notes.iter().any(|n| n.detail.contains("not preserved")));
}

#[test]
fn balancer_target_is_reported_not_dropped() {
    let conf = "<VirtualHost *:80>\nServerName x.com\nProxyPass / balancer://cluster/\n</VirtualHost>\n";
    let (_, notes, kdl) = import(conf);

    assert!(notes.iter().any(|n| n.detail.contains("balancer")));
    assert!(notes
        .iter()
        .any(|n| n.detail.contains("no importable ProxyPass")));
    let config = cfg(&kdl);
    assert!(config.routes.is_empty());
    assert!(config.upstreams.is_empty());
}

#[test]
fn cert_without_key_fails_loudly() {
    let conf = "<VirtualHost *:443>\nServerName x.com\nSSLCertificateFile /a.crt\nProxyPass / http://b:8080\n</VirtualHost>\n";
    let mut notes = Vec::new();
    let vhosts = parse_apache(conf, &mut notes).unwrap();
    let err = emit_kdl(&vhosts, &mut notes, "test.conf").unwrap_err();
    assert!(err.message.contains("SSLCertificateKeyFile"));
}

#[test]
fn longer_prefixes_get_higher_priority() {
    let (_, _, kdl) = import(SAMPLE);

    let config = cfg(&kdl);
    let api = config
        .routes
        .iter()
        .find(|r| r.id.contains("api"))
        .expect("api route");
    let root = config
        .routes
        .iter()
        .find(|r| r.id == "example-com-2")
        .expect("root https route");
    assert!(api.priority > root.priority);
}

#[test]
fn oversized_input_is_refused() {
    let big = "#".repeat(MAX_INPUT_BYTES + 1);
    assert_eq!(
        import_apache(&big, "big.conf").1.unwrap_err().message,
        "big.conf is 4194305 bytes; refusing inputs larger than 4194304 bytes"
    );
    let (notes, out) = import_apache("Listen 80\n", "empty.conf");
    assert_eq!(
        out.unwrap_err().message,
        "no <VirtualHost> blocks found in empty.conf — nothing to import"
    );
    assert_eq!(notes.len(), 1);
    let (_, out) = import_apache(SAMPLE, "test.conf");
    assert_eq!(out.unwrap(), (2, import(SAMPLE).2));
}

#[test]
fn every_note_is_in_the_report() {
    let (_, notes, kdl) = import(SAMPLE);
    assert!(!notes.is_empty());
    for n in &notes {
        assert!(kdl.contains(&n.detail), "note lost: {}", n.detail);
    }
}

#[test]
fn names_are_made_safe_and_unique() {
    assert_eq!(sanitize_id("Example.COM"), "example-com");
    let mut used = Vec::new();
    assert_eq!(unique_id("a", &mut used), "a");
    assert_eq!(unique_id("a", &mut used), "a-2");
    assert_eq!(unique_id("a", &mut used), "a-3");
    assert_eq!(kdl_escape("a\"b\\c"), "a\\\"b\\\\c");
}

#[test]
fn diff_text_puts_high_severity_first() {
    let removed = BASE.replace("\"api\"", "\"other\"");
    let d = diff(&cfg(BASE), &cfg(&removed));
    assert!(d.has_high_severity());
    let first_advisory = d
        .deltas
        .iter()
        .position(|x| x.severity == Severity::Advisory)
        .unwrap_or(d.deltas.len());
    assert!(d.deltas[..first_advisory]
        .iter()
        .all(|x| x.severity == Severity::High));
    assert!(d.deltas[first_advisory..]
        .iter()
        .all(|x| x.severity == Severity::Advisory));
    assert!(d.render_text().contains("route 'api' removed"));
}

#[test]
fn reported_specificity_is_the_sum_of_its_parts() {
    let mut config = cfg(BASE);
    config.routes[0].matches = vec![
        MatchCondition::PathPrefix("/api/private".into()),
        MatchCondition::Method(vec!["GET".into()]),
    ];
    let report = explain(&config, &req("GET", "/api/private/x", "example.com")).unwrap();
    assert_eq!(report.matched.unwrap().specificity, 1022);

    config.routes[0].matches = vec![
        MatchCondition::PathRegex("^/api/.*$".into()),
        MatchCondition::PathPrefix("/api".into()),
        MatchCondition::Host("*.example.com".into()),
        MatchCondition::Host("a.example.com".into()),
        MatchCondition::Method(vec!["GET".into()]),
    ];
    let report = explain(&config, &req("GET", "/api/x", "a.example.com")).unwrap();
    assert_eq!(report.matched.unwrap().specificity, 5080);
}

#[test]
fn reported_specificity_does_not_order_routes() {
    let mut config = cfg(BASE);
    let mut long = cfg(BASE).routes.remove(0);
    long.id = "long".to_string();
    long.matches = vec![MatchCondition::PathPrefix("/a/b".into())];
    config.routes[0].matches = vec![
        MatchCondition::PathPrefix("/a".into()),
        MatchCondition::Header {
            name: "x-key".into(),
            value: Some("1".into()),
        },
    ];
    config.routes.push(long);
    let mut request = req("GET", "/a/b/c", "example.com");
    request.headers.insert("x-key".to_string(), "1".to_string());
    let report = explain(&config, &request).unwrap();
    let won = report.matched.unwrap();
    assert_eq!((won.id.as_str(), won.specificity), ("long", 1004));
    assert_eq!(won.beat[0].id, "api");
}

#[test]
fn explained_route_follows_the_query_string() {
    let mut config = cfg(BASE);
    let mut beta = cfg(BASE).routes.remove(0);
    beta.id = "beta".to_string();
    beta.matches.push(MatchCondition::QueryParam {
        name: "beta".into(),
        value: Some("1".into()),
    });
    config.routes.push(beta);
    let id = |path: &str| {
        explain(&config, &req("GET", path, "example.com"))
            .unwrap()
            .matched
            .unwrap()
            .id
    };
    assert_eq!(id("/api/x?beta=1"), "beta");
    assert_eq!(id("/api/x?beta=2"), "api");
}

#[test]
fn method_lists_are_compared_as_sets() {
    let with = |methods: &[&str]| {
        let mut config = cfg(BASE);
        config.routes[0].matches = vec![MatchCondition::Method(
            methods.iter().map(|m| m.to_string()).collect(),
        )];
        config
    };
    for same in [&["post", "Get"][..], &["GET", "POST", "get"][..]] {
        let d = diff(&with(&["GET", "POST"]), &with(same));
        assert!(d.deltas.is_empty(), "{:?}", summaries(&d));
        assert!(!d.has_high_severity());
    }
    for other in [&["GET,POST"][..], &["GET"][..], &["GET", "POST", "PUT"][..]] {
        let d = diff(&with(&["GET", "POST"]), &with(other));
        assert_eq!(d.deltas.len(), 1, "{other:?}: {:?}", summaries(&d));
    }
}

#[test]
fn a_rename_is_removed_one_way_and_added_the_other() {
    let a = cfg(BASE);
    let mut b = cfg(BASE);
    b.routes[0].id = "renamed".to_string();
    let count = |d: &ConfigDiff, word: &str, id: &str| {
        d.deltas
            .iter()
            .filter(|x| x.summary.contains(word) && x.summary.contains(id))
            .count()
    };
    let there = diff(&a, &b);
    let back = diff(&b, &a);
    assert_eq!(count(&there, "removed", "api"), 1);
    assert_eq!(count(&there, "added", "renamed"), 1);
    assert_eq!(count(&back, "added", "api"), 1);
    assert_eq!(count(&back, "removed", "renamed"), 1);
}

#[test]
fn sanitized_identifiers_are_fixed_points() {
    for (raw, id) in [
        ("My Site!!", "my-site"),
        ("--a--b--", "a-b"),
        ("", "unnamed"),
        ("***", "unnamed"),
        ("shop.example.com", "shop-example-com"),
    ] {
        assert_eq!(sanitize_id(raw), id);
        assert_eq!(sanitize_id(id), id);
    }
}

#[test]
fn longer_prefixes_come_first_at_any_length() {
    let long = format!("/{}", "a".repeat(600));
    let conf = format!(
        "<VirtualHost *:80>\n    ServerName a.example\n    ProxyPass {long} http://127.0.0.1:1/\n    ProxyPass {long}/b http://127.0.0.1:2/\n</VirtualHost>\n"
    );
    let (_, _, kdl) = import(&conf);
    assert!(kdl.contains("priority 651"), "{kdl}");
    assert!(kdl.contains("priority 653"), "{kdl}");
}

#[test]
fn ssl_engine_is_never_dropped_in_silence() {
    for value in ["on", "off"] {
        let conf = format!(
            "<VirtualHost *:80>\n    ServerName a.example\n    SSLEngine {value}\n    ProxyPass / http://127.0.0.1:1/\n</VirtualHost>\n"
        );
        let (hosts, notes, _) = import(&conf);
        assert_eq!(hosts[0].ssl_engine, value == "on");
        assert!(notes
            .iter()
            .any(|n| n.line == 3 && n.directive == format!("SSLEngine {value}")
                && n.detail.starts_with("not imported")));
    }
}
