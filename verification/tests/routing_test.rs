use zentinel::cache::RouteCache;
use zentinel::config::{MatchCondition, Priority, RouteConfig, ServiceType};
use zentinel::request::{decode, or_raw, parse_query_string, printable_text};
use zentinel::routing::{RequestInfo, RouteError, RouteMatcher};
use zentinel::strmap::StringMap;



#[test]
fn route_cache_never_exceeds_max_size() {
    let mut cache = RouteCache::new(10);
    for i in 0..100 {
        cache.insert(format!("key-{i}"), format!("route-{i}"));
        assert!(
            cache.len() <= 10,
            "route cache grew past max_size: {}",
            cache.len()
        );
    }
}

fn create_test_route(id: &str, matches: Vec<MatchCondition>) -> RouteConfig {
    RouteConfig {
        id: id.to_string(),
        priority: Priority::normal(),
        matches,
        upstream: Some("test_upstream".to_string()),
        service_type: ServiceType::Web,
        policies: Default::default(),
        filters: vec![],
        waf_enabled: false,
        retry_policy: None,
        shadow: None,
    }
}

#[test]
fn test_path_matching() {
    let routes = vec![
        create_test_route(
            "exact",
            vec![MatchCondition::Path("/api/v1/users".to_string())],
        ),
        create_test_route(
            "prefix",
            vec![MatchCondition::PathPrefix("/api/".to_string())],
        ),
    ];

    let mut matcher = RouteMatcher::new(routes, None).unwrap();

    let req = RequestInfo::new("GET", "/api/v1/users", "example.com");

    let result = matcher.match_request(&req).unwrap();
    assert_eq!(result.route_id.as_str(), "exact");
}

#[test]
fn test_host_wildcard_matching() {
    let routes = vec![create_test_route(
        "wildcard",
        vec![MatchCondition::Host("*.example.com".to_string())],
    )];

    let mut matcher = RouteMatcher::new(routes, None).unwrap();

    let req = RequestInfo::new("GET", "/", "api.example.com");

    let result = matcher.match_request(&req).unwrap();
    assert_eq!(result.route_id.as_str(), "wildcard");
}

#[test]
fn test_priority_ordering() {
    let mut route1 =
        create_test_route("low", vec![MatchCondition::PathPrefix("/".to_string())]);
    route1.priority = Priority::low();

    let mut route2 =
        create_test_route("high", vec![MatchCondition::PathPrefix("/".to_string())]);
    route2.priority = Priority::high();

    let routes = vec![route1, route2];
    let mut matcher = RouteMatcher::new(routes, None).unwrap();

    let req = RequestInfo::new("GET", "/test", "example.com");

    let result = matcher.match_request(&req).unwrap();
    assert_eq!(result.route_id.as_str(), "high");
}

#[test]
fn explain_records_winner_and_beaten_routes() {
    // Two routes both match /api/*; higher priority wins, lower is "beaten".
    let mut low =
        create_test_route("low", vec![MatchCondition::PathPrefix("/api".to_string())]);
    low.priority = Priority::low();
    let mut high =
        create_test_route("high", vec![MatchCondition::PathPrefix("/api".to_string())]);
    high.priority = Priority::high();

    let matcher = RouteMatcher::new(vec![low, high], None).unwrap();
    let req = RequestInfo::new("GET", "/api/users", "example.com");

    let trace = matcher.explain_request(&req);
    assert_eq!(trace.winner().unwrap().id.as_str(), "high");
    let beaten: Vec<_> = trace.beaten().iter().map(|e| e.id.as_str()).collect();
    assert_eq!(beaten, vec!["low"]);
}

#[test]
fn explain_reports_reject_reason_for_nonmatch() {
    let route = create_test_route("api", vec![MatchCondition::PathPrefix("/api".to_string())]);
    let matcher = RouteMatcher::new(vec![route], None).unwrap();
    let req = RequestInfo::new("GET", "/other", "example.com");

    let trace = matcher.explain_request(&req);
    assert!(trace.winner().is_none());
    let eval = &trace.evaluations[0];
    assert!(!eval.matched);
    assert!(eval
        .reject_reason
        .as_deref()
        .unwrap()
        .contains("path-prefix"));
}

#[test]
fn explain_winner_matches_live_match_request() {
    // Parity guarantee: explain's winner == match_request's result.
    let routes = vec![
        create_test_route(
            "exact",
            vec![MatchCondition::Path("/api/v1/users".to_string())],
        ),
        create_test_route(
            "prefix",
            vec![MatchCondition::PathPrefix("/api".to_string())],
        ),
    ];
    let mut matcher = RouteMatcher::new(routes, None).unwrap();
    let req = RequestInfo::new("GET", "/api/v1/users", "example.com");

    let live = matcher.match_request(&req).unwrap();
    let trace = matcher.explain_request(&req);
    assert_eq!(trace.winner().unwrap().id, live.route_id);
    assert_eq!(trace.winner().unwrap().id.as_str(), "exact");
}

#[test]
fn explain_never_consults_cache() {
    // Warm the cache via match_request, then confirm explain still evaluates
    // every route and reports the same winner.
    let routes = vec![
        create_test_route("a", vec![MatchCondition::PathPrefix("/a".to_string())]),
        create_test_route("b", vec![MatchCondition::PathPrefix("/b".to_string())]),
    ];
    let mut matcher = RouteMatcher::new(routes, None).unwrap();
    let req = RequestInfo::new("GET", "/a/x", "example.com");

    let _ = matcher.match_request(&req); // warm cache
    let trace = matcher.explain_request(&req);
    assert_eq!(trace.evaluations.len(), 2);
    assert_eq!(trace.winner().unwrap().id.as_str(), "a");
}

#[test]
fn explain_uses_default_route_when_no_match() {
    let route = create_test_route(
        "fallback",
        vec![MatchCondition::Host("only.example.com".to_string())],
    );
    let matcher = RouteMatcher::new(vec![route], Some("fallback".to_string())).unwrap();
    let req = RequestInfo::new("GET", "/", "other.example.com");

    let trace = matcher.explain_request(&req);
    assert!(trace.used_default);
    assert_eq!(trace.winner().unwrap().id.as_str(), "fallback");
    // The default applied because nothing actually matched.
    assert!(!trace.winner().unwrap().matched);
    assert!(trace.beaten().is_empty());
}

#[test]
fn query_param_condition_is_inert_under_prod_style_construction() {
    // A route that matches on a query parameter.
    let route = create_test_route(
        "q",
        vec![MatchCondition::QueryParam {
            name: "flag".to_string(),
            value: Some("1".to_string()),
        }],
    );
    let matcher = RouteMatcher::new(vec![route], None).unwrap();

    // Production (and explain, which mirrors it) hands the router the
    // query-STRIPPED path and parses query params from that same stripped
    // path — so the params map is empty and the condition cannot match.
    // This pins the documented gap: `QueryParam` routing is inert because
    // http_trait.rs sets `ctx.path = uri.path()` then parses params from it.
    let stripped = "/search"; // uri.path() form: query already removed
    let prod_style = RequestInfo::new("GET", stripped, "example.com")
        .with_query_params(RequestInfo::parse_query_params(stripped));
    assert!(matcher.explain_request(&prod_style).winner().is_none());

    // The condition itself is sound: given populated params it matches, so
    // the gap is in how params are sourced, not in the matcher.
    let mut params = StringMap::new();
    params.insert("flag".to_string(), "1".to_string());
    let with_params =
        RequestInfo::new("GET", stripped, "example.com").with_query_params(params);
    assert_eq!(
        matcher
            .explain_request(&with_params)
            .winner()
            .unwrap()
            .id
            .as_str(),
        "q"
    );
}

#[test]
fn test_query_param_parsing() {
    let params = RequestInfo::parse_query_params("/path?foo=bar&baz=qux&empty=");
    assert_eq!(params.get("foo"), Some(&"bar".to_string()));
    assert_eq!(params.get("baz"), Some(&"qux".to_string()));
    assert_eq!(params.get("empty"), Some(&"".to_string()));
}

#[test]
fn test_path_prefix_segment_boundary() {
    let routes = vec![
        create_test_route("v2", vec![MatchCondition::PathPrefix("/v2".to_string())]),
        create_test_route(
            "catch-all",
            vec![MatchCondition::PathPrefix("/".to_string())],
        ),
    ];

    let mut matcher = RouteMatcher::new(routes, None).unwrap();

    // /v2 exact → v2
    let req = RequestInfo::new("GET", "/v2", "example.com");
    assert_eq!(matcher.match_request(&req).unwrap().route_id.as_str(), "v2");

    // /v2/ with trailing slash → v2
    let req = RequestInfo::new("GET", "/v2/", "example.com");
    assert_eq!(matcher.match_request(&req).unwrap().route_id.as_str(), "v2");

    // /v2/anything → v2
    let req = RequestInfo::new("GET", "/v2/anything", "example.com");
    assert_eq!(matcher.match_request(&req).unwrap().route_id.as_str(), "v2");

    // /v2example must NOT match /v2 prefix — falls to catch-all
    let req = RequestInfo::new("GET", "/v2example", "example.com");
    assert_eq!(
        matcher.match_request(&req).unwrap().route_id.as_str(),
        "catch-all"
    );

    // /v2?query → v2
    let req = RequestInfo::new("GET", "/v2?foo=bar", "example.com");
    assert_eq!(matcher.match_request(&req).unwrap().route_id.as_str(), "v2");
}

#[test]
fn test_header_matching_with_specificity() {
    let routes = vec![
        create_test_route(
            "catch-all",
            vec![MatchCondition::PathPrefix("/".to_string())],
        ),
        create_test_route(
            "header-v2",
            vec![
                MatchCondition::Header {
                    name: "version".to_string(),
                    value: Some("two".to_string()),
                },
                MatchCondition::PathPrefix("/".to_string()),
            ],
        ),
    ];

    let mut matcher = RouteMatcher::new(routes, None).unwrap();

    // Without headers → catch-all
    let req = RequestInfo::new("GET", "/", "example.com");
    assert_eq!(
        matcher.match_request(&req).unwrap().route_id.as_str(),
        "catch-all"
    );

    // With version:two header → header-v2 (more specific)
    let mut headers = StringMap::new();
    headers.insert("version".to_string(), "two".to_string());
    let req = RequestInfo::new("GET", "/", "example.com").with_headers(headers);
    assert_eq!(
        matcher.match_request(&req).unwrap().route_id.as_str(),
        "header-v2"
    );
}

fn get(path: &'static str) -> RequestInfo<'static> {
    RequestInfo::new("GET", path, "example.com")
}

#[test]
fn regex_conditions_go_through_the_regex_crate() {
    let route = create_test_route(
        "r",
        vec![MatchCondition::PathRegex("^/v[0-9]+/.*$".to_string())],
    );
    let mut matcher = RouteMatcher::new(vec![route], None).unwrap();
    assert_eq!(
        matcher
            .match_request(&get("/v12/x"))
            .unwrap()
            .route_id
            .as_str(),
        "r"
    );
    assert!(matcher.match_request(&get("/vx/x")).is_none());
}

#[test]
fn bad_regex_is_refused_with_its_pattern() {
    let route = create_test_route("r", vec![MatchCondition::PathRegex("(".to_string())]);
    let err = RouteMatcher::new(vec![route], None).err().unwrap();
    assert!(matches!(&err, RouteError::InvalidRegex { pattern, .. } if pattern == "("));
    assert!(err.message().starts_with("Invalid regex pattern '(': "));
}

#[test]
fn route_errors_have_words() {
    assert_eq!(
        RouteError::DuplicateRouteId("a".to_string()).message(),
        "Duplicate route ID: a"
    );
    assert_eq!(
        RouteError::InvalidConfig("x".to_string()).message(),
        "Invalid route configuration: x"
    );
}

#[test]
fn methods_match_in_any_case_of_the_configuration() {
    let route = create_test_route(
        "m",
        vec![MatchCondition::Method(vec!["get".to_string()])],
    );
    let mut matcher = RouteMatcher::new(vec![route], None).unwrap();
    assert!(matcher.match_request(&get("/")).is_some());
    let post = RequestInfo::new("POST", "/", "example.com");
    assert!(matcher.match_request(&post).is_none());
}

#[test]
fn a_cached_decision_is_the_fresh_decision() {
    let routes = vec![
        create_test_route("a", vec![MatchCondition::PathPrefix("/a".to_string())]),
        create_test_route("all", vec![MatchCondition::PathPrefix("/".to_string())]),
    ];
    let mut matcher = RouteMatcher::with_cache_size(routes, None, 4).unwrap();
    let first = matcher.match_request(&get("/a/x")).unwrap();
    let second = matcher.match_request(&get("/a/x")).unwrap();
    assert_eq!(first.route_id, second.route_id);
    let stats = matcher.cache_stats();
    assert_eq!(stats.hits, 1);
    assert_eq!(stats.misses, 1);
    assert_eq!(stats.entries, 1);
    assert_eq!(stats.max_size, 4);
    matcher.clear_cache();
    assert_eq!(matcher.cache_stats().entries, 0);
}

#[test]
fn cache_keeps_apart_requests_that_differ_in_what_routes_read() {
    let header_route = create_test_route(
        "h",
        vec![
            MatchCondition::Header {
                name: "x-key".to_string(),
                value: None,
            },
            MatchCondition::PathPrefix("/".to_string()),
        ],
    );
    let all = create_test_route("all", vec![MatchCondition::PathPrefix("/".to_string())]);
    let mut matcher = RouteMatcher::new(vec![header_route, all], None).unwrap();
    assert!(matcher.needs_headers());
    assert!(!matcher.needs_query_params());
    assert_eq!(
        matcher.match_request(&get("/")).unwrap().route_id.as_str(),
        "all"
    );
    let mut headers = StringMap::new();
    headers.insert("x-key".to_string(), "1".to_string());
    let with = get("/").with_headers(headers);
    assert_eq!(
        matcher.match_request(&with).unwrap().route_id.as_str(),
        "h"
    );
}

#[test]
fn cache_counts_and_drops() {
    let mut cache = RouteCache::new(2);
    assert!(cache.is_empty());
    assert_eq!(cache.get("k"), None);
    cache.insert("k".to_string(), "r".to_string());
    assert_eq!(cache.get("k"), Some("r".to_string()));
    cache.insert("l".to_string(), "s".to_string());
    cache.insert("m".to_string(), "t".to_string());
    assert!(cache.len() <= 2);
    assert_eq!(cache.get("m"), Some("t".to_string()));
    assert!(cache.stats().evictions > 0);
    cache.clear();
    assert_eq!(cache.len(), 0);
}

#[test]
fn query_strings_are_percent_decoded() {
    let p = parse_query_string("a%20b=c%2Fd&flag&x=1=2");
    assert_eq!(p.get("a b"), Some(&"c/d".to_string()));
    assert_eq!(p.get("flag"), Some(&"".to_string()));
    assert_eq!(p.get("x"), Some(&"1=2".to_string()));
    assert_eq!(decode("%41%zz"), "A%zz");
    assert_eq!(decode("%FF"), "%FF");
    assert_eq!(or_raw("raw", None), "raw");
    assert_eq!(or_raw("raw", Some("d".to_string())), "d");
    assert!(RequestInfo::parse_query_params("/plain").is_empty());
}

#[test]
fn unprintable_header_values_are_skipped() {
    assert_eq!(printable_text(&b"a b".to_vec()), Some("a b".to_string()));
    assert_eq!(printable_text(&vec![0xE9]), None);
    let fields = vec![
        ("Host".to_string(), b"x".to_vec()),
        ("x-bin".to_string(), vec![0x80]),
    ];
    let map = RequestInfo::build_headers(&fields);
    assert_eq!(map.len(), 1);
}

#[test]
fn cache_keys_differ_where_requests_do() {
    let a = RequestInfo::new("GET", "/x", "a").cache_key();
    let b = RequestInfo::new("GET", "/x", "b").cache_key();
    let c = RequestInfo::new("POST", "/x", "a").cache_key();
    assert_ne!(a, b);
    assert_ne!(a, c);
    assert_eq!(a, RequestInfo::new("GET", "/x", "a").cache_key());
}

#[test]
fn cache_of_size_zero_keeps_nothing() {
    let mut cache = RouteCache::new(0);
    cache.insert("k".to_string(), "r".to_string());
    assert_eq!(cache.len(), 0);
    assert_eq!(cache.get("k"), None);

    let routes = vec![create_test_route("all", vec![])];
    let mut matcher = RouteMatcher::with_cache_size(routes, None, 0).unwrap();
    for _ in 0..3 {
        let hit = matcher.match_request(&get("/")).unwrap();
        assert_eq!(hit.route_id.as_str(), "all");
    }
}

#[test]
fn path_decides_before_host_and_the_rest() {
    let regex = || create_test_route("regex", vec![MatchCondition::PathRegex("^/api/.*$".into())]);
    let root = || {
        create_test_route(
            "root-with-host",
            vec![
                MatchCondition::PathPrefix("/".into()),
                MatchCondition::Host("example.com".into()),
                MatchCondition::Method(vec!["GET".into()]),
            ],
        )
    };
    let prefix = || create_test_route("prefix", vec![MatchCondition::PathPrefix("/api".into())]);
    let exact = || create_test_route("exact", vec![MatchCondition::Path("/api/x".into())]);
    let winner = |routes: Vec<RouteConfig>| {
        let req = RequestInfo::new("GET", "/api/x", "example.com");
        let mut m = RouteMatcher::new(routes, None).unwrap();
        let live = m.match_request(&req).unwrap().route_id;
        assert_eq!(m.explain_request(&req).winner().unwrap().id.as_str(), live.as_str());
        live.as_str().to_string()
    };
    assert_eq!(winner(vec![root(), regex(), prefix(), exact()]), "exact");
    assert_eq!(winner(vec![root(), regex(), prefix()]), "prefix");
    assert_eq!(winner(vec![regex(), root()]), "root-with-host");
    assert_eq!(winner(vec![prefix(), root()]), "prefix");
    let long = || {
        create_test_route(
            "long",
            vec![MatchCondition::PathPrefix(format!("/{}", "a".repeat(10_000)))],
        )
    };
    let deep = || create_test_route("deep", vec![MatchCondition::Path(format!("/{}", "a".repeat(10_000)))]);
    let req_path = format!("/{}", "a".repeat(10_000));
    let mut m = RouteMatcher::new(vec![long(), deep()], None).unwrap();
    let req = RequestInfo::new("GET", &req_path, "example.com");
    assert_eq!(m.match_request(&req).unwrap().route_id.as_str(), "deep");
}

#[test]
fn host_decides_between_equal_paths() {
    let routes = vec![
        create_test_route(
            "methods",
            vec![
                MatchCondition::PathPrefix("/".into()),
                MatchCondition::Method(vec!["GET".into()]),
                MatchCondition::Header {
                    name: "x-a".into(),
                    value: None,
                },
            ],
        ),
        create_test_route(
            "host",
            vec![
                MatchCondition::PathPrefix("/".into()),
                MatchCondition::Host("example.com".into()),
            ],
        ),
    ];
    let mut headers = StringMap::new();
    headers.insert("x-a".to_string(), "1".to_string());
    let req = RequestInfo::new("GET", "/", "example.com").with_headers(headers);
    let mut m = RouteMatcher::new(routes, None).unwrap();
    assert_eq!(m.match_request(&req).unwrap().route_id.as_str(), "host");
}

#[test]
fn requests_that_differ_in_the_query_get_their_own_routes() {
    let routes = vec![
        create_test_route("plain", vec![MatchCondition::PathPrefix("/".into())]),
        create_test_route(
            "beta",
            vec![
                MatchCondition::PathPrefix("/".into()),
                MatchCondition::QueryParam {
                    name: "beta".into(),
                    value: Some("1".into()),
                },
            ],
        ),
    ];
    let mut m = RouteMatcher::new(routes, None).unwrap();
    let with = |q: &str| get("/x").with_query_params(parse_query_string(q));
    for (query, id) in [("beta=1", "beta"), ("", "plain"), ("beta=2", "plain"), ("beta=1", "beta")] {
        let req = with(query);
        assert_eq!(m.match_request(&req).unwrap().route_id.as_str(), id, "{query}");
        assert_eq!(m.explain_request(&req).winner().unwrap().id.as_str(), id, "{query}");
    }
    assert_ne!(with("beta=1").cache_key(), with("beta=2").cache_key());
    assert_ne!(with("a=b&c=d").cache_key(), with("a=b%26c%3Dd").cache_key());
}

#[test]
fn wildcard_hosts_match_by_whole_labels() {
    let matches = |pattern: &str, host: &str| {
        let routes = vec![create_test_route("r", vec![MatchCondition::Host(pattern.into())])];
        let mut m = RouteMatcher::new(routes, None).unwrap();
        let hit = m.match_request(&RequestInfo::new("GET", "/", host)).is_some();
        hit
    };
    for host in ["api.example.com", "api.example.com:8080", "a.b.example.com"] {
        assert!(matches("*.example.com", host), "{host}");
    }
    for host in ["example.com", "badexample.com", "example.com:8080", "api.example.org"] {
        assert!(!matches("*.example.com", host), "{host}");
    }
    assert!(matches("example.com", "example.com:443"));
    assert!(!matches("example.com", "api.example.com"));
    assert!(!matches("example.com:443", "example.com:443"));
}
