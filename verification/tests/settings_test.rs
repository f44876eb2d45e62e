use zentinel::nodes::{ConfigError, KdlNode, KdlValue};
use zentinel::server::{AcmeConfig, ListenerConfig, SniCertDir, TlsConfig, TlsVersion};
use zentinel::settings::{
    parse_acme_config, parse_listeners, parse_server_config, parse_tls_config,
};

fn value(v: &kdl::KdlValue) -> KdlValue {
    if let Some(s) = v.as_string() {
        KdlValue::Text(s.to_string())
    } else if let Some(i) = v.as_integer() {
        KdlValue::Integer(i)
    } else if let Some(b) = v.as_bool() {
        KdlValue::Bool(b)
    } else {
        KdlValue::Other
    }
}

fn node(n: &kdl::KdlNode) -> KdlNode {
    KdlNode {
        name: n.name().value().to_string(),
        entries: n.entries().iter().map(|e| value(e.value())).collect(),
        children: match n.children() {
            Some(d) => d.nodes().iter().map(node).collect(),
            None => vec![],
        },
    }
}

fn document(text: &str) -> Vec<KdlNode> {
    let doc: kdl::KdlDocument = text.parse().unwrap();
    doc.nodes().iter().map(node).collect()
}

fn parse(input: &str) -> Vec<ListenerConfig> {
    parse_result(input).unwrap()
}

#[test]
fn parses_listener_namespace_reference() {
    let listeners = parse(
        r#"
            listeners {
                listener "public" {
                    address "0.0.0.0:8080"
                }
                listener "admin" {
                    address "127.0.0.1:9000"
                    namespace "ops"
                }
            }
            "#,
    );

    let public = listeners.iter().find(|l| l.id == "public").unwrap();
    let admin = listeners.iter().find(|l| l.id == "admin").unwrap();

    assert_eq!(public.namespace, None);
    assert_eq!(admin.namespace, Some("ops".to_string()));
    assert_eq!(admin.address, "127.0.0.1:9000");
}

fn parse_result(input: &str) -> Result<Vec<ListenerConfig>, ConfigError> {
    parse_listeners(&document(input)[0])
}

fn tls_of(input: &str) -> TlsConfig {
    parse(input)
        .into_iter()
        .next()
        .unwrap()
        .tls
        .expect("listener has TLS")
}

#[test]
fn parses_combined_pem_certificate() {
    let tls = tls_of(
        r#"
            listeners {
                listener "https" {
                    address "0.0.0.0:443"
                    tls {
                        combined-file "/var/cpanel/ssl/apache_tls/example.com/combined"
                    }
                }
            }
            "#,
    );

    assert_eq!(
        tls.combined_file,
        Some("/var/cpanel/ssl/apache_tls/example.com/combined".to_string())
    );
    assert!(tls.cert_file.is_none() && tls.key_file.is_none());
}

#[test]
fn rejects_combined_file_alongside_split_files() {
    let err = parse_result(
        r#"
            listeners {
                listener "https" {
                    address "0.0.0.0:443"
                    tls {
                        cert-file "/etc/zentinel/edge.crt"
                        key-file "/etc/zentinel/edge.key"
                        combined-file "/var/cpanel/ssl/apache_tls/example.com/combined"
                    }
                }
            }
            "#,
    )
    .unwrap_err()
    .message;

    assert!(err.contains("combined-file"), "got: {err}");
}

#[test]
fn parses_sni_cert_dir_with_panel_defaults() {
    let tls = tls_of(
        r#"
            listeners {
                listener "https" {
                    address "0.0.0.0:443"
                    tls {
                        cert-file "/etc/zentinel/edge.crt"
                        key-file "/etc/zentinel/edge.key"
                        sni-cert-dir "/var/cpanel/ssl/apache_tls"
                    }
                }
            }
            "#,
    );

    assert_eq!(tls.sni_cert_dirs.len(), 1);
    let dir = &tls.sni_cert_dirs[0];
    assert_eq!(dir.path, "/var/cpanel/ssl/apache_tls");
    assert_eq!(dir.combined_name, "combined");
    assert!(dir.cert_name.is_none() && dir.key_name.is_none());
}

#[test]
fn parses_sni_cert_dir_with_split_layout() {
    let tls = tls_of(
        r#"
            listeners {
                listener "https" {
                    address "0.0.0.0:443"
                    tls {
                        cert-file "/etc/zentinel/edge.crt"
                        key-file "/etc/zentinel/edge.key"
                        sni-cert-dir "/etc/panel/certs" {
                            cert-file "fullchain.pem"
                            key-file "privkey.pem"
                        }
                    }
                }
            }
            "#,
    );

    let dir = &tls.sni_cert_dirs[0];
    assert_eq!(dir.cert_name.as_deref(), Some("fullchain.pem"));
    assert_eq!(dir.key_name.as_deref(), Some("privkey.pem"));
}

#[test]
fn rejects_half_specified_split_cert_dir() {
    let err = parse_result(
        r#"
            listeners {
                listener "https" {
                    address "0.0.0.0:443"
                    tls {
                        cert-file "/etc/zentinel/edge.crt"
                        key-file "/etc/zentinel/edge.key"
                        sni-cert-dir "/etc/panel/certs" {
                            cert-file "fullchain.pem"
                        }
                    }
                }
            }
            "#,
    )
    .unwrap_err()
    .message;

    assert!(err.contains("only one of"), "got: {err}");
}

#[test]
fn parses_sni_certificate_from_combined_pem() {
    let tls = tls_of(
        r#"
            listeners {
                listener "https" {
                    address "0.0.0.0:443"
                    tls {
                        cert-file "/etc/zentinel/edge.crt"
                        key-file "/etc/zentinel/edge.key"
                        sni {
                            combined-file "/var/cpanel/ssl/apache_tls/shop.example.com/combined"
                        }
                    }
                }
            }
            "#,
    );

    let sni = &tls.additional_certs[0];
    assert!(sni.combined_file.is_some());
    assert!(sni.cert_file.is_none());
    // No hostnames listed: they come from the certificate's CN/SAN, which
    // is what lets the panel add domains without a config edit.
    assert!(sni.hostnames.is_empty());
}

#[test]
fn rejects_sni_certificate_with_combined_and_acme() {
    let err = parse_result(
        r#"
            listeners {
                listener "https" {
                    address "0.0.0.0:443"
                    tls {
                        cert-file "/etc/zentinel/edge.crt"
                        key-file "/etc/zentinel/edge.key"
                        sni {
                            combined-file "/var/cpanel/ssl/apache_tls/shop.example.com/combined"
                            acme {
                                email "admin@example.com"
                                domains "shop.example.com"
                            }
                        }
                    }
                }
            }
            "#,
    )
    .unwrap_err()
    .message;

    assert!(err.contains("combined-file"), "got: {err}");
}

#[test]
fn parses_proxy_protocol_block() {
    let listeners = parse(
        r#"
            listeners {
                listener "behind-lb" {
                    address "0.0.0.0:8080"
                    proxy-protocol {
                        trusted "10.0.0.0/8" "192.168.0.0/16"
                        header-timeout-ms 500
                    }
                }
                listener "direct" {
                    address "0.0.0.0:8081"
                }
            }
            "#,
    );

    let lb = listeners.iter().find(|l| l.id == "behind-lb").unwrap();
    let pp = lb.proxy_protocol.as_ref().unwrap();
    assert_eq!(pp.trusted, vec!["10.0.0.0/8", "192.168.0.0/16"]);
    assert_eq!(pp.header_timeout_ms, 500);

    let direct = listeners.iter().find(|l| l.id == "direct").unwrap();
    assert!(direct.proxy_protocol.is_none());
}

#[test]
fn proxy_protocol_timeout_defaults_when_omitted() {
    let listeners = parse(
        r#"
            listeners {
                listener "lb" {
                    address "0.0.0.0:8080"
                    proxy-protocol {
                        trusted "10.0.0.0/8"
                    }
                }
            }
            "#,
    );
    let pp = listeners[0].proxy_protocol.as_ref().unwrap();
    assert_eq!(pp.header_timeout_ms, 2000);
}

#[test]
fn proxy_protocol_without_trusted_is_rejected() {
    let err = parse_result(
        r#"
            listeners {
                listener "lb" {
                    address "0.0.0.0:8080"
                    proxy-protocol {
                        header-timeout-ms 500
                    }
                }
            }
            "#,
    )
    .unwrap_err();
    assert!(err.message.contains("at least one 'trusted' CIDR"));
}

#[test]
fn proxy_protocol_with_invalid_cidr_is_rejected() {
    let err = parse_result(
        r#"
            listeners {
                listener "lb" {
                    address "0.0.0.0:8080"
                    proxy-protocol {
                        trusted "10.0.0.0"
                    }
                }
            }
            "#,
    )
    .unwrap_err();
    assert!(err.message.contains("invalid trusted CIDR '10.0.0.0'"));
}

#[test]
fn proxy_protocol_zero_timeout_is_rejected() {
    let err = parse_result(
        r#"
            listeners {
                listener "lb" {
                    address "0.0.0.0:8080"
                    proxy-protocol {
                        trusted "10.0.0.0/8"
                        header-timeout-ms 0
                    }
                }
            }
            "#,
    )
    .unwrap_err();
    assert!(err.message.contains("must be greater than 0"));
}

fn server(text: &str) -> zentinel::server::ServerConfig {
    parse_server_config(&document(text)[0]).unwrap()
}

#[test]
fn server_settings_have_defaults() {
    let c = server("system { worker-threads 4 }");
    assert_eq!(c.worker_threads, 4);
    assert_eq!(c.max_connections, 10000);
    assert_eq!(c.graceful_shutdown_timeout_secs, 30);
    assert_eq!(c.route_cache_size, 1000);
    assert!(!c.daemon);
    assert_eq!(c.user, None);
}

#[test]
fn listener_needs_an_id_and_an_address() {
    assert!(parse_result("listeners { listener { address \"0.0.0.0:80\" } }").is_err());
    assert!(parse_result("listeners { listener \"a\" { protocol \"http\" } }").is_err());
}

fn acme(text: &str) -> Result<AcmeConfig, ConfigError> {
    parse_acme_config(&document(text)[0], "edge")
}

#[test]
fn acme_needs_email_and_domains() {
    assert!(acme("acme { domains \"a.example.com\" }").is_err());
    assert!(acme("acme { email \"x@example.com\" }").is_err());
    let c = acme("acme { email \"x@example.com\"; domains \"a.example.com\" \"b.example.com\" }")
        .unwrap();
    assert_eq!(c.domains, vec!["a.example.com", "b.example.com"]);
    assert_eq!(c.renew_before_days, 30);
    assert!(c.challenge_type.is_http01());
}

#[test]
fn wildcard_domains_need_the_dns_challenge() {
    let err = acme("acme { email \"x@example.com\"; domains \"*.example.com\" }").unwrap_err();
    assert_eq!(
        err.message,
        "ACME configuration for listener 'edge' has wildcard domain(s) but uses HTTP-01 challenge. Wildcard domains require 'challenge-type \"dns-01\"'"
    );
}

#[test]
fn tls_without_a_certificate_source_is_rejected() {
    assert!(parse_tls_config(&document("tls { min-version \"1.3\" }")[0], "edge").is_err());
    let c = parse_tls_config(
        &document("tls { cert-file \"/c\"; key-file \"/k\"; min-version \"TLSv1.3\" }")[0],
        "edge",
    )
    .unwrap();
    assert_eq!(c.min_version, TlsVersion::Tls13);
    assert!(c.session_resumption);
}

#[test]
fn first_of_equal_nodes_is_read() {
    let n = document("a { b \"one\"; b \"two\"; c 3; d #true }").remove(0);
    assert_eq!(n.string_entry("b"), Some("one".to_string()));
    assert_eq!(n.strings_named("b"), vec!["one", "two"]);
    assert_eq!(n.int_entry("c"), Some(3));
    assert_eq!(n.bool_entry("d"), Some(true));
    assert_eq!(n.u32_or("missing", 7), 7);
    assert!(n.child("missing").is_none());
}

#[test]
fn certificate_files_are_found_by_layout() {
    let mut dir = SniCertDir {
        path: "/var/cpanel/ssl/apache_tls".to_string(),
        combined_name: "combined".to_string(),
        cert_name: Some("fullchain.pem".to_string()),
        key_name: Some("privkey.pem".to_string()),
    };
    assert_eq!(dir.names(), ("fullchain.pem", "privkey.pem"));
    assert_eq!(
        dir.paths_for(true, true),
        Some(("fullchain.pem", "privkey.pem"))
    );
    assert_eq!(dir.paths_for(true, false), None);
    assert_eq!(dir.paths_for(false, true), None);

    // With one name missing the combined layout applies.
    dir.key_name = None;
    assert_eq!(dir.paths_for(true, true), Some(("combined", "combined")));
    assert_eq!(dir.paths_for(false, false), None);
}
