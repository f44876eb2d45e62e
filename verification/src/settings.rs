//! Server and listener settings from parsed KDL.

use crate::net;
use crate::net::Cidr;
use crate::nodes;
use crate::nodes::{ConfigError, KdlNode, KdlValue};
use crate::server;
use crate::server::{
    AcmeChallengeType, AcmeConfig, AcmeKeyType, DnsProviderConfig, DnsProviderType,
    ExternalAccountBinding, ListenerConfig, ListenerProtocol, PropagationCheckConfig,
    ProxyProtocolConfig, ServerConfig, SniCertDir, SniCertificate, TlsConfig, TlsVersion,
    TraceIdFormat,
};
use crate::text;
use vstd::prelude::*;
use vstd::string::*;

verus! {

fn error3(a: &str, b: &str, c: &str) -> (r: ConfigError)
    ensures
        r@ == a@ + b@ + c@,
{
    let mut m = a.to_owned();
    m.append(b);
    m.append(c);
    ConfigError { message: m }
}

fn error5(a: &str, b: &str, c: &str, d: &str, e: &str) -> (r: ConfigError)
    ensures
        r@ == a@ + b@ + c@ + d@ + e@,
{
    let mut m = a.to_owned();
    m.append(b);
    m.append(c);
    m.append(d);
    m.append(e);
    ConfigError { message: m }
}

// ---------------------------------------------------------------------------
// Server
// ---------------------------------------------------------------------------

/// 2^64.
pub open spec fn two_64() -> int {
    0x1_0000_0000_0000_0000
}

/// 2^32.
pub open spec fn two_32() -> int {
    0x1_0000_0000
}

/// The settings are those of a node.
pub open spec fn server_of(c: ServerConfig, n: KdlNode) -> bool {
    &&& c.worker_threads == nodes::low_bits_or(n, "worker-threads"@, usize::MAX + 1, 0)
    &&& c.max_connections == nodes::low_bits_or(n, "max-connections"@, usize::MAX + 1, 10000)
    &&& c.graceful_shutdown_timeout_secs == nodes::low_bits_or(
        n,
        "graceful-shutdown-timeout-secs"@,
        two_64(),
        30,
    )
    &&& c.daemon == nodes::bool_or(n, "daemon"@, false)
    &&& c.pid_file.deep_view() == nodes::text_entry(n, "pid-file"@)
    &&& c.user.deep_view() == nodes::text_entry(n, "user"@)
    &&& c.group.deep_view() == nodes::text_entry(n, "group"@)
    &&& c.working_directory.deep_view() == nodes::text_entry(n, "working-directory"@)
    &&& c.trace_id_format == (match nodes::text_entry(n, "trace-id-format"@) {
        Some(s) => server::trace_format_of(text::lowercase(s)),
        None => TraceIdFormat::TinyFlake,
    })
    &&& c.auto_reload == nodes::bool_or(n, "auto-reload"@, false)
    &&& c.route_cache_size == nodes::low_bits_or(n, "route-cache-size"@, usize::MAX + 1, 1000)
}

/// Server-wide settings. Whatever is missing or of another type gets its default.
pub fn parse_server_config(node: &KdlNode) -> (r: Result<ServerConfig, ConfigError>)
    ensures
        r matches Ok(c) && server_of(c, *node),
{
    let trace_id_format = match node.string_entry("trace-id-format") {
        Some(s) => TraceIdFormat::from_str_loose(s.as_str()),
        None => TraceIdFormat::TinyFlake,
    };
    Ok(
        ServerConfig {
            worker_threads: node.usize_or("worker-threads", server::default_worker_threads()),
            max_connections: node.usize_or("max-connections", server::default_max_connections()),
            graceful_shutdown_timeout_secs: node.u64_or(
                "graceful-shutdown-timeout-secs",
                server::default_graceful_shutdown_timeout(),
            ),
            daemon: node.bool_or("daemon", false),
            pid_file: node.string_entry("pid-file"),
            user: node.string_entry("user"),
            group: node.string_entry("group"),
            working_directory: node.string_entry("working-directory"),
            trace_id_format,
            auto_reload: node.bool_or("auto-reload", false),
            route_cache_size: node.usize_or(
                "route-cache-size",
                server::default_route_cache_size(),
            ),
        },
    )
}

// ---------------------------------------------------------------------------
// PROXY protocol
// ---------------------------------------------------------------------------

/// The first text from `from` on that is no CIDR block, or the length.
pub open spec fn first_bad_block(blocks: Seq<Seq<char>>, from: int) -> int
    decreases blocks.len() - from,
{
    if from < 0 || from >= blocks.len() || net::parse_block(blocks[from]) is Err {
        from
    } else {
        first_bad_block(blocks, from + 1)
    }
}

/// The deadline for a header, in milliseconds.
pub open spec fn header_timeout(n: KdlNode) -> int {
    nodes::low_bits_or(n, "header-timeout-ms"@, two_64(), 2000)
}

/// What is wrong with PROXY protocol settings.
pub open spec fn proxy_protocol_error(n: KdlNode, id: Seq<char>) -> Option<Seq<char>> {
    let trusted = nodes::texts_named(n.children@, "trusted"@);
    let k = first_bad_block(trusted, 0);
    if trusted.len() == 0 {
        Some(
            "proxy-protocol on listener '"@ + id
                + "' requires at least one 'trusted' CIDR (headers from untrusted sources would let any client spoof its address; use \"0.0.0.0/0\" to explicitly trust everything)"@,
        )
    } else if k < trusted.len() {
        Some(
            "proxy-protocol on listener '"@ + id + "': invalid trusted CIDR '"@ + trusted[k]
                + "': "@ + net::cidr_fault_text(net::parse_block(trusted[k])->Err_0),
        )
    } else if header_timeout(n) == 0 {
        Some(
            "proxy-protocol on listener '"@ + id
                + "': header-timeout-ms must be greater than 0"@,
        )
    } else {
        None
    }
}

/// The settings are those of a node.
pub open spec fn proxy_protocol_of(c: ProxyProtocolConfig, n: KdlNode) -> bool {
    c.trusted.deep_view() == nodes::texts_named(n.children@, "trusted"@) && c.header_timeout_ms
        == header_timeout(n)
}

/// PROXY protocol acceptance: at least one valid trusted block, and a deadline.
pub fn parse_proxy_protocol_config(node: &KdlNode, listener_id: &str) -> (r: Result<
    ProxyProtocolConfig,
    ConfigError,
>)
    ensures
        (match r {
            Ok(c) => proxy_protocol_error(*node, listener_id@) is None && proxy_protocol_of(
                c,
                *node,
            ),
            Err(e) => proxy_protocol_error(*node, listener_id@) == Some(e@),
        }),
{
    let trusted = node.strings_named("trusted");
    let ghost all = nodes::texts_named(node.children@, "trusted"@);
    if trusted.len() == 0 {
        return Err(
            error3(
                "proxy-protocol on listener '",
                listener_id,
                "' requires at least one 'trusted' CIDR (headers from untrusted sources would let any client spoof its address; use \"0.0.0.0/0\" to explicitly trust everything)",
            ),
        );
    }
    let mut i: usize = 0;
    while i < trusted.len()
        invariant
            i <= trusted@.len(),
            trusted@.len() > 0,
            all == nodes::texts_named(node.children@, "trusted"@),
            all == trusted.deep_view(),
            all.len() == trusted@.len(),
            first_bad_block(all, 0) == first_bad_block(all, i as int),
        decreases trusted.len() - i,
    {
        assert(all[i as int] == trusted@[i as int]@);
        match Cidr::parse(trusted[i].as_str()) {
            Ok(_) => {},
            Err(e) => {
                let m = e.message();
                let mut t = error5(
                    "proxy-protocol on listener '",
                    listener_id,
                    "': invalid trusted CIDR '",
                    trusted[i].as_str(),
                    "': ",
                );
                t.message.append(m.as_str());
                return Err(t);
            },
        }
        i = i + 1;
    }
    let header_timeout_ms = node.u64_or(
        "header-timeout-ms",
        server::default_proxy_protocol_header_timeout_ms(),
    );
    if header_timeout_ms == 0 {
        return Err(
            error3(
                "proxy-protocol on listener '",
                listener_id,
                "': header-timeout-ms must be greater than 0",
            ),
        );
    }
    Ok(ProxyProtocolConfig { trusted, header_timeout_ms })
}

// ---------------------------------------------------------------------------
// ACME
// ---------------------------------------------------------------------------

/// The challenge that a lower-case name stands for.
pub open spec fn challenge_of(lower: Seq<char>) -> AcmeChallengeType {
    if lower == "dns-01"@ || lower == "dns01"@ || lower == "dns"@ {
        AcmeChallengeType::Dns01
    } else {
        AcmeChallengeType::Http01
    }
}

fn parse_challenge_type(s: &str) -> (r: AcmeChallengeType)
    ensures
        r == challenge_of(text::lowercase(s@)),
{
    let lower = text::lower(s);
    if text::same(lower.as_str(), "dns-01") || text::same(lower.as_str(), "dns01") || text::same(
        lower.as_str(),
        "dns",
    ) {
        AcmeChallengeType::Dns01
    } else {
        AcmeChallengeType::Http01
    }
}

/// What is wrong with a DNS provider.
pub open spec fn dns_provider_error(n: KdlNode, id: Seq<char>) -> Option<Seq<char>> {
    match nodes::text_entry(n, "type"@) {
        None => Some(
            "DNS provider configuration for listener '"@ + id + "' requires 'type'"@,
        ),
        Some(t) => {
            let kind = text::lowercase(t);
            if kind != "hetzner"@ && kind != "cloudflare"@ && kind != "webhook"@ {
                Some(
                    "Unknown DNS provider type '"@ + kind + "' for listener '"@ + id
                        + "'. Valid types: hetzner, webhook"@,
                )
            } else if kind == "webhook"@ && nodes::text_entry(n, "url"@) is None {
                Some("DNS provider 'webhook' for listener '"@ + id + "' requires 'url'"@)
            } else if nodes::text_entry(n, "credentials-file"@) is None && nodes::text_entry(
                n,
                "credentials-env"@,
            ) is None {
                Some(
                    "DNS provider configuration for listener '"@ + id
                        + "' requires either 'credentials-file' or 'credentials-env'"@,
                )
            } else {
                None
            }
        },
    }
}

/// The provider is the one of a node.
pub open spec fn provider_of(p: DnsProviderType, n: KdlNode, kind: Seq<char>) -> bool {
    if kind == "hetzner"@ {
        p is Hetzner
    } else if kind == "cloudflare"@ {
        p is Cloudflare
    } else {
        p matches DnsProviderType::Webhook { url, auth_header } && Some(url@)
            == nodes::text_entry(n, "url"@) && auth_header.deep_view() == nodes::text_entry(
            n,
            "auth-header"@,
        )
    }
}

/// The propagation check is that of a node, or the default without one.
pub open spec fn propagation_of(c: PropagationCheckConfig, n: Option<KdlNode>) -> bool {
    match n {
        Some(p) => {
            &&& c.initial_delay_secs == nodes::low_bits_or(
                p,
                "initial-delay-secs"@,
                two_64(),
                10,
            )
            &&& c.check_interval_secs == nodes::low_bits_or(
                p,
                "check-interval-secs"@,
                two_64(),
                5,
            )
            &&& c.timeout_secs == nodes::low_bits_or(p, "timeout-secs"@, two_64(), 120)
            &&& c.nameservers.deep_view() == nodes::texts_named(p.children@, "nameservers"@)
        },
        None => {
            &&& c.initial_delay_secs == 10
            &&& c.check_interval_secs == 5
            &&& c.timeout_secs == 120
            &&& c.nameservers@.len() == 0
        },
    }
}

/// The DNS provider settings are those of a node.
pub open spec fn dns_provider_of(c: DnsProviderConfig, n: KdlNode) -> bool {
    &&& nodes::text_entry(n, "type"@) matches Some(t) && provider_of(
        c.provider,
        n,
        text::lowercase(t),
    )
    &&& c.credentials_file.deep_view() == nodes::text_entry(n, "credentials-file"@)
    &&& c.credentials_env.deep_view() == nodes::text_entry(n, "credentials-env"@)
    &&& c.api_timeout_secs == nodes::low_bits_or(n, "api-timeout-secs"@, two_64(), 30)
    &&& propagation_of(c.propagation, nodes::child_of(n, "propagation"@))
}

fn parse_propagation_config(node: &KdlNode) -> (r: PropagationCheckConfig)
    ensures
        propagation_of(r, Some(*node)),
{
    PropagationCheckConfig {
        initial_delay_secs: node.u64_or(
            "initial-delay-secs",
            server::default_propagation_initial_delay(),
        ),
        check_interval_secs: node.u64_or(
            "check-interval-secs",
            server::default_propagation_check_interval(),
        ),
        timeout_secs: node.u64_or("timeout-secs", server::default_propagation_timeout()),
        nameservers: node.strings_named("nameservers"),
    }
}

fn parse_dns_provider_type(type_str: &str, node: &KdlNode, listener_id: &str) -> (r: Result<
    DnsProviderType,
    ConfigError,
>)
    requires
        nodes::text_entry(*node, "type"@) == Some(type_str@),
    ensures
        (match r {
            Ok(p) => provider_of(p, *node, text::lowercase(type_str@)) && (dns_provider_error(
                *node,
                listener_id@,
            ) is None || (nodes::text_entry(*node, "credentials-file"@) is None
                && nodes::text_entry(*node, "credentials-env"@) is None)) && (
            dns_provider_error(*node, listener_id@) is Some ==> dns_provider_error(
                *node,
                listener_id@,
            ) == Some(
                "DNS provider configuration for listener '"@ + listener_id@
                    + "' requires either 'credentials-file' or 'credentials-env'"@,
            )),
            Err(e) => dns_provider_error(*node, listener_id@) == Some(e@),
        }),
{
    let kind = text::lower(type_str);
    proof {
        reveal_strlit("hetzner");
        reveal_strlit("cloudflare");
        reveal_strlit("webhook");
        assert("hetzner"@[0] != "webhook"@[0]);
        assert("cloudflare"@.len() != "webhook"@.len());
        assert("cloudflare"@.len() != "hetzner"@.len());
    }
    if text::same(kind.as_str(), "hetzner") {
        Ok(DnsProviderType::Hetzner)
    } else if text::same(kind.as_str(), "cloudflare") {
        Ok(DnsProviderType::Cloudflare)
    } else if text::same(kind.as_str(), "webhook") {
        match node.string_entry("url") {
            Some(url) => Ok(
                DnsProviderType::Webhook { url, auth_header: node.string_entry("auth-header") },
            ),
            None => Err(
                error3(
                    "DNS provider 'webhook' for listener '",
                    listener_id,
                    "' requires 'url'",
                ),
            ),
        }
    } else {
        Err(
            error5(
                "Unknown DNS provider type '",
                kind.as_str(),
                "' for listener '",
                listener_id,
                "'. Valid types: hetzner, webhook",
            ),
        )
    }
}

fn parse_dns_provider_config(node: &KdlNode, listener_id: &str) -> (r: Result<
    DnsProviderConfig,
    ConfigError,
>)
    ensures
        (match r {
            Ok(c) => dns_provider_error(*node, listener_id@) is None && dns_provider_of(c, *node),
            Err(e) => dns_provider_error(*node, listener_id@) == Some(e@),
        }),
{
    let provider_type = match node.string_entry("type") {
        Some(t) => t,
        None => {
            return Err(
                error3(
                    "DNS provider configuration for listener '",
                    listener_id,
                    "' requires 'type'",
                ),
            );
        },
    };
    let provider = match parse_dns_provider_type(provider_type.as_str(), node, listener_id) {
        Ok(p) => p,
        Err(e) => {
            return Err(e);
        },
    };
    let credentials_file = node.string_entry("credentials-file");
    let credentials_env = node.string_entry("credentials-env");
    if credentials_file.is_none() && credentials_env.is_none() {
        return Err(
            error3(
                "DNS provider configuration for listener '",
                listener_id,
                "' requires either 'credentials-file' or 'credentials-env'",
            ),
        );
    }
    let api_timeout_secs = node.u64_or("api-timeout-secs", server::default_dns_api_timeout());
    let propagation = match node.child("propagation") {
        Some(p) => parse_propagation_config(p),
        None => PropagationCheckConfig::default(),
    };
    Ok(
        DnsProviderConfig {
            provider,
            credentials_file,
            credentials_env,
            api_timeout_secs,
            propagation,
        },
    )
}

/// What is wrong with an external account binding.
pub open spec fn eab_error(n: KdlNode) -> Option<Seq<char>> {
    if nodes::text_entry(n, "kid"@) is None {
        Some("ACME EAB configuration requires 'kid'"@)
    } else if nodes::text_entry(n, "hmac-key"@) is None {
        Some("ACME EAB configuration requires 'hmac-key'"@)
    } else {
        None
    }
}

/// The challenge that a node asks for.
pub open spec fn node_challenge(n: KdlNode) -> AcmeChallengeType {
    match nodes::text_entry(n, "challenge-type"@) {
        Some(s) => challenge_of(text::lowercase(s)),
        None => AcmeChallengeType::Http01,
    }
}

/// Some domain is a wildcard.
pub open spec fn has_wildcard(domains: Seq<Seq<char>>) -> bool {
    exists|i: int| 0 <= i < domains.len() && "*."@.is_prefix_of(#[trigger] domains[i])
}

/// What is wrong with the part of a child, if there is such a child.
pub open spec fn child_error(
    n: KdlNode,
    name: Seq<char>,
    error: spec_fn(KdlNode) -> Option<Seq<char>>,
) -> Option<Seq<char>> {
    match nodes::child_of(n, name) {
        Some(c) => error(c),
        None => None,
    }
}

/// What is wrong with an ACME block. Wildcards need DNS-01, which needs a
/// provider.
pub open spec fn acme_error(n: KdlNode, id: Seq<char>) -> Option<Seq<char>> {
    let domains = nodes::texts_named(n.children@, "domains"@);
    let eab = child_error(n, "eab"@, |c: KdlNode| eab_error(c));
    let dns = child_error(n, "dns-provider"@, |c: KdlNode| dns_provider_error(c, id));
    let key = nodes::text_entry(n, "key-type"@);
    let head = "ACME configuration for listener '"@ + id;
    if nodes::text_entry(n, "email"@) is None {
        Some(head + "' requires 'email'"@)
    } else if domains.len() == 0 {
        Some(head + "' requires at least one domain in 'domains'"@)
    } else if eab is Some {
        eab
    } else if key is Some && server::key_type_of(text::lowercase(key->0)) is None {
        Some(
            "Invalid key-type '"@ + key->0 + "' for listener '"@ + id
                + "'. Valid types: ecdsa-p256, ecdsa-p384"@,
        )
    } else if dns is Some {
        dns
    } else if node_challenge(n) is Dns01 && nodes::child_of(n, "dns-provider"@) is None {
        Some(head + "' uses DNS-01 challenge but no 'dns-provider' is configured"@)
    } else if has_wildcard(domains) && node_challenge(n) is Http01 {
        Some(
            head
                + "' has wildcard domain(s) but uses HTTP-01 challenge. Wildcard domains require 'challenge-type \"dns-01\"'"@,
        )
    } else {
        None
    }
}

/// The ACME settings are those of a node.
pub open spec fn acme_of(c: AcmeConfig, n: KdlNode) -> bool {
    &&& Some(c.email@) == nodes::text_entry(n, "email"@)
    &&& c.domains.deep_view() == nodes::texts_named(n.children@, "domains"@)
    &&& c.server_url.deep_view() == nodes::text_entry(n, "server-url"@)
    &&& c.staging == nodes::bool_or(n, "staging"@, false)
    &&& match nodes::child_of(n, "eab"@) {
        Some(e) => c.eab matches Some(x) && Some(x.kid@) == nodes::text_entry(e, "kid"@) && Some(
            x.hmac_key@,
        ) == nodes::text_entry(e, "hmac-key"@),
        None => c.eab is None,
    }
    &&& c.storage@ == (match nodes::text_entry(n, "storage"@) {
        Some(s) => s,
        None => "/var/lib/zentinel/acme"@,
    })
    &&& c.renew_before_days == nodes::low_bits_or(n, "renew-before-days"@, two_32(), 30)
    &&& c.challenge_type == node_challenge(n)
    &&& Some(c.key_type) == (match nodes::text_entry(n, "key-type"@) {
        Some(s) => server::key_type_of(text::lowercase(s)),
        None => Some(AcmeKeyType::EcdsaP256),
    })
    &&& match nodes::child_of(n, "dns-provider"@) {
        Some(d) => c.dns_provider matches Some(x) && dns_provider_of(x, d),
        None => c.dns_provider is None,
    }
}

fn parse_eab(node: &KdlNode) -> (r: Result<ExternalAccountBinding, ConfigError>)
    ensures
        (match r {
            Ok(x) => eab_error(*node) is None && Some(x.kid@) == nodes::text_entry(*node, "kid"@)
                && Some(x.hmac_key@) == nodes::text_entry(*node, "hmac-key"@),
            Err(e) => eab_error(*node) == Some(e@),
        }),
{
    let kid = match node.string_entry("kid") {
        Some(s) => s,
        None => {
            return Err(
                ConfigError { message: "ACME EAB configuration requires 'kid'".to_owned() },
            );
        },
    };
    let hmac_key = match node.string_entry("hmac-key") {
        Some(s) => s,
        None => {
            return Err(
                ConfigError { message: "ACME EAB configuration requires 'hmac-key'".to_owned() },
            );
        },
    };
    Ok(ExternalAccountBinding { kid, hmac_key })
}

fn any_wildcard(domains: &Vec<String>) -> (r: bool)
    ensures
        r == has_wildcard(domains.deep_view()),
{
    let mut i: usize = 0;
    while i < domains.len()
        invariant
            i <= domains@.len(),
            forall|k: int| 0 <= k < i ==> !"*."@.is_prefix_of(#[trigger] domains.deep_view()[k]),
        decreases domains.len() - i,
    {
        if text::starts_with(domains[i].as_str(), "*.") {
            assert("*."@.is_prefix_of(domains.deep_view()[i as int]));
            return true;
        }
        i = i + 1;
    }
    false
}

/// An ACME block.
pub fn parse_acme_config(node: &KdlNode, listener_id: &str) -> (r: Result<AcmeConfig, ConfigError>)
    ensures
        (match r {
            Ok(c) => acme_error(*node, listener_id@) is None && acme_of(c, *node),
            Err(e) => acme_error(*node, listener_id@) == Some(e@),
        }),
{
    let email = match node.string_entry("email") {
        Some(s) => s,
        None => {
            return Err(
                error3("ACME configuration for listener '", listener_id, "' requires 'email'"),
            );
        },
    };
    let domains = node.strings_named("domains");
    if domains.len() == 0 {
        return Err(
            error3(
                "ACME configuration for listener '",
                listener_id,
                "' requires at least one domain in 'domains'",
            ),
        );
    }
    let server_url = node.string_entry("server-url");
    let staging = node.bool_or("staging", false);
    let eab = match node.child("eab") {
        Some(c) => match parse_eab(c) {
            Ok(x) => Some(x),
            Err(e) => {
                return Err(e);
            },
        },
        None => None,
    };
    let storage = match node.string_entry("storage") {
        Some(s) => s,
        None => server::default_acme_storage(),
    };
    let renew_before_days = node.u32_or("renew-before-days", server::default_renewal_days());
    let challenge_type = match node.string_entry("challenge-type") {
        Some(s) => parse_challenge_type(s.as_str()),
        None => AcmeChallengeType::Http01,
    };
    let key_type = match node.string_entry("key-type") {
        Some(s) => match AcmeKeyType::from_str_loose(s.as_str()) {
            Some(k) => k,
            None => {
                return Err(
                    error5(
                        "Invalid key-type '",
                        s.as_str(),
                        "' for listener '",
                        listener_id,
                        "'. Valid types: ecdsa-p256, ecdsa-p384",
                    ),
                );
            },
        },
        None => AcmeKeyType::EcdsaP256,
    };
    let dns_provider = match node.child("dns-provider") {
        Some(c) => match parse_dns_provider_config(c, listener_id) {
            Ok(x) => Some(x),
            Err(e) => {
                return Err(e);
            },
        },
        None => None,
    };
    if challenge_type.is_dns01() && dns_provider.is_none() {
        return Err(
            error3(
                "ACME configuration for listener '",
                listener_id,
                "' uses DNS-01 challenge but no 'dns-provider' is configured",
            ),
        );
    }
    if any_wildcard(&domains) && !challenge_type.is_dns01() {
        return Err(
            error3(
                "ACME configuration for listener '",
                listener_id,
                "' has wildcard domain(s) but uses HTTP-01 challenge. Wildcard domains require 'challenge-type \"dns-01\"'",
            ),
        );
    }
    Ok(
        AcmeConfig {
            email,
            domains,
            server_url,
            staging,
            eab,
            storage,
            renew_before_days,
            challenge_type,
            key_type,
            dns_provider,
        },
    )
}

/// A usable ACME block with a wildcard domain uses DNS-01 and has a provider.
pub proof fn wildcard_needs_dns_challenge(n: KdlNode, id: Seq<char>)
    requires
        acme_error(n, id) is None,
        has_wildcard(nodes::texts_named(n.children@, "domains"@)),
    ensures
        node_challenge(n) is Dns01,
        nodes::child_of(n, "dns-provider"@) is Some,
{
}

// ---------------------------------------------------------------------------
// Certificates
// ---------------------------------------------------------------------------

/// What is wrong with an SNI certificate. It has one source: certificate and key
/// files, a combined file, or ACME.
pub open spec fn sni_error(n: KdlNode, id: Seq<char>) -> Option<Seq<char>> {
    let head = "SNI certificate for listener '"@ + id;
    let acme = child_error(n, "acme"@, |c: KdlNode| acme_error(c, id));
    let has_acme = nodes::child_of(n, "acme"@) is Some;
    let cert = nodes::text_entry(n, "cert-file"@) is Some;
    let key = nodes::text_entry(n, "key-file"@) is Some;
    let combined = nodes::text_entry(n, "combined-file"@) is Some;
    if nodes::texts_named(n.children@, "hostnames"@).len() > 0 && nodes::texts_named(
        n.children@,
        "priority-hostnames"@,
    ).len() > 0 {
        Some(
            head
                + "' cannot specify both 'hostnames' and 'priority-hostnames'. Use 'hostnames' for an explicit hostname list (no auto-extraction), or 'priority-hostnames' for priority tie-breaking with full SAN auto-extraction."@,
        )
    } else if acme is Some {
        acme
    } else if combined && (cert || key) {
        Some(
            head
                + "' sets 'combined-file' together with 'cert-file'/'key-file'. A combined PEM already carries the certificate, its chain, and the key — use one form or the other"@,
        )
    } else if combined && has_acme {
        Some(head + "' cannot specify both 'combined-file' and an 'acme' block"@)
    } else if !combined && has_acme && (cert || key) {
        Some(head + "' cannot specify both manual files and an 'acme' block"@)
    } else if !combined && !has_acme && !(cert && key) {
        Some(
            head
                + "' requires both 'cert-file' and 'key-file', a 'combined-file', or an 'acme' block"@,
        )
    } else {
        None
    }
}

/// The ACME settings are those of the `acme` child, if there is one.
pub open spec fn acme_child_of(c: Option<AcmeConfig>, n: KdlNode) -> bool {
    match nodes::child_of(n, "acme"@) {
        Some(a) => c matches Some(x) && acme_of(x, a),
        None => c is None,
    }
}

/// The SNI certificate is that of a node.
pub open spec fn sni_of(c: SniCertificate, n: KdlNode) -> bool {
    &&& c.hostnames.deep_view() == nodes::texts_named(n.children@, "hostnames"@)
    &&& c.priority_hostnames.deep_view() == nodes::texts_named(
        n.children@,
        "priority-hostnames"@,
    )
    &&& c.cert_file.deep_view() == nodes::text_entry(n, "cert-file"@)
    &&& c.key_file.deep_view() == nodes::text_entry(n, "key-file"@)
    &&& c.combined_file.deep_view() == nodes::text_entry(n, "combined-file"@)
    &&& acme_child_of(c.acme, n)
}

fn parse_acme_child(node: &KdlNode, listener_id: &str) -> (r: Result<
    Option<AcmeConfig>,
    ConfigError,
>)
    ensures
        ({
            let error = child_error(
                *node,
                "acme"@,
                |c: KdlNode| acme_error(c, listener_id@),
            );
            match r {
                Ok(c) => error is None && acme_child_of(c, *node),
                Err(e) => error == Some(e@),
            }
        }),
{
    match node.child("acme") {
        Some(c) => match parse_acme_config(c, listener_id) {
            Ok(x) => Ok(Some(x)),
            Err(e) => Err(e),
        },
        None => Ok(None),
    }
}

/// An SNI certificate.
pub fn parse_sni_certificate(node: &KdlNode, listener_id: &str) -> (r: Result<
    SniCertificate,
    ConfigError,
>)
    ensures
        (match r {
            Ok(c) => sni_error(*node, listener_id@) is None && sni_of(c, *node),
            Err(e) => sni_error(*node, listener_id@) == Some(e@),
        }),
{
    let hostnames = node.strings_named("hostnames");
    let priority_hostnames = node.strings_named("priority-hostnames");
    if hostnames.len() > 0 && priority_hostnames.len() > 0 {
        return Err(
            error3(
                "SNI certificate for listener '",
                listener_id,
                "' cannot specify both 'hostnames' and 'priority-hostnames'. Use 'hostnames' for an explicit hostname list (no auto-extraction), or 'priority-hostnames' for priority tie-breaking with full SAN auto-extraction.",
            ),
        );
    }
    let acme = match parse_acme_child(node, listener_id) {
        Ok(a) => a,
        Err(e) => {
            return Err(e);
        },
    };
    let cert_file = node.string_entry("cert-file");
    let key_file = node.string_entry("key-file");
    let combined_file = node.string_entry("combined-file");
    let manual = cert_file.is_some() || key_file.is_some();
    if combined_file.is_some() && manual {
        return Err(
            error3(
                "SNI certificate for listener '",
                listener_id,
                "' sets 'combined-file' together with 'cert-file'/'key-file'. A combined PEM already carries the certificate, its chain, and the key — use one form or the other",
            ),
        );
    }
    if combined_file.is_some() && acme.is_some() {
        return Err(
            error3(
                "SNI certificate for listener '",
                listener_id,
                "' cannot specify both 'combined-file' and an 'acme' block",
            ),
        );
    }
    if combined_file.is_none() {
        if acme.is_some() {
            if manual {
                return Err(
                    error3(
                        "SNI certificate for listener '",
                        listener_id,
                        "' cannot specify both manual files and an 'acme' block",
                    ),
                );
            }
        } else if cert_file.is_none() || key_file.is_none() {
            return Err(
                error3(
                    "SNI certificate for listener '",
                    listener_id,
                    "' requires both 'cert-file' and 'key-file', a 'combined-file', or an 'acme' block",
                ),
            );
        }
    }
    Ok(
        SniCertificate {
            hostnames,
            priority_hostnames,
            cert_file,
            key_file,
            combined_file,
            acme,
        },
    )
}

/// What is wrong with a certificate directory.
pub open spec fn cert_dir_error(n: KdlNode, id: Seq<char>) -> Option<Seq<char>> {
    match nodes::first_text(n) {
        None => Some(
            "sni-cert-dir for listener '"@ + id
                + "' requires a directory path, e.g. sni-cert-dir \"/var/cpanel/ssl/apache_tls\""@,
        ),
        Some(path) => if nodes::text_entry(n, "cert-file"@) is Some != nodes::text_entry(
            n,
            "key-file"@,
        ) is Some {
            Some(
                "sni-cert-dir '"@ + path + "' for listener '"@ + id
                    + "' sets only one of 'cert-file'/'key-file'. Split layouts need both; omit both to use the combined-PEM layout"@,
            )
        } else {
            None
        },
    }
}

/// The certificate directory is that of a node.
pub open spec fn cert_dir_of(c: SniCertDir, n: KdlNode) -> bool {
    &&& Some(c.path@) == nodes::first_text(n)
    &&& c.combined_name@ == (match nodes::text_entry(n, "combined-file"@) {
        Some(s) => s,
        None => "combined"@,
    })
    &&& c.cert_name.deep_view() == nodes::text_entry(n, "cert-file"@)
    &&& c.key_name.deep_view() == nodes::text_entry(n, "key-file"@)
}

/// A certificate directory.
pub fn parse_sni_cert_dir(node: &KdlNode, listener_id: &str) -> (r: Result<SniCertDir, ConfigError>)
    ensures
        (match r {
            Ok(c) => cert_dir_error(*node, listener_id@) is None && cert_dir_of(c, *node),
            Err(e) => cert_dir_error(*node, listener_id@) == Some(e@),
        }),
{
    let path = match node.first_arg_string() {
        Some(s) => s,
        None => {
            return Err(
                error3(
                    "sni-cert-dir for listener '",
                    listener_id,
                    "' requires a directory path, e.g. sni-cert-dir \"/var/cpanel/ssl/apache_tls\"",
                ),
            );
        },
    };
    let cert_name = node.string_entry("cert-file");
    let key_name = node.string_entry("key-file");
    if cert_name.is_some() != key_name.is_some() {
        return Err(
            error5(
                "sni-cert-dir '",
                path.as_str(),
                "' for listener '",
                listener_id,
                "' sets only one of 'cert-file'/'key-file'. Split layouts need both; omit both to use the combined-PEM layout",
            ),
        );
    }
    let combined_name = match node.string_entry("combined-file") {
        Some(s) => s,
        None => server::default_combined_file_name(),
    };
    Ok(SniCertDir { path, combined_name, cert_name, key_name })
}

// ---------------------------------------------------------------------------
// TLS
// ---------------------------------------------------------------------------

/// The version that a lower-case name stands for; anything unknown is TLS 1.2.
pub open spec fn version_of(lower: Seq<char>) -> TlsVersion {
    if lower == "1.3"@ || lower == "tls1.3"@ || lower == "tlsv1.3"@ {
        TlsVersion::Tls13
    } else {
        TlsVersion::Tls12
    }
}

fn parse_tls_version(s: &str) -> (r: TlsVersion)
    ensures
        r == version_of(text::lowercase(s@)),
{
    let lower = text::lower(s);
    if text::same(lower.as_str(), "1.3") || text::same(lower.as_str(), "tls1.3") || text::same(
        lower.as_str(),
        "tlsv1.3",
    ) {
        TlsVersion::Tls13
    } else {
        TlsVersion::Tls12
    }
}

/// The children with a name, in order.
pub open spec fn named(nodes: Seq<KdlNode>, name: Seq<char>) -> Seq<KdlNode>
    decreases nodes.len(),
{
    if nodes.len() == 0 {
        Seq::empty()
    } else {
        let rest = named(nodes.drop_last(), name);
        if nodes.last().name@ == name {
            rest.push(nodes.last())
        } else {
            rest
        }
    }
}

/// What is wrong with the first of some nodes that is wrong.
pub open spec fn first_error(
    nodes: Seq<KdlNode>,
    error: spec_fn(KdlNode) -> Option<Seq<char>>,
) -> Option<Seq<char>>
    decreases nodes.len(),
{
    if nodes.len() == 0 {
        None
    } else {
        match first_error(nodes.drop_last(), error) {
            Some(e) => Some(e),
            None => error(nodes.last()),
        }
    }
}

proof fn lemma_first_error(
    nodes: Seq<KdlNode>,
    error: spec_fn(KdlNode) -> Option<Seq<char>>,
    n: int,
)
    requires
        0 <= n <= nodes.len(),
        first_error(nodes.take(n), error) is Some,
    ensures
        first_error(nodes, error) == first_error(nodes.take(n), error),
    decreases nodes.len(),
{
    if n == nodes.len() {
        assert(nodes.take(n) =~= nodes);
    } else {
        assert(nodes.drop_last().take(n) =~= nodes.take(n));
        lemma_first_error(nodes.drop_last(), error, n);
    }
}

proof fn lemma_named_step(nodes: Seq<KdlNode>, name: Seq<char>, i: int)
    requires
        0 <= i < nodes.len(),
    ensures
        named(nodes.take(i + 1), name) == (if nodes[i].name@ == name {
            named(nodes.take(i), name).push(nodes[i])
        } else {
            named(nodes.take(i), name)
        }),
{
    assert(nodes.take(i + 1).drop_last() =~= nodes.take(i));
    assert(nodes.take(i + 1).last() == nodes[i]);
}

proof fn lemma_named_prefix(nodes: Seq<KdlNode>, name: Seq<char>, i: int)
    requires
        0 <= i <= nodes.len(),
    ensures
        named(nodes.take(i), name).is_prefix_of(named(nodes, name)),
    decreases nodes.len(),
{
    if i == nodes.len() {
        assert(nodes.take(i) =~= nodes);
    } else {
        assert(nodes.drop_last().take(i) =~= nodes.take(i));
        lemma_named_prefix(nodes.drop_last(), name, i);
    }
}

proof fn lemma_error_in_prefix(
    nodes: Seq<KdlNode>,
    name: Seq<char>,
    error: spec_fn(KdlNode) -> Option<Seq<char>>,
    i: int,
)
    requires
        0 <= i <= nodes.len(),
        first_error(named(nodes.take(i), name), error) is Some,
    ensures
        first_error(named(nodes, name), error) == first_error(named(nodes.take(i), name), error),
{
    lemma_named_prefix(nodes, name, i);
    let all = named(nodes, name);
    let part = named(nodes.take(i), name);
    assert(part =~= all.take(part.len() as int));
    lemma_first_error(all, error, part.len() as int);
}

/// The certificates are those of some nodes, one by one.
pub open spec fn snis_of(cs: Seq<SniCertificate>, nodes: Seq<KdlNode>) -> bool {
    cs.len() == nodes.len() && forall|i: int| 0 <= i < cs.len() ==> sni_of(#[trigger] cs[i], nodes[i])
}

/// The certificate directories are those of some nodes, one by one.
pub open spec fn cert_dirs_of(cs: Seq<SniCertDir>, nodes: Seq<KdlNode>) -> bool {
    cs.len() == nodes.len() && forall|i: int|
        0 <= i < cs.len() ==> cert_dir_of(#[trigger] cs[i], nodes[i])
}

fn parse_snis(node: &KdlNode, listener_id: &str) -> (r: Result<Vec<SniCertificate>, ConfigError>)
    ensures
        ({
            let list = named(node.children@, "sni"@);
            let error = first_error(list, |c: KdlNode| sni_error(c, listener_id@));
            match r {
                Ok(cs) => error is None && snis_of(cs@, list),
                Err(e) => error == Some(e@),
            }
        }),
{
    let ghost all = node.children@;
    let ghost f = |c: KdlNode| sni_error(c, listener_id@);
    let mut out: Vec<SniCertificate> = Vec::new();
    let mut i: usize = 0;
    while i < node.children.len()
        invariant
            i <= node.children@.len(),
            all == node.children@,
            f == (|c: KdlNode| sni_error(c, listener_id@)),
            first_error(named(all.take(i as int), "sni"@), f) is None,
            snis_of(out@, named(all.take(i as int), "sni"@)),
        decreases node.children.len() - i,
    {
        let c = &node.children[i];
        let ghost before = named(all.take(i as int), "sni"@);
        proof {
            lemma_named_step(all, "sni"@, i as int);
            assert(before.push(*c).drop_last() =~= before);
        }
        if text::same(c.name.as_str(), "sni") {
            match parse_sni_certificate(c, listener_id) {
                Ok(x) => {
                    out.push(x);
                },
                Err(e) => {
                    proof {
                        assert(first_error(before.push(*c), f) == Some(e@));
                        lemma_error_in_prefix(all, "sni"@, f, i + 1);
                    }
                    return Err(e);
                },
            }
        }
        i = i + 1;
    }
    assert(all.take(i as int) =~= all);
    Ok(out)
}

fn parse_cert_dirs(node: &KdlNode, listener_id: &str) -> (r: Result<Vec<SniCertDir>, ConfigError>)
    ensures
        ({
            let list = named(node.children@, "sni-cert-dir"@);
            let error = first_error(list, |c: KdlNode| cert_dir_error(c, listener_id@));
            match r {
                Ok(cs) => error is None && cert_dirs_of(cs@, list),
                Err(e) => error == Some(e@),
            }
        }),
{
    let ghost all = node.children@;
    let ghost f = |c: KdlNode| cert_dir_error(c, listener_id@);
    let mut out: Vec<SniCertDir> = Vec::new();
    let mut i: usize = 0;
    while i < node.children.len()
        invariant
            i <= node.children@.len(),
            all == node.children@,
            f == (|c: KdlNode| cert_dir_error(c, listener_id@)),
            first_error(named(all.take(i as int), "sni-cert-dir"@), f) is None,
            cert_dirs_of(out@, named(all.take(i as int), "sni-cert-dir"@)),
        decreases node.children.len() - i,
    {
        let c = &node.children[i];
        let ghost before = named(all.take(i as int), "sni-cert-dir"@);
        proof {
            lemma_named_step(all, "sni-cert-dir"@, i as int);
            assert(before.push(*c).drop_last() =~= before);
        }
        if text::same(c.name.as_str(), "sni-cert-dir") {
            match parse_sni_cert_dir(c, listener_id) {
                Ok(x) => {
                    out.push(x);
                },
                Err(e) => {
                    proof {
                        assert(first_error(before.push(*c), f) == Some(e@));
                        lemma_error_in_prefix(all, "sni-cert-dir"@, f, i + 1);
                    }
                    return Err(e);
                },
            }
        }
        i = i + 1;
    }
    assert(all.take(i as int) =~= all);
    Ok(out)
}

/// What is wrong with TLS settings. They have certificate and key files, a
/// combined file, or ACME.
pub open spec fn tls_error(n: KdlNode, id: Seq<char>) -> Option<Seq<char>> {
    let acme = child_error(n, "acme"@, |c: KdlNode| acme_error(c, id));
    let has_acme = nodes::child_of(n, "acme"@) is Some;
    let cert = nodes::text_entry(n, "cert-file"@) is Some;
    let key = nodes::text_entry(n, "key-file"@) is Some;
    let combined = nodes::text_entry(n, "combined-file"@) is Some;
    let sni = first_error(named(n.children@, "sni"@), |c: KdlNode| sni_error(c, id));
    let head = "TLS configuration for listener '"@ + id;
    if acme is Some {
        acme
    } else if combined && (cert || key) {
        Some(
            head
                + "' sets 'combined-file' together with 'cert-file'/'key-file'. A combined PEM already carries the certificate, its chain, and the key — use one form or the other"@,
        )
    } else if !has_acme && !combined && !(cert && key) {
        Some(
            head
                + "' requires either 'cert-file' and 'key-file', a 'combined-file', or an 'acme' block"@,
        )
    } else if sni is Some {
        sni
    } else {
        first_error(named(n.children@, "sni-cert-dir"@), |c: KdlNode| cert_dir_error(c, id))
    }
}

/// The TLS settings are those of a node.
pub open spec fn tls_of(c: TlsConfig, n: KdlNode) -> bool {
    &&& c.cert_file.deep_view() == nodes::text_entry(n, "cert-file"@)
    &&& c.key_file.deep_view() == nodes::text_entry(n, "key-file"@)
    &&& c.combined_file.deep_view() == nodes::text_entry(n, "combined-file"@)
    &&& snis_of(c.additional_certs@, named(n.children@, "sni"@))
    &&& cert_dirs_of(c.sni_cert_dirs@, named(n.children@, "sni-cert-dir"@))
    &&& c.ca_file.deep_view() == nodes::text_entry(n, "ca-file"@)
    &&& c.min_version == (match nodes::text_entry(n, "min-version"@) {
        Some(s) => version_of(text::lowercase(s)),
        None => TlsVersion::Tls12,
    })
    &&& c.max_version == (match nodes::text_entry(n, "max-version"@) {
        Some(s) => Some(version_of(text::lowercase(s))),
        None => None,
    })
    &&& c.cipher_suites.deep_view() == nodes::first_texts_named(n.children@, "cipher-suite"@)
    &&& c.client_auth == nodes::bool_or(n, "client-auth"@, false)
    &&& c.ocsp_stapling == nodes::bool_or(n, "ocsp-stapling"@, true)
    &&& c.session_resumption == nodes::bool_or(n, "session-resumption"@, true)
    &&& acme_child_of(c.acme, n)
}

/// TLS settings of a listener.
pub fn parse_tls_config(node: &KdlNode, listener_id: &str) -> (r: Result<TlsConfig, ConfigError>)
    ensures
        (match r {
            Ok(c) => tls_error(*node, listener_id@) is None && tls_of(c, *node),
            Err(e) => tls_error(*node, listener_id@) == Some(e@),
        }),
{
    let acme = match parse_acme_child(node, listener_id) {
        Ok(a) => a,
        Err(e) => {
            return Err(e);
        },
    };
    let cert_file = node.string_entry("cert-file");
    let key_file = node.string_entry("key-file");
    let combined_file = node.string_entry("combined-file");
    if combined_file.is_some() && (cert_file.is_some() || key_file.is_some()) {
        return Err(
            error3(
                "TLS configuration for listener '",
                listener_id,
                "' sets 'combined-file' together with 'cert-file'/'key-file'. A combined PEM already carries the certificate, its chain, and the key — use one form or the other",
            ),
        );
    }
    if acme.is_none() && combined_file.is_none() && (cert_file.is_none() || key_file.is_none()) {
        return Err(
            error3(
                "TLS configuration for listener '",
                listener_id,
                "' requires either 'cert-file' and 'key-file', a 'combined-file', or an 'acme' block",
            ),
        );
    }
    let ca_file = node.string_entry("ca-file");
    let min_version = match node.string_entry("min-version") {
        Some(s) => parse_tls_version(s.as_str()),
        None => server::default_min_tls_version(),
    };
    let max_version = match node.string_entry("max-version") {
        Some(s) => Some(parse_tls_version(s.as_str())),
        None => None,
    };
    let client_auth = node.bool_or("client-auth", false);
    let ocsp_stapling = node.bool_or("ocsp-stapling", true);
    let session_resumption = node.bool_or("session-resumption", true);
    let cipher_suites = node.first_strings_named("cipher-suite");
    let additional_certs = match parse_snis(node, listener_id) {
        Ok(cs) => cs,
        Err(e) => {
            return Err(e);
        },
    };
    let sni_cert_dirs = match parse_cert_dirs(node, listener_id) {
        Ok(cs) => cs,
        Err(e) => {
            return Err(e);
        },
    };
    Ok(
        TlsConfig {
            cert_file,
            key_file,
            combined_file,
            additional_certs,
            sni_cert_dirs,
            ca_file,
            min_version,
            max_version,
            cipher_suites,
            client_auth,
            ocsp_stapling,
            session_resumption,
            acme,
        },
    )
}

/// Usable TLS settings name a certificate: files, a combined file or ACME, and
/// never a combined file beside the files.
pub proof fn tls_has_one_certificate_source(n: KdlNode, id: Seq<char>)
    requires
        tls_error(n, id) is None,
    ensures
        nodes::child_of(n, "acme"@) is Some || nodes::text_entry(n, "combined-file"@) is Some || (
        nodes::text_entry(n, "cert-file"@) is Some && nodes::text_entry(n, "key-file"@) is Some),
        nodes::text_entry(n, "combined-file"@) is Some ==> nodes::text_entry(n, "cert-file"@)
            is None && nodes::text_entry(n, "key-file"@) is None,
{
}

// ---------------------------------------------------------------------------
// Listeners
// ---------------------------------------------------------------------------

/// The protocol that a lower-case name stands for.
pub open spec fn protocol_of(lower: Seq<char>) -> Option<ListenerProtocol> {
    if lower == "http"@ {
        Some(ListenerProtocol::Http)
    } else if lower == "https"@ {
        Some(ListenerProtocol::Https)
    } else if lower == "h2"@ {
        Some(ListenerProtocol::Http2)
    } else if lower == "h3"@ {
        Some(ListenerProtocol::Http3)
    } else {
        None
    }
}

fn parse_protocol(lower: &str) -> (r: Option<ListenerProtocol>)
    ensures
        r == protocol_of(lower@),
{
    if text::same(lower, "http") {
        Some(ListenerProtocol::Http)
    } else if text::same(lower, "https") {
        Some(ListenerProtocol::Https)
    } else if text::same(lower, "h2") {
        Some(ListenerProtocol::Http2)
    } else if text::same(lower, "h3") {
        Some(ListenerProtocol::Http3)
    } else {
        None
    }
}

/// The name of the protocol that a listener asks for.
pub open spec fn protocol_name(n: KdlNode) -> Seq<char> {
    text::lowercase(
        match nodes::text_entry(n, "protocol"@) {
            Some(s) => s,
            None => "http"@,
        },
    )
}

/// What is wrong with a listener.
pub open spec fn listener_error(n: KdlNode) -> Option<Seq<char>> {
    match nodes::first_text(n) {
        None => Some(
            "Listener requires an ID argument, e.g., listener \"http\" { ... }"@,
        ),
        Some(id) => {
            let tls = child_error(n, "tls"@, |c: KdlNode| tls_error(c, id));
            if nodes::text_entry(n, "address"@) is None {
                Some(
                    "Listener '"@ + id
                        + "' requires an 'address' field, e.g., address \"0.0.0.0:8080\""@,
                )
            } else if protocol_of(protocol_name(n)) is None {
                Some(
                    "Invalid protocol '"@ + protocol_name(n) + "' for listener '"@ + id
                        + "'. Valid protocols: http, https, h2, h3"@,
                )
            } else if tls is Some {
                tls
            } else {
                child_error(n, "proxy-protocol"@, |c: KdlNode| proxy_protocol_error(c, id))
            }
        },
    }
}

/// The listener is that of a node.
pub open spec fn listener_of(c: ListenerConfig, n: KdlNode) -> bool {
    &&& Some(c.id@) == nodes::first_text(n)
    &&& Some(c.address@) == nodes::text_entry(n, "address"@)
    &&& Some(c.protocol) == protocol_of(protocol_name(n))
    &&& match nodes::child_of(n, "tls"@) {
        Some(t) => c.tls matches Some(x) && tls_of(x, t),
        None => c.tls is None,
    }
    &&& c.default_route.deep_view() == nodes::text_entry(n, "default-route"@)
    &&& c.namespace.deep_view() == nodes::text_entry(n, "namespace"@)
    &&& c.request_timeout_secs == nodes::low_bits_or(n, "request-timeout-secs"@, two_64(), 60)
    &&& c.keepalive_timeout_secs == nodes::low_bits_or(
        n,
        "keepalive-timeout-secs"@,
        two_64(),
        75,
    )
    &&& c.max_concurrent_streams == nodes::low_bits_or(
        n,
        "max-concurrent-streams"@,
        two_32(),
        100,
    )
    &&& match nodes::int_entry(n, "keepalive-max-requests"@) {
        Some(i) => c.keepalive_max_requests matches Some(x) && x == i as int % two_32(),
        None => c.keepalive_max_requests is None,
    }
    &&& match nodes::child_of(n, "proxy-protocol"@) {
        Some(p) => c.proxy_protocol matches Some(x) && proxy_protocol_of(x, p),
        None => c.proxy_protocol is None,
    }
}

/// A listener.
pub fn parse_listener(node: &KdlNode) -> (r: Result<ListenerConfig, ConfigError>)
    ensures
        (match r {
            Ok(c) => listener_error(*node) is None && listener_of(c, *node),
            Err(e) => listener_error(*node) == Some(e@),
        }),
{
    let id = match node.first_arg_string() {
        Some(s) => s,
        None => {
            return Err(
                ConfigError {
                    message: "Listener requires an ID argument, e.g., listener \"http\" { ... }".to_owned(),
                },
            );
        },
    };
    let address = match node.string_entry("address") {
        Some(s) => s,
        None => {
            return Err(
                error3(
                    "Listener '",
                    id.as_str(),
                    "' requires an 'address' field, e.g., address \"0.0.0.0:8080\"",
                ),
            );
        },
    };
    let written = match node.string_entry("protocol") {
        Some(s) => s,
        None => "http".to_owned(),
    };
    let lower = text::lower(written.as_str());
    let protocol = match parse_protocol(lower.as_str()) {
        Some(p) => p,
        None => {
            return Err(
                error5(
                    "Invalid protocol '",
                    lower.as_str(),
                    "' for listener '",
                    id.as_str(),
                    "'. Valid protocols: http, https, h2, h3",
                ),
            );
        },
    };
    let tls = match node.child("tls") {
        Some(c) => match parse_tls_config(c, id.as_str()) {
            Ok(x) => Some(x),
            Err(e) => {
                return Err(e);
            },
        },
        None => None,
    };
    let proxy_protocol = match node.child("proxy-protocol") {
        Some(c) => match parse_proxy_protocol_config(c, id.as_str()) {
            Ok(x) => Some(x),
            Err(e) => {
                return Err(e);
            },
        },
        None => None,
    };
    let keepalive_max_requests = match node.int_entry("keepalive-max-requests") {
        Some(_) => Some(node.u32_or("keepalive-max-requests", 0)),
        None => None,
    };
    Ok(
        ListenerConfig {
            id,
            address,
            protocol,
            tls,
            default_route: node.string_entry("default-route"),
            namespace: node.string_entry("namespace"),
            request_timeout_secs: node.u64_or(
                "request-timeout-secs",
                server::default_request_timeout(),
            ),
            keepalive_timeout_secs: node.u64_or(
                "keepalive-timeout-secs",
                server::default_keepalive_timeout(),
            ),
            max_concurrent_streams: node.u32_or(
                "max-concurrent-streams",
                server::default_max_concurrent_streams(),
            ),
            keepalive_max_requests,
            proxy_protocol,
        },
    )
}

/// The listeners are those of some nodes, one by one.
pub open spec fn listeners_of(cs: Seq<ListenerConfig>, nodes: Seq<KdlNode>) -> bool {
    cs.len() == nodes.len() && forall|i: int|
        0 <= i < cs.len() ==> listener_of(#[trigger] cs[i], nodes[i])
}

/// The listeners of a block, in order; the first error stops the reading.
pub fn parse_listeners(node: &KdlNode) -> (r: Result<Vec<ListenerConfig>, ConfigError>)
    ensures
        ({
            let list = named(node.children@, "listener"@);
            let error = first_error(list, |c: KdlNode| listener_error(c));
            match r {
                Ok(cs) => error is None && listeners_of(cs@, list),
                Err(e) => error == Some(e@),
            }
        }),
{
    let ghost all = node.children@;
    let ghost f = |c: KdlNode| listener_error(c);
    let mut out: Vec<ListenerConfig> = Vec::new();
    let mut i: usize = 0;
    while i < node.children.len()
        invariant
            i <= node.children@.len(),
            all == node.children@,
            f == (|c: KdlNode| listener_error(c)),
            first_error(named(all.take(i as int), "listener"@), f) is None,
            listeners_of(out@, named(all.take(i as int), "listener"@)),
        decreases node.children.len() - i,
    {
        let c = &node.children[i];
        let ghost before = named(all.take(i as int), "listener"@);
        proof {
            lemma_named_step(all, "listener"@, i as int);
            assert(before.push(*c).drop_last() =~= before);
        }
        if text::same(c.name.as_str(), "listener") {
            match parse_listener(c) {
                Ok(x) => {
                    out.push(x);
                },
                Err(e) => {
                    proof {
                        assert(first_error(before.push(*c), f) == Some(e@));
                        lemma_error_in_prefix(all, "listener"@, f, i + 1);
                    }
                    return Err(e);
                },
            }
        }
        i = i + 1;
    }
    assert(all.take(i as int) =~= all);
    Ok(out)
}

// ---------------------------------------------------------------------------
// Laws
// ---------------------------------------------------------------------------

/// A number that fits is taken as it is written.
pub open spec fn takes(n: KdlNode, name: Seq<char>, max: int, value: int) -> bool {
    forall|i: i128|
        #[trigger] nodes::carries(n, name, KdlValue::Integer(i)) && 0 <= i <= max ==> value == i
}

/// A switch is as it is written.
pub open spec fn obeys(n: KdlNode, name: Seq<char>, value: bool) -> bool {
    forall|b: bool| #[trigger] nodes::carries(n, name, KdlValue::Bool(b)) ==> value == b
}

proof fn lemma_takes(n: KdlNode, name: Seq<char>, max: int, default: int)
    requires
        max >= 0,
    ensures
        takes(n, name, max, nodes::low_bits_or(n, name, max + 1, default)),
        nodes::lacks(n, name) ==> nodes::low_bits_or(n, name, max + 1, default) == default,
{
    nodes::settings_are_read_from_children(n, name, KdlValue::Other);
    assert forall|i: i128|
        #[trigger] nodes::carries(n, name, KdlValue::Integer(i)) && 0 <= i
            <= max implies nodes::low_bits_or(n, name, max + 1, default) == i by {
        nodes::settings_are_read_from_children(n, name, KdlValue::Integer(i));
    }
}

proof fn lemma_obeys(n: KdlNode, name: Seq<char>, default: bool)
    ensures
        obeys(n, name, nodes::bool_or(n, name, default)),
        nodes::lacks(n, name) ==> nodes::bool_or(n, name, default) == default,
{
    nodes::settings_are_read_from_children(n, name, KdlValue::Other);
    assert forall|b: bool| #[trigger]
        nodes::carries(n, name, KdlValue::Bool(b)) implies nodes::bool_or(n, name, default)
        == b by {
        nodes::settings_are_read_from_children(n, name, KdlValue::Bool(b));
    }
}

/// The server does as it is told; what it is not told has its default: as many threads as
/// cores, ten thousand connections, thirty seconds to shut down, in the foreground, without
/// reloading by itself, a thousand cached routes, short trace identifiers.
pub proof fn server_settings_and_defaults(c: ServerConfig, n: KdlNode)
    requires
        server_of(c, n),
    ensures
        takes(n, "worker-threads"@, usize::MAX as int, c.worker_threads as int),
        nodes::lacks(n, "worker-threads"@) ==> c.worker_threads == 0,
        takes(n, "max-connections"@, usize::MAX as int, c.max_connections as int),
        nodes::lacks(n, "max-connections"@) ==> c.max_connections == 10000,
        takes(
            n,
            "graceful-shutdown-timeout-secs"@,
            u64::MAX as int,
            c.graceful_shutdown_timeout_secs as int,
        ),
        nodes::lacks(n, "graceful-shutdown-timeout-secs"@) ==> c.graceful_shutdown_timeout_secs
            == 30,
        takes(n, "route-cache-size"@, usize::MAX as int, c.route_cache_size as int),
        nodes::lacks(n, "route-cache-size"@) ==> c.route_cache_size == 1000,
        obeys(n, "daemon"@, c.daemon),
        nodes::lacks(n, "daemon"@) ==> !c.daemon,
        obeys(n, "auto-reload"@, c.auto_reload),
        nodes::lacks(n, "auto-reload"@) ==> !c.auto_reload,
        nodes::lacks(n, "trace-id-format"@) ==> c.trace_id_format is TinyFlake,
        nodes::lacks(n, "user"@) ==> c.user is None,
        nodes::lacks(n, "group"@) ==> c.group is None,
        nodes::lacks(n, "pid-file"@) ==> c.pid_file is None,
        nodes::lacks(n, "working-directory"@) ==> c.working_directory is None,
{
    lemma_takes(n, "worker-threads"@, usize::MAX as int, 0);
    lemma_takes(n, "max-connections"@, usize::MAX as int, 10000);
    lemma_takes(n, "graceful-shutdown-timeout-secs"@, u64::MAX as int, 30);
    lemma_takes(n, "route-cache-size"@, usize::MAX as int, 1000);
    lemma_obeys(n, "daemon"@, false);
    lemma_obeys(n, "auto-reload"@, false);
    nodes::settings_are_read_from_children(n, "trace-id-format"@, KdlValue::Other);
    nodes::settings_are_read_from_children(n, "user"@, KdlValue::Other);
    nodes::settings_are_read_from_children(n, "group"@, KdlValue::Other);
    nodes::settings_are_read_from_children(n, "pid-file"@, KdlValue::Other);
    nodes::settings_are_read_from_children(n, "working-directory"@, KdlValue::Other);
}

/// A text that is written is kept, each under its own name.
pub proof fn server_texts_are_kept(c: ServerConfig, n: KdlNode, s: String)
    requires
        server_of(c, n),
    ensures
        nodes::carries(n, "user"@, KdlValue::Text(s)) ==> c.user is Some && c.user->0@ == s@,
        nodes::carries(n, "group"@, KdlValue::Text(s)) ==> c.group is Some && c.group->0@ == s@,
        nodes::carries(n, "pid-file"@, KdlValue::Text(s)) ==> c.pid_file is Some && c.pid_file->0@
            == s@,
        nodes::carries(n, "working-directory"@, KdlValue::Text(s)) ==> c.working_directory is Some
            && c.working_directory->0@ == s@,
        nodes::carries(n, "trace-id-format"@, KdlValue::Text(s)) ==> (c.trace_id_format is Uuid
            <==> text::lowercase(s@) == "uuid"@ || text::lowercase(s@) == "uuid4"@
            || text::lowercase(s@) == "uuidv4"@),
{
    nodes::settings_are_read_from_children(n, "trace-id-format"@, KdlValue::Text(s));
    nodes::settings_are_read_from_children(n, "user"@, KdlValue::Text(s));
    nodes::settings_are_read_from_children(n, "group"@, KdlValue::Text(s));
    nodes::settings_are_read_from_children(n, "pid-file"@, KdlValue::Text(s));
    nodes::settings_are_read_from_children(n, "working-directory"@, KdlValue::Text(s));
}

/// A listener does as it is told; what it is not told has its default: plain HTTP, sixty
/// seconds for a request, seventy-five to stay open, a hundred streams at a time, and no
/// limit to the requests of a connection.
pub proof fn listener_settings_and_defaults(c: ListenerConfig, n: KdlNode)
    requires
        listener_of(c, n),
    ensures
        takes(n, "request-timeout-secs"@, u64::MAX as int, c.request_timeout_secs as int),
        nodes::lacks(n, "request-timeout-secs"@) ==> c.request_timeout_secs == 60,
        takes(n, "keepalive-timeout-secs"@, u64::MAX as int, c.keepalive_timeout_secs as int),
        nodes::lacks(n, "keepalive-timeout-secs"@) ==> c.keepalive_timeout_secs == 75,
        takes(n, "max-concurrent-streams"@, u32::MAX as int, c.max_concurrent_streams as int),
        nodes::lacks(n, "max-concurrent-streams"@) ==> c.max_concurrent_streams == 100,
        nodes::lacks(n, "keepalive-max-requests"@) ==> c.keepalive_max_requests is None,
        forall|i: i128|
            #[trigger] nodes::carries(n, "keepalive-max-requests"@, KdlValue::Integer(i)) && 0 <= i
                <= u32::MAX ==> c.keepalive_max_requests is Some && c.keepalive_max_requests->0
                == i,
        c.tls is Some <==> !nodes::lacks(n, "tls"@),
        c.proxy_protocol is Some <==> !nodes::lacks(n, "proxy-protocol"@),
        nodes::lacks(n, "default-route"@) ==> c.default_route is None,
        nodes::lacks(n, "namespace"@) ==> c.namespace is None,
        n.entries@.len() > 0 && n.entries@[0] is Text && c.id@ == n.entries@[0]->Text_0@,
{
    lemma_takes(n, "request-timeout-secs"@, u64::MAX as int, 60);
    lemma_takes(n, "keepalive-timeout-secs"@, u64::MAX as int, 75);
    lemma_takes(n, "max-concurrent-streams"@, u32::MAX as int, 100);
    nodes::first_child_of_a_name_counts(n, "tls"@, 0);
    nodes::first_child_of_a_name_counts(n, "proxy-protocol"@, 0);
    nodes::settings_are_read_from_children(n, "keepalive-max-requests"@, KdlValue::Other);
    nodes::settings_are_read_from_children(n, "default-route"@, KdlValue::Other);
    nodes::settings_are_read_from_children(n, "namespace"@, KdlValue::Other);
    assert forall|i: i128|
        #[trigger] nodes::carries(n, "keepalive-max-requests"@, KdlValue::Integer(i)) && 0 <= i
            <= u32::MAX implies c.keepalive_max_requests is Some && c.keepalive_max_requests->0
        == i by {
        nodes::settings_are_read_from_children(
            n,
            "keepalive-max-requests"@,
            KdlValue::Integer(i),
        );
    }
}

/// The texts of a listener are kept, each under its own name; the protocol is read without
/// regard to case, and is plain HTTP where none is named.
pub proof fn listener_texts_are_kept(c: ListenerConfig, n: KdlNode, s: String)
    requires
        listener_of(c, n),
    ensures
        nodes::carries(n, "address"@, KdlValue::Text(s)) ==> c.address@ == s@,
        nodes::carries(n, "default-route"@, KdlValue::Text(s)) ==> c.default_route is Some
            && c.default_route->0@ == s@,
        nodes::carries(n, "namespace"@, KdlValue::Text(s)) ==> c.namespace is Some
            && c.namespace->0@ == s@,
        nodes::carries(n, "protocol"@, KdlValue::Text(s)) ==> {
            &&& c.protocol is Http <==> text::lowercase(s@) == "http"@
            &&& c.protocol is Https <==> text::lowercase(s@) == "https"@
            &&& c.protocol is Http2 <==> text::lowercase(s@) == "h2"@
            &&& c.protocol is Http3 <==> text::lowercase(s@) == "h3"@
        },
        nodes::lacks(n, "protocol"@) ==> c.protocol is Http,
{
    nodes::settings_are_read_from_children(n, "address"@, KdlValue::Text(s));
    nodes::settings_are_read_from_children(n, "default-route"@, KdlValue::Text(s));
    nodes::settings_are_read_from_children(n, "namespace"@, KdlValue::Text(s));
    nodes::settings_are_read_from_children(n, "protocol"@, KdlValue::Text(s));
    reveal_strlit("http");
    reveal_strlit("https");
    reveal_strlit("h2");
    reveal_strlit("h3");
    assert(text::ascii_lowercase("http"@) =~= "http"@);
    assert(vstd::utf8::is_ascii_chars("http"@));
    assert("h2"@[1] == '2' && "h3"@[1] == '3');
}

/// TLS settings do as they are told; what they are not told has its default: TLS 1.2 and
/// up, no client certificates, stapling and resumption on.
pub proof fn tls_settings_and_defaults(c: TlsConfig, n: KdlNode)
    requires
        tls_of(c, n),
    ensures
        obeys(n, "client-auth"@, c.client_auth),
        nodes::lacks(n, "client-auth"@) ==> !c.client_auth,
        obeys(n, "ocsp-stapling"@, c.ocsp_stapling),
        nodes::lacks(n, "ocsp-stapling"@) ==> c.ocsp_stapling,
        obeys(n, "session-resumption"@, c.session_resumption),
        nodes::lacks(n, "session-resumption"@) ==> c.session_resumption,
        nodes::lacks(n, "min-version"@) ==> c.min_version is Tls12,
        nodes::lacks(n, "max-version"@) ==> c.max_version is None,
        nodes::lacks(n, "ca-file"@) ==> c.ca_file is None,
        c.acme is Some <==> !nodes::lacks(n, "acme"@),
{
    lemma_obeys(n, "client-auth"@, false);
    lemma_obeys(n, "ocsp-stapling"@, true);
    lemma_obeys(n, "session-resumption"@, true);
    nodes::settings_are_read_from_children(n, "min-version"@, KdlValue::Other);
    nodes::settings_are_read_from_children(n, "max-version"@, KdlValue::Other);
    nodes::settings_are_read_from_children(n, "ca-file"@, KdlValue::Other);
    nodes::first_child_of_a_name_counts(n, "acme"@, 0);
}

/// The texts of TLS settings are kept, each under its own name; a version is 1.3 exactly
/// if it is called so, without regard to case.
pub proof fn tls_texts_are_kept(c: TlsConfig, n: KdlNode, s: String)
    requires
        tls_of(c, n),
    ensures
        nodes::carries(n, "cert-file"@, KdlValue::Text(s)) ==> c.cert_file is Some
            && c.cert_file->0@ == s@,
        nodes::carries(n, "key-file"@, KdlValue::Text(s)) ==> c.key_file is Some && c.key_file->0@
            == s@,
        nodes::carries(n, "combined-file"@, KdlValue::Text(s)) ==> c.combined_file is Some
            && c.combined_file->0@ == s@,
        nodes::carries(n, "ca-file"@, KdlValue::Text(s)) ==> c.ca_file is Some && c.ca_file->0@
            == s@,
        nodes::carries(n, "min-version"@, KdlValue::Text(s)) ==> (c.min_version is Tls13
            <==> text::lowercase(s@) == "1.3"@ || text::lowercase(s@) == "tls1.3"@
            || text::lowercase(s@) == "tlsv1.3"@),
        nodes::carries(n, "max-version"@, KdlValue::Text(s)) ==> c.max_version is Some && (
        c.max_version->0 is Tls13 <==> text::lowercase(s@) == "1.3"@ || text::lowercase(s@)
            == "tls1.3"@ || text::lowercase(s@) == "tlsv1.3"@),
{
    nodes::settings_are_read_from_children(n, "cert-file"@, KdlValue::Text(s));
    nodes::settings_are_read_from_children(n, "key-file"@, KdlValue::Text(s));
    nodes::settings_are_read_from_children(n, "combined-file"@, KdlValue::Text(s));
    nodes::settings_are_read_from_children(n, "ca-file"@, KdlValue::Text(s));
    nodes::settings_are_read_from_children(n, "min-version"@, KdlValue::Text(s));
    nodes::settings_are_read_from_children(n, "max-version"@, KdlValue::Text(s));
}

/// Certificate management does as it is told; what it is not told has its default: the
/// real service, thirty days before expiry, the HTTP challenge, a P-256 key.
pub proof fn acme_settings_and_defaults(c: AcmeConfig, n: KdlNode, s: String)
    requires
        acme_of(c, n),
    ensures
        nodes::carries(n, "email"@, KdlValue::Text(s)) ==> c.email@ == s@,
        nodes::carries(n, "server-url"@, KdlValue::Text(s)) ==> c.server_url is Some
            && c.server_url->0@ == s@,
        nodes::lacks(n, "server-url"@) ==> c.server_url is None,
        obeys(n, "staging"@, c.staging),
        nodes::lacks(n, "staging"@) ==> !c.staging,
        takes(n, "renew-before-days"@, u32::MAX as int, c.renew_before_days as int),
        nodes::lacks(n, "renew-before-days"@) ==> c.renew_before_days == 30,
        nodes::carries(n, "storage"@, KdlValue::Text(s)) ==> c.storage@ == s@,
        nodes::lacks(n, "storage"@) ==> c.storage@ == "/var/lib/zentinel/acme"@,
        nodes::lacks(n, "challenge-type"@) ==> c.challenge_type is Http01,
        nodes::carries(n, "challenge-type"@, KdlValue::Text(s)) ==> (c.challenge_type is Dns01
            <==> text::lowercase(s@) == "dns-01"@ || text::lowercase(s@) == "dns01"@
            || text::lowercase(s@) == "dns"@),
        nodes::lacks(n, "key-type"@) ==> c.key_type is EcdsaP256,
        nodes::carries(n, "key-type"@, KdlValue::Text(s)) ==> (c.key_type is EcdsaP384
            <==> text::lowercase(s@) == "ecdsa-p384"@ || text::lowercase(s@) == "p384"@),
        c.eab is Some <==> !nodes::lacks(n, "eab"@),
        c.dns_provider is Some <==> !nodes::lacks(n, "dns-provider"@),
{
    nodes::settings_are_read_from_children(n, "email"@, KdlValue::Text(s));
    nodes::settings_are_read_from_children(n, "server-url"@, KdlValue::Text(s));
    nodes::settings_are_read_from_children(n, "storage"@, KdlValue::Text(s));
    nodes::settings_are_read_from_children(n, "challenge-type"@, KdlValue::Text(s));
    nodes::settings_are_read_from_children(n, "key-type"@, KdlValue::Text(s));
    lemma_obeys(n, "staging"@, false);
    lemma_takes(n, "renew-before-days"@, u32::MAX as int, 30);
    nodes::first_child_of_a_name_counts(n, "eab"@, 0);
    nodes::first_child_of_a_name_counts(n, "dns-provider"@, 0);
    reveal_strlit("ecdsa-p256");
    reveal_strlit("ecdsa-p384");
    reveal_strlit("p256");
    reveal_strlit("p384");
    reveal_strlit("ecdsa");
    assert("ecdsa-p256"@[7] == '2' && "ecdsa-p384"@[7] == '3');
    assert("p256"@[1] == '2' && "p384"@[1] == '3');
    assert("ecdsa-p256"@.len() == 10 && "ecdsa-p384"@.len() == 10);
    assert("p256"@.len() == 4 && "p384"@.len() == 4 && "ecdsa"@.len() == 5);
}

/// A DNS provider does as it is told; what it is not told has its default: thirty seconds
/// for a call, and for the propagation a first look after ten seconds, then every five, for
/// two minutes.
pub proof fn dns_settings_and_defaults(c: DnsProviderConfig, n: KdlNode, p: KdlNode)
    requires
        dns_provider_of(c, n),
    ensures
        takes(n, "api-timeout-secs"@, u64::MAX as int, c.api_timeout_secs as int),
        nodes::lacks(n, "api-timeout-secs"@) ==> c.api_timeout_secs == 30,
        nodes::lacks(n, "propagation"@) ==> c.propagation.initial_delay_secs == 10
            && c.propagation.check_interval_secs == 5 && c.propagation.timeout_secs == 120
            && c.propagation.nameservers@.len() == 0,
        nodes::child_of(n, "propagation"@) == Some(p) ==> {
            &&& takes(
                p,
                "initial-delay-secs"@,
                u64::MAX as int,
                c.propagation.initial_delay_secs as int,
            )
            &&& nodes::lacks(p, "initial-delay-secs"@) ==> c.propagation.initial_delay_secs == 10
            &&& takes(
                p,
                "check-interval-secs"@,
                u64::MAX as int,
                c.propagation.check_interval_secs as int,
            )
            &&& nodes::lacks(p, "check-interval-secs"@) ==> c.propagation.check_interval_secs == 5
            &&& takes(p, "timeout-secs"@, u64::MAX as int, c.propagation.timeout_secs as int)
            &&& nodes::lacks(p, "timeout-secs"@) ==> c.propagation.timeout_secs == 120
        },
{
    lemma_takes(n, "api-timeout-secs"@, u64::MAX as int, 30);
    lemma_takes(p, "initial-delay-secs"@, u64::MAX as int, 10);
    lemma_takes(p, "check-interval-secs"@, u64::MAX as int, 5);
    lemma_takes(p, "timeout-secs"@, u64::MAX as int, 120);
    nodes::first_child_of_a_name_counts(n, "propagation"@, 0);
}

/// A header deadline is as it is written, two seconds where none is, and never nothing.
pub proof fn header_deadline(c: ProxyProtocolConfig, n: KdlNode, id: Seq<char>)
    requires
        proxy_protocol_of(c, n),
    ensures
        takes(n, "header-timeout-ms"@, u64::MAX as int, c.header_timeout_ms as int),
        nodes::lacks(n, "header-timeout-ms"@) ==> c.header_timeout_ms == 2000,
        proxy_protocol_error(n, id) is None ==> c.header_timeout_ms > 0 && c.trusted@.len() > 0,
{
    lemma_takes(n, "header-timeout-ms"@, u64::MAX as int, 2000);
    assert(c.trusted.deep_view().len() == c.trusted@.len());
}

proof fn lemma_first_bad(blocks: Seq<Seq<char>>, from: int)
    requires
        0 <= from <= blocks.len(),
    ensures
        from <= first_bad_block(blocks, from) <= blocks.len(),
        first_bad_block(blocks, from) < blocks.len() ==> net::parse_block(
            blocks[first_bad_block(blocks, from)],
        ) is Err,
        forall|j: int|
            from <= j < first_bad_block(blocks, from) ==> net::parse_block(
                #[trigger] blocks[j],
            ) is Ok,
    decreases blocks.len() - from,
{
    if from < blocks.len() && net::parse_block(blocks[from]) is Ok {
        lemma_first_bad(blocks, from + 1);
    }
}

/// Acceptance of headers is usable exactly if somebody is trusted, everybody trusted is a
/// block of addresses, and there is time to wait. The first block that is none is named.
pub proof fn usable_header_acceptance(n: KdlNode, id: Seq<char>, k: int)
    ensures
        proxy_protocol_error(n, id) is None <==> {
            let trusted = nodes::texts_named(n.children@, "trusted"@);
            &&& trusted.len() > 0
            &&& forall|i: int|
                0 <= i < trusted.len() ==> net::parse_block(#[trigger] trusted[i]) is Ok
            &&& nodes::low_bits_or(n, "header-timeout-ms"@, 0x1_0000_0000_0000_0000, 2000) > 0
        },
        ({
            let trusted = nodes::texts_named(n.children@, "trusted"@);
            0 <= k < trusted.len() && net::parse_block(trusted[k]) is Err && (forall|i: int|
                0 <= i < k ==> net::parse_block(#[trigger] trusted[i]) is Ok)
                ==> proxy_protocol_error(n, id) == Some(
                "proxy-protocol on listener '"@ + id + "': invalid trusted CIDR '"@ + trusted[k]
                    + "': "@ + net::cidr_fault_text(net::parse_block(trusted[k])->Err_0),
            )
        }),
{
    let trusted = nodes::texts_named(n.children@, "trusted"@);
    lemma_first_bad(trusted, 0);
    let f = first_bad_block(trusted, 0);
    nodes::settings_are_read_from_children(n, "header-timeout-ms"@, KdlValue::Other);
    if let Some(i) = nodes::int_entry(n, "header-timeout-ms"@) {
        assert(i as int % two_64() >= 0);
    }
    if 0 <= k < trusted.len() && net::parse_block(trusted[k]) is Err && (forall|i: int|
        0 <= i < k ==> net::parse_block(#[trigger] trusted[i]) is Ok) {
        if f < k {
            assert(net::parse_block(trusted[f]) is Ok);
        }
        if k < f {
            assert(net::parse_block(trusted[k]) is Ok);
        }
    }
}

/// A listener is usable exactly if it has an identifier, an address and a protocol that is
/// one of the four, and its TLS and its acceptance of headers are usable where it has them.
pub proof fn usable_listener(n: KdlNode)
    ensures
        listener_error(n) is None <==> {
            &&& n.entries@.len() > 0 && n.entries@[0] is Text
            &&& nodes::text_entry(n, "address"@) is Some
            &&& nodes::text_entry(n, "protocol"@) matches Some(p) ==> text::lowercase(p) == "http"@
                || text::lowercase(p) == "https"@ || text::lowercase(p) == "h2"@
                || text::lowercase(p) == "h3"@
            &&& nodes::child_of(n, "tls"@) matches Some(t) ==> tls_error(
                t,
                n.entries@[0]->Text_0@,
            ) is None
            &&& nodes::child_of(n, "proxy-protocol"@) matches Some(p) ==> proxy_protocol_error(
                p,
                n.entries@[0]->Text_0@,
            ) is None
        },
{
    reveal_strlit("http");
    assert(text::ascii_lowercase("http"@) =~= "http"@);
    assert(vstd::utf8::is_ascii_chars("http"@));
}

/// Certificate management is usable exactly if it has a contact, a domain, complete account
/// credentials where it has any, a key type that is known, a usable provider where it has
/// one, and, for the DNS challenge, a provider; only that challenge covers wildcards.
pub proof fn usable_acme(n: KdlNode, id: Seq<char>)
    ensures
        acme_error(n, id) is None <==> {
            let domains = nodes::texts_named(n.children@, "domains"@);
            let dns = nodes::text_entry(n, "challenge-type"@) is Some && (text::lowercase(
                nodes::text_entry(n, "challenge-type"@)->0,
            ) == "dns-01"@ || text::lowercase(nodes::text_entry(n, "challenge-type"@)->0)
                == "dns01"@ || text::lowercase(nodes::text_entry(n, "challenge-type"@)->0)
                == "dns"@);
            &&& nodes::text_entry(n, "email"@) is Some
            &&& domains.len() > 0
            &&& nodes::child_of(n, "eab"@) matches Some(e) ==> nodes::text_entry(e, "kid"@) is Some
                && nodes::text_entry(e, "hmac-key"@) is Some
            &&& nodes::text_entry(n, "key-type"@) matches Some(k) ==> text::lowercase(k)
                == "ecdsa-p256"@ || text::lowercase(k) == "p256"@ || text::lowercase(k)
                == "ecdsa"@ || text::lowercase(k) == "ecdsa-p384"@ || text::lowercase(k)
                == "p384"@
            &&& nodes::child_of(n, "dns-provider"@) matches Some(d) ==> dns_provider_error(
                d,
                id,
            ) is None
            &&& dns ==> nodes::child_of(n, "dns-provider"@) is Some
            &&& !dns ==> forall|i: int|
                0 <= i < domains.len() ==> !((#[trigger] domains[i]).len() >= 2 && domains[i].take(2)
                    == seq!['*', '.'])
        },
{
    let domains = nodes::texts_named(n.children@, "domains"@);
    reveal_strlit("*.");
    assert("*."@ =~= seq!['*', '.']);
    assert forall|i: int| 0 <= i < domains.len() implies ("*."@.is_prefix_of(#[trigger] domains[i])
        <==> domains[i].len() >= 2 && domains[i].take(2) == seq!['*', '.']) by {
        if domains[i].len() >= 2 {
            assert(domains[i].take(2) =~= domains[i].subrange(0, 2));
        }
    }
}

/// A DNS provider is usable exactly if its type is one of the three, a webhook says where
/// it is, and there are credentials.
pub proof fn usable_dns_provider(n: KdlNode, id: Seq<char>, c: DnsProviderConfig)
    ensures
        dns_provider_error(n, id) is None <==> {
            &&& nodes::text_entry(n, "type"@) is Some
            &&& {
                let kind = text::lowercase(nodes::text_entry(n, "type"@)->0);
                (kind == "hetzner"@ || kind == "cloudflare"@ || kind == "webhook"@) && (kind
                    == "webhook"@ ==> nodes::text_entry(n, "url"@) is Some)
            }
            &&& nodes::text_entry(n, "credentials-file"@) is Some || nodes::text_entry(
                n,
                "credentials-env"@,
            ) is Some
        },
        dns_provider_error(n, id) is None && dns_provider_of(c, n) ==> {
            let kind = text::lowercase(nodes::text_entry(n, "type"@)->0);
            &&& c.provider is Hetzner <==> kind == "hetzner"@
            &&& c.provider is Cloudflare <==> kind == "cloudflare"@
            &&& c.provider is Webhook <==> kind == "webhook"@
        },
{
    reveal_strlit("hetzner");
    reveal_strlit("cloudflare");
    reveal_strlit("webhook");
    assert("hetzner"@[0] == 'h' && "webhook"@[0] == 'w' && "cloudflare"@[0] == 'c');
}

/// The source of a certificate: files, a combined file or certificate management.
pub open spec fn one_source(n: KdlNode) -> bool {
    let cert = nodes::text_entry(n, "cert-file"@) is Some;
    let key = nodes::text_entry(n, "key-file"@) is Some;
    let combined = nodes::text_entry(n, "combined-file"@) is Some;
    let acme = nodes::child_of(n, "acme"@) is Some;
    (combined && !cert && !key && !acme) || (acme && !cert && !key && !combined) || (cert && key
        && !combined && !acme)
}

/// A certificate for names is usable exactly if it has one source, which is usable, and
/// lists its names in one way.
pub proof fn usable_sni_certificate(n: KdlNode, id: Seq<char>)
    ensures
        sni_error(n, id) is None <==> {
            &&& one_source(n)
            &&& nodes::texts_named(n.children@, "hostnames"@).len() == 0 || nodes::texts_named(
                n.children@,
                "priority-hostnames"@,
            ).len() == 0
            &&& nodes::child_of(n, "acme"@) matches Some(a) ==> acme_error(a, id) is None
        },
{
}

/// A directory of certificates is usable exactly if it has a path and names both files of
/// a split layout or none.
pub proof fn usable_certificate_directory(n: KdlNode, id: Seq<char>, c: SniCertDir)
    ensures
        cert_dir_error(n, id) is None <==> {
            &&& n.entries@.len() > 0 && n.entries@[0] is Text
            &&& nodes::text_entry(n, "cert-file"@) is Some <==> nodes::text_entry(
                n,
                "key-file"@,
            ) is Some
        },
        cert_dir_of(c, n) && nodes::text_entry(n, "combined-file"@) is None ==> c.combined_name@
            == "combined"@,
        cert_dir_of(c, n) ==> (nodes::text_entry(n, "combined-file"@) matches Some(s)
            ==> c.combined_name@ == s),
{
}

proof fn lemma_first_error_iff(list: Seq<KdlNode>, error: spec_fn(KdlNode) -> Option<Seq<char>>)
    ensures
        first_error(list, error) is None <==> forall|i: int|
            0 <= i < list.len() ==> error(#[trigger] list[i]) is None,
    decreases list.len(),
{
    if list.len() > 0 {
        let init = list.drop_last();
        lemma_first_error_iff(init, error);
        assert forall|i: int| 0 <= i < init.len() implies init[i] == #[trigger] list[i] by {}
        if first_error(init, error) is None && error(list.last()) is None {
            assert forall|i: int| 0 <= i < list.len() implies error(#[trigger] list[i]) is None by {
                if i < init.len() {
                    assert(error(init[i]) is None);
                }
            }
        }
        if forall|i: int| 0 <= i < list.len() ==> error(#[trigger] list[i]) is None {
            assert forall|i: int| 0 <= i < init.len() implies error(#[trigger] init[i]) is None by {
                assert(error(list[i]) is None);
            }
            assert(error(list[list.len() - 1]) is None);
        }
    }
}

proof fn lemma_named(list: Seq<KdlNode>, name: Seq<char>, n: KdlNode)
    ensures
        named(list, name).contains(n) <==> list.contains(n) && n.name@ == name,
    decreases list.len(),
{
    if list.len() > 0 {
        let init = list.drop_last();
        let last = list.last();
        let rest = named(init, name);
        lemma_named(init, name, n);
        assert(list.contains(n) <==> init.contains(n) || n == last) by {
            if list.contains(n) {
                let i = choose|i: int| 0 <= i < list.len() && list[i] == n;
                if i < init.len() {
                    assert(init[i] == n);
                }
            }
            if init.contains(n) {
                let i = choose|i: int| 0 <= i < init.len() && init[i] == n;
                assert(list[i] == n);
            }
            assert(list[list.len() - 1] == last);
        }
        assert(rest.push(last).contains(n) <==> rest.contains(n) || n == last) by {
            let more = rest.push(last);
            if more.contains(n) {
                let i = choose|i: int| 0 <= i < more.len() && more[i] == n;
                if i < rest.len() {
                    assert(rest[i] == n);
                }
            }
            if rest.contains(n) {
                let i = choose|i: int| 0 <= i < rest.len() && rest[i] == n;
                assert(more[i] == n);
            }
            assert(more[rest.len() as int] == last);
        }
    }
}

/// TLS settings are usable exactly if there is a certificate, complete and from files in
/// one form only, and everything they hold is usable: the certificate management, every
/// certificate for names and every directory of certificates.
pub proof fn usable_tls(n: KdlNode, id: Seq<char>)
    ensures
        tls_error(n, id) is None <==> {
            let cert = nodes::text_entry(n, "cert-file"@) is Some;
            let key = nodes::text_entry(n, "key-file"@) is Some;
            let combined = nodes::text_entry(n, "combined-file"@) is Some;
            let acme = nodes::child_of(n, "acme"@) is Some;
            &&& acme || combined || (cert && key)
            &&& combined ==> !cert && !key
            &&& nodes::child_of(n, "acme"@) matches Some(a) ==> acme_error(a, id) is None
            &&& forall|c: KdlNode|
                #[trigger] n.children@.contains(c) && c.name@ == "sni"@ ==> sni_error(c, id) is None
            &&& forall|c: KdlNode|
                #[trigger] n.children@.contains(c) && c.name@ == "sni-cert-dir"@ ==> cert_dir_error(
                    c,
                    id,
                ) is None
        },
{
    let f = |c: KdlNode| sni_error(c, id);
    let g = |c: KdlNode| cert_dir_error(c, id);
    let a = named(n.children@, "sni"@);
    let b = named(n.children@, "sni-cert-dir"@);
    lemma_first_error_iff(a, f);
    lemma_first_error_iff(b, g);
    assert((first_error(a, f) is None) <==> (forall|c: KdlNode|
        #[trigger] n.children@.contains(c) && c.name@ == "sni"@ ==> sni_error(c, id) is None)) by {
        assert forall|c: KdlNode| a.contains(c) <==> #[trigger] n.children@.contains(c) && c.name@
            == "sni"@ by {
            lemma_named(n.children@, "sni"@, c);
        }
        if forall|c: KdlNode|
            #[trigger] n.children@.contains(c) && c.name@ == "sni"@ ==> sni_error(c, id) is None {
            assert forall|i: int| 0 <= i < a.len() implies f(#[trigger] a[i]) is None by {
                assert(a.contains(a[i]));
                assert(n.children@.contains(a[i]));
            }
        }
        if first_error(a, f) is None {
            assert forall|c: KdlNode| #[trigger] n.children@.contains(c) && c.name@
                == "sni"@ implies sni_error(c, id) is None by {
                assert(a.contains(c));
                let i = choose|i: int| 0 <= i < a.len() && a[i] == c;
                assert(f(a[i]) is None);
            }
        }
    }
    assert((first_error(b, g) is None) <==> (forall|c: KdlNode|
        #[trigger] n.children@.contains(c) && c.name@ == "sni-cert-dir"@ ==> cert_dir_error(
            c,
            id,
        ) is None)) by {
        assert forall|c: KdlNode| b.contains(c) <==> #[trigger] n.children@.contains(c) && c.name@
            == "sni-cert-dir"@ by {
            lemma_named(n.children@, "sni-cert-dir"@, c);
        }
        if forall|c: KdlNode|
            #[trigger] n.children@.contains(c) && c.name@ == "sni-cert-dir"@ ==> cert_dir_error(
                c,
                id,
            ) is None {
            assert forall|i: int| 0 <= i < b.len() implies g(#[trigger] b[i]) is None by {
                assert(b.contains(b[i]));
                assert(n.children@.contains(b[i]));
            }
        }
        if first_error(b, g) is None {
            assert forall|c: KdlNode| #[trigger] n.children@.contains(c) && c.name@
                == "sni-cert-dir"@ implies cert_dir_error(c, id) is None by {
                assert(b.contains(c));
                let i = choose|i: int| 0 <= i < b.len() && b[i] == c;
                assert(g(b[i]) is None);
            }
        }
    }
}

/// The nodes of a name are all children of that name, in order.
pub proof fn nodes_of_a_name(list: Seq<KdlNode>, name: Seq<char>)
    ensures
        named(list, name) == list.filter(|n: KdlNode| n.name@ == name),
    decreases list.len(),
{
    reveal(Seq::filter);
    if list.len() > 0 {
        nodes_of_a_name(list.drop_last(), name);
    }
}

/// What a certificate for names says is kept, each text under its own name.
pub proof fn sni_texts_are_kept(c: SniCertificate, n: KdlNode, s: String)
    requires
        sni_of(c, n),
    ensures
        c.hostnames.deep_view() == nodes::texts_named(n.children@, "hostnames"@),
        c.priority_hostnames.deep_view() == nodes::texts_named(
            n.children@,
            "priority-hostnames"@,
        ),
        nodes::carries(n, "cert-file"@, KdlValue::Text(s)) ==> c.cert_file is Some
            && c.cert_file->0@ == s@,
        nodes::carries(n, "key-file"@, KdlValue::Text(s)) ==> c.key_file is Some && c.key_file->0@
            == s@,
        nodes::carries(n, "combined-file"@, KdlValue::Text(s)) ==> c.combined_file is Some
            && c.combined_file->0@ == s@,
        c.acme is Some <==> !nodes::lacks(n, "acme"@),
{
    nodes::settings_are_read_from_children(n, "cert-file"@, KdlValue::Text(s));
    nodes::settings_are_read_from_children(n, "key-file"@, KdlValue::Text(s));
    nodes::settings_are_read_from_children(n, "combined-file"@, KdlValue::Text(s));
    nodes::first_child_of_a_name_counts(n, "acme"@, 0);
}

/// Account credentials and those of a provider are kept, each under its own name.
pub proof fn credentials_are_kept(c: AcmeConfig, n: KdlNode, e: KdlNode, d: KdlNode, s: String)
    requires
        acme_of(c, n),
        nodes::child_of(n, "eab"@) == Some(e),
        nodes::child_of(n, "dns-provider"@) == Some(d),
    ensures
        nodes::carries(e, "kid"@, KdlValue::Text(s)) ==> c.eab->0.kid@ == s@,
        nodes::carries(e, "hmac-key"@, KdlValue::Text(s)) ==> c.eab->0.hmac_key@ == s@,
        nodes::carries(d, "credentials-file"@, KdlValue::Text(s))
            ==> c.dns_provider->0.credentials_file is Some
            && c.dns_provider->0.credentials_file->0@ == s@,
        nodes::carries(d, "credentials-env"@, KdlValue::Text(s))
            ==> c.dns_provider->0.credentials_env is Some && c.dns_provider->0.credentials_env->0@
            == s@,
{
    nodes::settings_are_read_from_children(e, "kid"@, KdlValue::Text(s));
    nodes::settings_are_read_from_children(e, "hmac-key"@, KdlValue::Text(s));
    nodes::settings_are_read_from_children(d, "credentials-file"@, KdlValue::Text(s));
    nodes::settings_are_read_from_children(d, "credentials-env"@, KdlValue::Text(s));
}

} // verus!
