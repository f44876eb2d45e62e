//! Server and listener configuration.

use crate::text;
use vstd::prelude::*;
use vstd::string::*;

verus! {

// ---------------------------------------------------------------------------
// Server
// ---------------------------------------------------------------------------

/// Trace identifier format for request tracing.
#[derive(Debug, Clone, Copy, PartialEq, Eq, Structural)]
pub enum TraceIdFormat {
    /// Short operator-friendly identifiers (default).
    TinyFlake,
    /// UUID version 4.
    Uuid,
}

/// The format that a lower-case name stands for: anything but a UUID name is
/// the default.
pub open spec fn trace_format_of(lower: Seq<char>) -> TraceIdFormat {
    if lower == "uuid"@ || lower == "uuid4"@ || lower == "uuidv4"@ {
        TraceIdFormat::Uuid
    } else {
        TraceIdFormat::TinyFlake
    }
}

impl TraceIdFormat {
    /// Parse with loose matching; unknown names fall back to the default.
    pub fn from_str_loose(s: &str) -> (r: TraceIdFormat)
        ensures
            r == trace_format_of(text::lowercase(s@)),
            vstd::utf8::is_ascii_chars(s@) ==> r == trace_format_of(text::ascii_lowercase(s@)),
    {
        let lower = text::lower(s);
        if text::same(lower.as_str(), "uuid") || text::same(lower.as_str(), "uuid4") || text::same(
            lower.as_str(),
            "uuidv4",
        ) {
            TraceIdFormat::Uuid
        } else {
            TraceIdFormat::TinyFlake
        }
    }
}

/// Server-wide configuration.
#[derive(Debug)]
pub struct ServerConfig {
    /// Number of worker threads (0 = number of CPU cores).
    pub worker_threads: usize,
    /// Maximum number of connections.
    pub max_connections: usize,
    /// Graceful shutdown timeout in seconds.
    pub graceful_shutdown_timeout_secs: u64,
    /// Enable daemon mode.
    pub daemon: bool,
    /// PID file path.
    pub pid_file: Option<String>,
    /// User to switch to after binding.
    pub user: Option<String>,
    /// Group to switch to after binding.
    pub group: Option<String>,
    /// Working directory.
    pub working_directory: Option<String>,
    /// Trace identifier format.
    pub trace_id_format: TraceIdFormat,
    /// Reload the configuration when its file changes.
    pub auto_reload: bool,
    /// Maximum entries in the route-match cache.
    pub route_cache_size: usize,
}

// ---------------------------------------------------------------------------
// Listeners
// ---------------------------------------------------------------------------

/// Listener configuration (port binding).
#[derive(Debug)]
pub struct ListenerConfig {
    /// Unique identifier of this listener.
    pub id: String,
    /// Socket address to bind to.
    pub address: String,
    /// Protocol.
    pub protocol: ListenerProtocol,
    /// TLS configuration (required for https).
    pub tls: Option<TlsConfig>,
    /// Default route if no other matches.
    pub default_route: Option<String>,
    /// Route set this listener serves, by namespace name.
    pub namespace: Option<String>,
    /// Request timeout in seconds.
    pub request_timeout_secs: u64,
    /// Keep-alive timeout in seconds.
    pub keepalive_timeout_secs: u64,
    /// Maximum concurrent streams (HTTP/2).
    pub max_concurrent_streams: u32,
    /// Maximum requests per downstream connection; `None` is unlimited.
    pub keepalive_max_requests: Option<u32>,
    /// PROXY protocol acceptance.
    pub proxy_protocol: Option<ProxyProtocolConfig>,
}

/// PROXY protocol acceptance settings of a listener.
#[derive(Debug)]
pub struct ProxyProtocolConfig {
    /// CIDR blocks allowed to send a header; never empty.
    pub trusted: Vec<String>,
    /// Deadline for the complete header, in milliseconds.
    pub header_timeout_ms: u64,
}

/// Listener protocol.
#[derive(Debug, Clone, Copy, PartialEq, Eq, Structural)]
pub enum ListenerProtocol {
    /// HTTP/1.
    Http,
    /// HTTP/1 over TLS.
    Https,
    /// HTTP/2.
    Http2,
    /// HTTP/3.
    Http3,
}

// ---------------------------------------------------------------------------
// TLS
// ---------------------------------------------------------------------------

/// TLS protocol version.
#[derive(Debug, Clone, Copy, PartialEq, Eq, Structural)]
pub enum TlsVersion {
    /// TLS 1.2.
    Tls12,
    /// TLS 1.3.
    Tls13,
}

/// The name of a TLS version.
pub open spec fn tls_name(v: TlsVersion) -> Seq<char> {
    match v {
        TlsVersion::Tls12 => "TLS1.2"@,
        TlsVersion::Tls13 => "TLS1.3"@,
    }
}

impl TlsVersion {
    /// The name for reports.
    pub fn name(&self) -> (r: &'static str)
        ensures
            r@ == tls_name(*self),
    {
        match self {
            TlsVersion::Tls12 => "TLS1.2",
            TlsVersion::Tls13 => "TLS1.3",
        }
    }
}

/// TLS configuration.
#[derive(Debug)]
pub struct TlsConfig {
    /// Default certificate file.
    pub cert_file: Option<String>,
    /// Default private key file.
    pub key_file: Option<String>,
    /// One PEM with certificate, chain and key; excludes the two above.
    pub combined_file: Option<String>,
    /// Additional certificates for SNI.
    pub additional_certs: Vec<SniCertificate>,
    /// Directories scanned for per-domain SNI certificates.
    pub sni_cert_dirs: Vec<SniCertDir>,
    /// CA certificate file for client verification.
    pub ca_file: Option<String>,
    /// Minimum TLS version.
    pub min_version: TlsVersion,
    /// Maximum TLS version.
    pub max_version: Option<TlsVersion>,
    /// Cipher suites (empty = defaults).
    pub cipher_suites: Vec<String>,
    /// Require client certificates.
    pub client_auth: bool,
    /// OCSP stapling.
    pub ocsp_stapling: bool,
    /// Session resumption.
    pub session_resumption: bool,
    /// Automatic certificate management.
    pub acme: Option<AcmeConfig>,
}

/// ACME automatic certificate configuration.
#[derive(Debug)]
pub struct AcmeConfig {
    /// Contact email.
    pub email: String,
    /// Domain names; never empty.
    pub domains: Vec<String>,
    /// Custom ACME directory URL.
    pub server_url: Option<String>,
    /// Use the staging environment.
    pub staging: bool,
    /// External account binding.
    pub eab: Option<ExternalAccountBinding>,
    /// Directory for certificates and account keys.
    pub storage: String,
    /// Days before expiry to trigger renewal.
    pub renew_before_days: u32,
    /// Challenge type.
    pub challenge_type: AcmeChallengeType,
    /// Key type.
    pub key_type: AcmeKeyType,
    /// DNS provider (required for DNS-01).
    pub dns_provider: Option<DnsProviderConfig>,
}

/// ACME key type.
#[derive(Debug, Clone, Copy, PartialEq, Eq, Structural)]
pub enum AcmeKeyType {
    /// ECDSA P-256 (default).
    EcdsaP256,
    /// ECDSA P-384.
    EcdsaP384,
}

/// The key type that a lower-case name stands for.
pub open spec fn key_type_of(lower: Seq<char>) -> Option<AcmeKeyType> {
    if lower == "ecdsa-p256"@ || lower == "p256"@ || lower == "ecdsa"@ {
        Some(AcmeKeyType::EcdsaP256)
    } else if lower == "ecdsa-p384"@ || lower == "p384"@ {
        Some(AcmeKeyType::EcdsaP384)
    } else {
        None
    }
}

/// The name of a key type.
pub open spec fn key_type_name(k: AcmeKeyType) -> Seq<char> {
    match k {
        AcmeKeyType::EcdsaP256 => "ecdsa-p256"@,
        AcmeKeyType::EcdsaP384 => "ecdsa-p384"@,
    }
}

impl AcmeKeyType {
    /// Parse from a string with loose matching.
    pub fn from_str_loose(s: &str) -> (r: Option<AcmeKeyType>)
        ensures
            r == key_type_of(text::lowercase(s@)),
            vstd::utf8::is_ascii_chars(s@) ==> r == key_type_of(text::ascii_lowercase(s@)),
    {
        let lower = text::lower(s);
        AcmeKeyType::from_lowercase(lower.as_str())
    }

    /// The key type that a lower-case name stands for.
    pub fn from_lowercase(lower: &str) -> (r: Option<AcmeKeyType>)
        ensures
            r == key_type_of(lower@),
    {
        if text::same(lower, "ecdsa-p256") || text::same(lower, "p256") || text::same(
            lower,
            "ecdsa",
        ) {
            Some(AcmeKeyType::EcdsaP256)
        } else if text::same(lower, "ecdsa-p384") || text::same(lower, "p384") {
            Some(AcmeKeyType::EcdsaP384)
        } else {
            None
        }
    }

    /// The name for configuration files and display.
    pub fn as_str(&self) -> (r: &'static str)
        ensures
            r@ == key_type_name(*self),
    {
        match self {
            AcmeKeyType::EcdsaP256 => "ecdsa-p256",
            AcmeKeyType::EcdsaP384 => "ecdsa-p384",
        }
    }
}

impl Default for AcmeKeyType {
    fn default() -> (r: AcmeKeyType)
        ensures
            r == AcmeKeyType::EcdsaP256,
    {
        AcmeKeyType::EcdsaP256
    }
}

/// The name of a key type parses back to the key type.
pub proof fn key_type_round_trip(k: AcmeKeyType)
    ensures
        key_type_of(key_type_name(k)) == Some(k),
        text::ascii_lowercase(key_type_name(k)) == key_type_name(k),
{
    reveal_strlit("ecdsa-p256");
    reveal_strlit("ecdsa-p384");
    reveal_strlit("p256");
    reveal_strlit("ecdsa");
    reveal_strlit("p384");
    assert("ecdsa-p256"@[7] != "ecdsa-p384"@[7]);
    assert(text::ascii_lowercase(key_type_name(k)) =~= key_type_name(k));
}

/// External account binding credentials.
#[derive(Debug)]
pub struct ExternalAccountBinding {
    /// Key identifier.
    pub kid: String,
    /// HMAC key.
    pub hmac_key: String,
}

/// ACME challenge type.
#[derive(Debug, Clone, Copy, PartialEq, Eq, Structural)]
pub enum AcmeChallengeType {
    /// HTTP-01 (default).
    Http01,
    /// DNS-01, required for wildcard certificates.
    Dns01,
}

impl AcmeChallengeType {
    /// True for DNS-01.
    pub fn is_dns01(&self) -> (r: bool)
        ensures
            r == (*self is Dns01),
    {
        match self {
            AcmeChallengeType::Dns01 => true,
            AcmeChallengeType::Http01 => false,
        }
    }

    /// True for HTTP-01.
    pub fn is_http01(&self) -> (r: bool)
        ensures
            r == (*self is Http01),
    {
        match self {
            AcmeChallengeType::Http01 => true,
            AcmeChallengeType::Dns01 => false,
        }
    }
}

impl Default for AcmeChallengeType {
    fn default() -> (r: AcmeChallengeType)
        ensures
            r == AcmeChallengeType::Http01,
    {
        AcmeChallengeType::Http01
    }
}

/// DNS provider configuration for DNS-01 challenges.
#[derive(Debug)]
pub struct DnsProviderConfig {
    /// Provider.
    pub provider: DnsProviderType,
    /// Path to the credentials file.
    pub credentials_file: Option<String>,
    /// Environment variable with the credentials.
    pub credentials_env: Option<String>,
    /// API request timeout in seconds.
    pub api_timeout_secs: u64,
    /// Propagation check.
    pub propagation: PropagationCheckConfig,
}

/// DNS provider type.
#[derive(Debug)]
pub enum DnsProviderType {
    /// Hetzner DNS API.
    Hetzner,
    /// Cloudflare DNS API.
    Cloudflare,
    /// Generic webhook.
    Webhook {
        /// Webhook URL.
        url: String,
        /// Custom authentication header name.
        auth_header: Option<String>,
    },
}

/// DNS propagation check.
#[derive(Debug)]
pub struct PropagationCheckConfig {
    /// Delay before the first check, in seconds.
    pub initial_delay_secs: u64,
    /// Interval between checks, in seconds.
    pub check_interval_secs: u64,
    /// Maximum time to wait, in seconds.
    pub timeout_secs: u64,
    /// Name servers to query; empty for the built-in ones.
    pub nameservers: Vec<String>,
}

impl Default for PropagationCheckConfig {
    fn default() -> (r: PropagationCheckConfig)
        ensures
            r.initial_delay_secs == 10,
            r.check_interval_secs == 5,
            r.timeout_secs == 120,
            r.nameservers@.len() == 0,
    {
        PropagationCheckConfig {
            initial_delay_secs: default_propagation_initial_delay(),
            check_interval_secs: default_propagation_check_interval(),
            timeout_secs: default_propagation_timeout(),
            nameservers: Vec::new(),
        }
    }
}

/// SNI certificate configuration.
#[derive(Debug)]
pub struct SniCertificate {
    /// Hostname patterns; when set, nothing is taken from the certificate.
    pub hostnames: Vec<String>,
    /// Hostnames that win a tie; excludes `hostnames`.
    pub priority_hostnames: Vec<String>,
    /// Certificate file.
    pub cert_file: Option<String>,
    /// Private key file.
    pub key_file: Option<String>,
    /// One PEM with certificate, chain and key.
    pub combined_file: Option<String>,
    /// ACME configuration of this certificate.
    pub acme: Option<AcmeConfig>,
}

/// A directory of per-domain certificates, one subdirectory per domain.
#[derive(Debug, PartialEq, Eq)]
pub struct SniCertDir {
    /// The directory.
    pub path: String,
    /// File name of the combined PEM inside each subdirectory.
    pub combined_name: String,
    /// File name of the certificate chain, for split layouts.
    pub cert_name: Option<String>,
    /// File name of the private key, for split layouts.
    pub key_name: Option<String>,
}

/// The layout of a certificate directory: file names of certificate and key.
pub open spec fn file_names(d: SniCertDir) -> (Seq<char>, Seq<char>) {
    match (d.cert_name, d.key_name) {
        (Some(cert), Some(key)) => (cert@, key@),
        _ => (d.combined_name@, d.combined_name@),
    }
}

impl SniCertDir {
    /// File names of certificate and key inside a domain subdirectory. Both are
    /// the same for the combined layout, which also applies when only one of
    /// the split names is set.
    pub fn names(&self) -> (r: (&str, &str))
        ensures
            (r.0@, r.1@) == file_names(*self),
    {
        match (&self.cert_name, &self.key_name) {
            (Some(cert), Some(key)) => (cert.as_str(), key.as_str()),
            _ => (self.combined_name.as_str(), self.combined_name.as_str()),
        }
    }

    /// Certificate and key names for a domain subdirectory, or `None` when the
    /// subdirectory does not hold them. `cert_exists` and `key_exists` say
    /// whether the files under [`SniCertDir::names`] exist.
    pub fn paths_for(&self, cert_exists: bool, key_exists: bool) -> (r: Option<(&str, &str)>)
        ensures
            (match r {
                Some(p) => cert_exists && key_exists && (p.0@, p.1@) == file_names(*self),
                None => !(cert_exists && key_exists),
            }),
    {
        if cert_exists && key_exists {
            Some(self.names())
        } else {
            None
        }
    }
}

// ---------------------------------------------------------------------------
// Default values
// ---------------------------------------------------------------------------

pub fn default_combined_file_name() -> (r: String)
    ensures
        r@ == "combined"@,
{
    "combined".to_owned()
}

pub fn default_worker_threads() -> (r: usize)
    ensures
        r == 0,
{
    0
}

pub fn default_max_connections() -> (r: usize)
    ensures
        r == 10000,
{
    10000
}

pub fn default_route_cache_size() -> (r: usize)
    ensures
        r == 1000,
{
    1000
}

pub fn default_graceful_shutdown_timeout() -> (r: u64)
    ensures
        r == 30,
{
    30
}

pub fn default_request_timeout() -> (r: u64)
    ensures
        r == 60,
{
    60
}

pub fn default_keepalive_timeout() -> (r: u64)
    ensures
        r == 75,
{
    75
}

pub fn default_max_concurrent_streams() -> (r: u32)
    ensures
        r == 100,
{
    100
}

pub fn default_proxy_protocol_header_timeout_ms() -> (r: u64)
    ensures
        r == 2000,
{
    2000
}

pub fn default_min_tls_version() -> (r: TlsVersion)
    ensures
        r == TlsVersion::Tls12,
{
    TlsVersion::Tls12
}

pub fn default_acme_storage() -> (r: String)
    ensures
        r@ == "/var/lib/zentinel/acme"@,
{
    "/var/lib/zentinel/acme".to_owned()
}

pub fn default_renewal_days() -> (r: u32)
    ensures
        r == 30,
{
    30
}

pub fn default_dns_api_timeout() -> (r: u64)
    ensures
        r == 30,
{
    30
}

pub fn default_propagation_initial_delay() -> (r: u64)
    ensures
        r == 10,
{
    10
}

pub fn default_propagation_check_interval() -> (r: u64)
    ensures
        r == 5,
{
    5
}

pub fn default_propagation_timeout() -> (r: u64)
    ensures
        r == 120,
{
    120
}

/// A directory is split exactly if both names are set; else one file holds everything.
pub proof fn split_layout_needs_both_names(d: SniCertDir)
    ensures
        d.cert_name is Some && d.key_name is Some ==> file_names(d) == (
            d.cert_name->0@,
            d.key_name->0@,
        ),
        d.cert_name is None || d.key_name is None ==> file_names(d) == (
            d.combined_name@,
            d.combined_name@,
        ),
{
}

/// The names of the key types and formats that are known, and no others.
pub proof fn known_names(lower: Seq<char>)
    ensures
        key_type_of(lower) == Some(AcmeKeyType::EcdsaP256) <==> lower == "ecdsa-p256"@ || lower
            == "p256"@ || lower == "ecdsa"@,
        key_type_of(lower) == Some(AcmeKeyType::EcdsaP384) <==> lower == "ecdsa-p384"@ || lower
            == "p384"@,
        trace_format_of(lower) is Uuid <==> lower == "uuid"@ || lower == "uuid4"@ || lower
            == "uuidv4"@,
        tls_name(TlsVersion::Tls12) == "TLS1.2"@,
        tls_name(TlsVersion::Tls13) == "TLS1.3"@,
{
    reveal_strlit("ecdsa-p256");
    reveal_strlit("ecdsa-p384");
    reveal_strlit("p256");
    reveal_strlit("p384");
    reveal_strlit("ecdsa");
    assert("ecdsa-p256"@[7] == '2' && "ecdsa-p384"@[7] == '3');
    assert("p256"@[1] == '2' && "p384"@[1] == '3');
    assert("ecdsa-p256"@.len() == 10 && "ecdsa-p384"@.len() == 10);
    assert("p256"@.len() == 4 && "p384"@.len() == 4 && "ecdsa"@.len() == 5);
}

} // verus!
