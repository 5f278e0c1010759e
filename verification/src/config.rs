//! Configuration model and hierarchical resolution.
//!
//! Many settings are overridable and resolved by walking outward from the most
//! specific scope to the least: route, the route's template, listener, the
//! listener's template, global. A scope's own value beats the template it uses,
//! which in turn beats the enclosing scope; an unset value inherits from the next
//! scope out.

pub mod build_order;
pub mod ladder;
pub mod references;
pub mod upstream;
pub mod validate;

use crate::net::SocketAddr;
use crate::text;
use crate::time::Duration;
use vstd::prelude::*;

verus! {

// ---------------------------------------------------------------------------
// Enumerated settings
// ---------------------------------------------------------------------------

/// How an upstream connection is made.
#[derive(Debug, Clone, Copy, PartialEq, Eq, Structural)]
pub enum RouteType {
    /// Re-originate to the upstream over TLS 1.3 with Encrypted Client Hello.
    Ech,
    /// Re-originate over plain TLS.
    Tls,
    /// Forward as cleartext HTTP.
    Http,
    /// Do not terminate: splice the raw stream to the upstream.
    Raw,
    /// Terminate HTTP/3 and re-originate over plain TLS.
    H3,
    /// Terminate HTTP/3 and re-originate with Encrypted Client Hello.
    H3Ech,
}

/// What SNI to present on the upstream handshake.
///
/// The blank case is deliberately distinct from "unset": omitting `override_sni`
/// means reflect, whereas a blank value asks for no SNI extension at all.
#[derive(Debug, Clone, PartialEq, Eq)]
pub enum SniPolicy {
    /// Present the inbound SNI/Host verbatim.
    Reflect,
    /// Present this fixed name.
    Fixed(String),
    /// Send no `server_name` extension. The upstream certificate is still
    /// verified against the name that would otherwise have been sent.
    Omit,
}

/// What an [`SniPolicy`] says, over character sequences.
pub enum SniView {
    Reflect,
    Fixed(Seq<char>),
    Omit,
}

impl View for SniPolicy {
    type V = SniView;

    open spec fn view(&self) -> SniView {
        match self {
            SniPolicy::Reflect => SniView::Reflect,
            SniPolicy::Fixed(name) => SniView::Fixed(name@),
            SniPolicy::Omit => SniView::Omit,
        }
    }
}

/// The policy that a raw `override_sni` value asks for.
pub open spec fn sni_policy_of(override_sni: Option<Seq<char>>) -> SniView {
    match override_sni {
        None => SniView::Reflect,
        Some(s) => if text::trim(s).len() == 0 {
            SniView::Omit
        } else {
            SniView::Fixed(text::trim(s))
        },
    }
}

impl SniPolicy {
    /// Map a raw `override_sni` value onto a policy. A value that is present but
    /// blank selects [`SniPolicy::Omit`].
    pub fn resolve(override_sni: Option<&str>) -> (r: Self)
        ensures
            r@ == sni_policy_of(text::opt_str(override_sni)),
    {
        match override_sni {
            None => SniPolicy::Reflect,
            Some(s) => {
                let name = text::trimmed_chars(s);
                if name.len() == 0 {
                    SniPolicy::Omit
                } else {
                    SniPolicy::Fixed(text::string_of(name.as_slice()))
                }
            },
        }
    }
}

/// What a failed startup h2c probe should do. No mode silently downgrades a
/// route to HTTP/1.1.
#[derive(Debug, Clone, Copy, PartialEq, Eq, Structural)]
pub enum H2Probe {
    /// Do not probe at all.
    Off,
    /// Warn and keep HTTP/2 enabled as configured.
    Warn,
    /// Fail startup when the backend does not speak h2c.
    Require,
}

impl Default for H2Probe {
    fn default() -> (r: Self)
        ensures
            r == H2Probe::Warn,
    {
        H2Probe::Warn
    }
}

/// How the ECHConfigList is sourced.
#[derive(Debug, Clone, Copy, PartialEq, Eq, Structural)]
pub enum EchMode {
    /// Look up the HTTPS record and extract `ech=`.
    Doh,
    /// Use a fixed inline base64 ECHConfigList.
    Static,
    /// Prefer the lookup, fall back to the inline config if it fails.
    DohWithFallback,
}

impl Default for EchMode {
    fn default() -> (r: Self)
        ensures
            r == EchMode::Doh,
    {
        EchMode::Doh
    }
}

/// Upstream address family selection.
#[derive(Debug, Clone, Copy, PartialEq, Eq, Hash, Structural)]
pub enum AddressFamily {
    /// Prefer AAAA, fall back to A.
    Dual,
    /// A records only.
    Ipv4,
    /// AAAA records only; NAT64 disabled.
    Ipv6,
}

impl Default for AddressFamily {
    fn default() -> (r: Self)
        ensures
            r == AddressFamily::Dual,
    {
        AddressFamily::Dual
    }
}

/// What to do when a connection cannot be served.
#[derive(Debug, Clone, Copy, PartialEq, Eq, Structural)]
pub enum FailPolicy {
    /// Drop the connection.
    Close,
    /// Dial the target named by the SNI/Host directly.
    SystemOutbound,
    /// Splice the raw stream to a fixed address.
    Passthrough { addr: SocketAddr },
}

impl Default for FailPolicy {
    fn default() -> (r: Self)
        ensures
            r == FailPolicy::Close,
    {
        FailPolicy::Close
    }
}

/// The policy that a mode names, or what is wrong with it. Only `passthrough` takes
/// an address; any other mode ignores one.
pub open spec fn policy_of(mode: Seq<char>, addr: Option<SocketAddr>) -> Result<FailPolicy, Seq<char>> {
    if mode == "close"@ {
        Ok(FailPolicy::Close)
    } else if mode == "system-outbound"@ {
        Ok(FailPolicy::SystemOutbound)
    } else if mode == "passthrough"@ {
        match addr {
            Some(addr) => Ok(FailPolicy::Passthrough { addr }),
            None => Err("fail mode \"passthrough\" requires an `addr`"@),
        }
    } else {
        Err(
            "unknown fail mode "@ + text::quoted(mode) + " (expected close | system-outbound | passthrough)"@,
        )
    }
}

impl FailPolicy {
    /// Read a policy from its mode and, if one is given, its address.
    pub fn from_mode(mode: &str, addr: Option<SocketAddr>) -> (r: Result<Self, String>)
        ensures
            match r {
                Ok(p) => policy_of(mode@, addr) == Ok::<FailPolicy, Seq<char>>(p),
                Err(m) => policy_of(mode@, addr) == Err::<FailPolicy, Seq<char>>(m@),
            },
    {
        if text::same_text(mode, "close") {
            Ok(FailPolicy::Close)
        } else if text::same_text(mode, "system-outbound") {
            Ok(FailPolicy::SystemOutbound)
        } else if text::same_text(mode, "passthrough") {
            match addr {
                Some(addr) => Ok(FailPolicy::Passthrough { addr }),
                None => Err("fail mode \"passthrough\" requires an `addr`".to_owned()),
            }
        } else {
            Err(
                text::concat3(
                    "unknown fail mode ",
                    text::quote(mode).as_str(),
                    " (expected close | system-outbound | passthrough)",
                ),
            )
        }
    }
}

/// What set of names a per-SNI leaf certificate should cover.
#[derive(Debug, Clone, Copy, PartialEq, Eq, Structural)]
pub enum IssuanceMode {
    /// Only the requested host.
    Exact,
    /// The host and its direct subdomains.
    Wildcard,
    /// The host and every ancestor up to the registrable domain, each with its
    /// single-level wildcard.
    Ladder,
}

impl Default for IssuanceMode {
    fn default() -> (r: Self)
        ensures
            r == IssuanceMode::Wildcard,
    {
        IssuanceMode::Wildcard
    }
}

/// Where the public suffix list comes from.
#[derive(Debug, Clone, Copy, PartialEq, Eq, Structural)]
pub enum PslSource {
    Embedded,
    File,
}

impl Default for PslSource {
    fn default() -> (r: Self)
        ensures
            r == PslSource::Embedded,
    {
        PslSource::Embedded
    }
}

// ---------------------------------------------------------------------------
// The document
// ---------------------------------------------------------------------------

/// Why a configuration is refused.
#[derive(Debug, Clone, PartialEq, Eq)]
pub enum ConfigError {
    /// The document contradicts itself, in the way the message says.
    Invalid(String),
}

impl ConfigError {
    /// What is wrong.
    pub open spec fn text(self) -> Seq<char> {
        match self {
            ConfigError::Invalid(message) => message@,
        }
    }

    /// What is wrong.
    pub fn message(&self) -> (r: String)
        ensures
            r@ == self.text(),
    {
        match self {
            ConfigError::Invalid(message) => message.clone(),
        }
    }
}

/// Per-scope ECH settings.
#[derive(Debug, Clone)]
pub struct EchConfig {
    /// Where the ECHConfigList comes from; unset inherits.
    pub mode: Option<EchMode>,
    /// Base64 ECHConfigList for `static` and `doh-with-fallback`.
    pub config: Option<String>,
    /// Name whose HTTPS record is queried.
    pub ech_domain: Option<String>,
    /// Fail closed unless ECH is negotiated.
    pub require_ech: Option<bool>,
    /// Most ECH retries on server rejection.
    pub max_retries: Option<u32>,
    /// ECH refresh bound.
    pub ech_refresh: Option<Duration>,
    /// Resolver for the ECH HTTPS-record lookup.
    pub ech_resolver: Option<String>,
}

/// Per-scope HTTP/2 settings.
#[derive(Debug, Clone)]
pub struct Http2Config {
    /// Allow HTTP/2 on the route.
    pub enabled: Option<bool>,
    /// What a failed startup h2c probe does.
    pub probe: Option<H2Probe>,
    /// Timeout of the startup h2c probe.
    pub probe_timeout: Option<Duration>,
}

/// Settings that may be set at any scope and inherit outward.
#[derive(Debug, Clone)]
pub struct CommonOpts {
    /// Generic resolver spec.
    pub resolver: Option<String>,
    /// Resolver for ECH HTTPS-record lookups.
    pub ech_resolver: Option<String>,
    /// Resolver for upstream addresses.
    pub addr_resolver: Option<String>,
    /// ECH refresh bound.
    pub ech_refresh: Option<Duration>,
    /// NAT64 prefix for synthesizing IPv6 from a resolved IPv4 upstream.
    pub nat64_prefix: Option<String>,
    pub address_family: Option<AddressFamily>,
    /// Fail closed unless ECH is negotiated.
    pub require_ech: Option<bool>,
    /// Upstream connect and handshake timeout.
    pub connect_timeout: Option<Duration>,
    /// Idle timeout of the proxied stream.
    pub idle_timeout: Option<Duration>,
}

/// Process-wide defaults and the outermost scope.
#[derive(Debug, Clone)]
pub struct Global {
    /// Log filter directive.
    pub log: String,
    pub common: CommonOpts,
    pub ech: Option<EchConfig>,
    pub http2: Option<Http2Config>,
    /// Policy for connections matching no route and no default route.
    pub unmatched: FailPolicy,
}

/// One inbound bind address and its routes.
#[derive(Debug, Clone)]
pub struct Listener {
    /// Address to accept on.
    pub addr: SocketAddr,
    /// Name of the template that this listener uses.
    pub use_template: Option<String>,
    pub common: CommonOpts,
    pub ech: Option<EchConfig>,
    pub http2: Option<Http2Config>,
    /// Routes matched by inbound SNI/Host.
    pub routes: Vec<Route>,
    /// Catch-all for names matching no route.
    pub default_route: Option<Route>,
}

/// One forwarding rule.
#[derive(Debug, Clone)]
pub struct Route {
    /// Human-readable name for logs.
    pub name: Option<String>,
    /// Name of the template that this route uses.
    pub use_template: Option<String>,
    /// Upstream protocol handling; may come from the template.
    pub route_type: Option<RouteType>,
    /// Patterns matched against the inbound SNI/Host.
    pub match_sni: Vec<String>,
    /// Upstream to dial; host and port may each be defaulted.
    pub upstream: Option<String>,
    /// SNI sent to the upstream.
    pub override_sni: Option<String>,
    pub ech: Option<EchConfig>,
    pub http2: Option<Http2Config>,
    /// Pinned certificate chain for local termination.
    pub cert_file: Option<String>,
    /// Its key.
    pub key_file: Option<String>,
    pub common: CommonOpts,
    /// Failure policy of this route.
    pub fail: Option<FailPolicy>,
}

/// A reusable bundle of settings. It cannot use another one.
#[derive(Debug, Clone)]
pub struct Template {
    pub route_type: Option<RouteType>,
    pub upstream: Option<String>,
    pub override_sni: Option<String>,
    pub cert_file: Option<String>,
    pub key_file: Option<String>,
    pub ech: Option<EchConfig>,
    pub http2: Option<Http2Config>,
    pub common: CommonOpts,
    pub fail: Option<FailPolicy>,
}

/// A named regular expression for SNI/Host matching, with the domain suffixes
/// that it may match.
#[derive(Debug, Clone)]
pub struct RegexDef {
    pub pattern: String,
    pub scope_suffix: Vec<String>,
}

/// A named DNS resolver.
#[derive(Debug, Clone)]
pub struct ResolverDef {
    /// The transport: `system`, `https://..`, `tls://..`, `udp://..`, `tcp://..`
    /// or a bare address.
    pub endpoint: String,
    /// Where to dial, when that differs from the endpoint's own host.
    pub upstream: Option<String>,
    /// TLS server name presented to the endpoint.
    pub override_sni: Option<String>,
    /// Resolver that turns the dial host into an address. Never inherited.
    pub bootstrap: Option<String>,
    /// ECH for this resolver's own handshake. Its presence is never inherited,
    /// though its fields are.
    pub ech: Option<EchConfig>,
    pub address_family: Option<AddressFamily>,
    pub nat64_prefix: Option<String>,
    pub connect_timeout: Option<Duration>,
}

/// Certificate authority settings.
#[derive(Debug, Clone)]
pub struct CaConfig {
    pub cert_path: String,
    pub key_path: String,
    pub common_name: String,
    pub organization: String,
    pub country: String,
    pub leaf_validity_days: u32,
    pub install_to_system_root: bool,
}

/// Per-SNI issuance policy.
#[derive(Debug, Clone)]
pub struct IssuanceConfig {
    /// The upper bound on how much one certificate may cover.
    pub mode: IssuanceMode,
}

impl Default for IssuanceConfig {
    fn default() -> (r: Self)
        ensures
            r.mode == IssuanceMode::Wildcard,
    {
        IssuanceConfig { mode: IssuanceMode::Wildcard }
    }
}

impl IssuanceConfig {
    /// The configured issuance mode.
    pub fn resolved_mode(&self) -> (r: IssuanceMode)
        ensures
            r == self.mode,
    {
        self.mode
    }
}

/// Certificate store settings.
#[derive(Debug, Clone)]
pub struct StoreConfig {
    pub enabled: bool,
    pub dir: String,
    pub renew_margin_days: u32,
}

impl Default for StoreConfig {
    fn default() -> (r: Self)
        ensures
            r.enabled,
            r.dir@ == "certs"@,
            r.renew_margin_days == 30,
    {
        StoreConfig { enabled: true, dir: "certs".to_owned(), renew_margin_days: 30 }
    }
}

/// Public-suffix list settings.
#[derive(Debug, Clone)]
pub struct PslConfig {
    pub source: PslSource,
    /// File path, for the file source.
    pub path: String,
    /// Whether to download the list when it is stale.
    pub auto_update: bool,
    pub update_url: String,
    /// Age from which the list is stale.
    pub max_age: Duration,
    /// How often to check the age at runtime.
    pub check_interval: Option<Duration>,
    pub update_timeout: Duration,
    /// Whether to reload the list when the file changes.
    pub auto_reload: bool,
}

impl Default for PslConfig {
    fn default() -> (r: Self)
        ensures
            r.source == PslSource::Embedded,
            r.path@ == "cache/public_suffix_list.dat"@,
            !r.auto_update,
            r.update_url@ == "https://publicsuffix.org/list/public_suffix_list.dat"@,
            r.max_age.nanos == 2592000000000000,
            r.check_interval is None,
            r.update_timeout.nanos == 30000000000,
            !r.auto_reload,
    {
        PslConfig {
            source: PslSource::Embedded,
            path: "cache/public_suffix_list.dat".to_owned(),
            auto_update: false,
            update_url: "https://publicsuffix.org/list/public_suffix_list.dat".to_owned(),
            max_age: Duration::from_secs(2592000),
            check_interval: None,
            update_timeout: Duration::from_secs(30),
            auto_reload: false,
        }
    }
}

/// Certificate cache settings.
#[derive(Debug, Clone)]
pub struct CacheConfig {
    pub capacity: u64,
    pub ttl_secs: u64,
}

impl Default for CacheConfig {
    fn default() -> (r: Self)
        ensures
            r.capacity == 8192,
            r.ttl_secs == 86400,
    {
        CacheConfig { capacity: 8192, ttl_secs: 86400 }
    }
}

/// The configuration document. Templates, resolvers and regexes are declared
/// under names that occur once each.
#[derive(Debug, Clone)]
pub struct Config {
    pub global: Global,
    pub ca: CaConfig,
    pub issuance: IssuanceConfig,
    pub store: StoreConfig,
    pub cache: CacheConfig,
    pub psl: PslConfig,
    pub templates: Vec<(String, Template)>,
    pub resolvers: Vec<(String, ResolverDef)>,
    pub regexes: Vec<(String, RegexDef)>,
    pub listeners: Vec<Listener>,
}

// ---------------------------------------------------------------------------
// Effective settings
// ---------------------------------------------------------------------------

/// The settings of one route after the scopes have been walked.
#[derive(Debug, Clone)]
pub struct Effective {
    pub ech_resolver: Option<String>,
    pub addr_resolver: Option<String>,
    pub ech_refresh: Duration,
    pub nat64_prefix: Option<String>,
    pub address_family: AddressFamily,
    pub require_ech: bool,
    pub connect_timeout: Duration,
    pub idle_timeout: Duration,
    pub fail: FailPolicy,
}

/// The ECH identity of one route or resolver after the scopes have been walked.
#[derive(Debug, Clone, PartialEq, Eq)]
pub struct EffectiveEch {
    pub mode: EchMode,
    pub config: Option<String>,
    pub ech_domain: Option<String>,
    pub max_retries: u32,
}

/// The HTTP/2 settings of one route after the scopes have been walked.
#[derive(Debug, Clone, PartialEq, Eq)]
pub struct EffectiveHttp2 {
    pub enabled: bool,
    pub probe: H2Probe,
    pub probe_timeout: Duration,
}

/// The settings of one named resolver.
#[derive(Debug, Clone)]
pub struct EffectiveResolver {
    /// The name it was declared under.
    pub name: String,
    pub endpoint: String,
    pub upstream: Option<String>,
    pub sni_policy: SniPolicy,
    pub bootstrap: Option<String>,
    pub address_family: AddressFamily,
    pub nat64_prefix: Option<String>,
    pub connect_timeout: Duration,
    /// Present only when the definition carries its own ECH block.
    pub ech: Option<EffectiveEch>,
    pub require_ech: bool,
    pub ech_refresh: Duration,
    /// Resolver for this resolver's own ECH lookup. Never inherited.
    pub ech_resolver: Option<String>,
}

/// The default ECH refresh bound: one hour.
pub const DEFAULT_ECH_REFRESH_SECS: u64 = 3600;

/// The default connect timeout: fifteen seconds.
pub const DEFAULT_CONNECT_TIMEOUT_SECS: u64 = 15;

/// The default idle timeout: five minutes.
pub const DEFAULT_IDLE_TIMEOUT_SECS: u64 = 300;

/// The default h2c probe timeout: three seconds.
pub const DEFAULT_PROBE_TIMEOUT_SECS: u64 = 3;

/// The default number of ECH retries.
pub const DEFAULT_MAX_RETRIES: u32 = 2;

/// A span of whole seconds.
pub open spec fn secs(n: u64) -> Duration {
    Duration { nanos: (n * 1000000000) as u128 }
}

impl CommonOpts {
    /// Nothing set.
    pub fn unset() -> (r: Self)
        ensures
            r.resolver is None,
            r.ech_resolver is None,
            r.addr_resolver is None,
            r.ech_refresh is None,
            r.nat64_prefix is None,
            r.address_family is None,
            r.require_ech is None,
            r.connect_timeout is None,
            r.idle_timeout is None,
    {
        CommonOpts {
            resolver: None,
            ech_resolver: None,
            addr_resolver: None,
            ech_refresh: None,
            nat64_prefix: None,
            address_family: None,
            require_ech: None,
            connect_timeout: None,
            idle_timeout: None,
        }
    }
}

impl Default for CommonOpts {
    fn default() -> (r: Self)
        ensures
            r.resolver is None,
            r.ech_resolver is None,
            r.addr_resolver is None,
            r.ech_refresh is None,
            r.nat64_prefix is None,
            r.address_family is None,
            r.require_ech is None,
            r.connect_timeout is None,
            r.idle_timeout is None,
    {
        CommonOpts::unset()
    }
}

/// An `override_sni` that says nothing reflects the client's name; one that is blank
/// sends none; any other is sent, without the blanks around it.
pub proof fn law_override_is_what_it_says(s: Seq<char>)
    ensures
        sni_policy_of(None) == SniView::Reflect,
        s.len() == 0 ==> sni_policy_of(Some(s)) == SniView::Omit,
        s.len() > 0 && !text::is_space(s[0]) && !text::is_space(s.last()) ==> sni_policy_of(Some(s))
            == SniView::Fixed(s),
{
    if s.len() > 0 && !text::is_space(s[0]) && !text::is_space(s.last()) {
        text::lemma_trimmed_already(s);
    }
}

/// A failure policy is the one that its mode names; only `passthrough` takes, and needs,
/// an address.
pub proof fn law_policy_is_what_its_mode_names(mode: Seq<char>, addr: Option<SocketAddr>)
    ensures
        mode == "close"@ ==> policy_of(mode, addr) == Ok::<FailPolicy, Seq<char>>(FailPolicy::Close),
        mode == "system-outbound"@ ==> policy_of(mode, addr) == Ok::<FailPolicy, Seq<char>>(
            FailPolicy::SystemOutbound,
        ),
        mode == "passthrough"@ ==> (addr matches Some(a) ==> policy_of(mode, addr) == Ok::<FailPolicy, Seq<char>>(
            FailPolicy::Passthrough { addr: a },
        )),
        mode == "passthrough"@ && addr is None ==> policy_of(mode, addr) is Err,
        mode != "close"@ && mode != "system-outbound"@ && mode != "passthrough"@ ==> policy_of(mode, addr) is Err,
{
    reveal_strlit("close");
    reveal_strlit("system-outbound");
    reveal_strlit("passthrough");
    assert("close"@.len() == 5 && "system-outbound"@.len() == 15 && "passthrough"@.len() == 11);
}

} // verus!
