//! Encrypted ClientHello: where an ECHConfigList comes from, and the TLS client
//! configurations that are made from one.

pub mod provider;

use crate::config::{EchMode, EffectiveEch};
use crate::octets;
use crate::text;
use crate::text::{push_dec, push_text};
use crate::time::Duration;
use base64::Engine;
use rustls::client::EchGreaseConfig;
use rustls::crypto::hpke::Hpke;
use rustls::{ClientConfig, RootCertStore};
use std::sync::Arc;
use vstd::prelude::*;

verus! {

// ---------------------------------------------------------------------------
// Outside types
// ---------------------------------------------------------------------------

#[verifier::external_type_specification]
#[verifier::external_body]
pub struct ExEchGreaseConfig(rustls::client::EchGreaseConfig);

#[verifier::external_type_specification]
#[verifier::external_body]
pub struct ExClientConfig(rustls::ClientConfig);

#[verifier::external_type_specification]
#[verifier::external_body]
pub struct ExRootCertStore(rustls::RootCertStore);

// ---------------------------------------------------------------------------
// Errors
// ---------------------------------------------------------------------------

/// Why there is no TLS client configuration.
#[derive(Debug)]
pub enum EchError {
    /// Nothing is published under this name, and ECH is required.
    NoRecord(String),
    /// No configuration was given, or none that can be used.
    NoCompatibleConfig,
    /// The inline configuration is not base64.
    Base64(String),
    /// The lookup of this name failed.
    Lookup { name: String, reason: String },
    /// The TLS library refused.
    Rustls(String),
}

/// What an error says.
pub enum ErrorView {
    NoRecord(Seq<char>),
    NoCompatibleConfig,
    Base64(Seq<char>),
    Lookup { name: Seq<char>, reason: Seq<char> },
    Rustls(Seq<char>),
}

impl View for EchError {
    type V = ErrorView;

    open spec fn view(&self) -> ErrorView {
        match self {
            EchError::NoRecord(n) => ErrorView::NoRecord(n@),
            EchError::NoCompatibleConfig => ErrorView::NoCompatibleConfig,
            EchError::Base64(t) => ErrorView::Base64(t@),
            EchError::Lookup { name, reason } => ErrorView::Lookup { name: name@, reason: reason@ },
            EchError::Rustls(t) => ErrorView::Rustls(t@),
        }
    }
}

// ---------------------------------------------------------------------------
// Names and records
// ---------------------------------------------------------------------------

/// The name whose HTTPS record speaks for a service: the host itself on port 443,
/// the port-prefixed name elsewhere.
pub open spec fn record_name(base: Seq<char>, port: u16) -> Seq<char> {
    if port == 443 {
        base
    } else {
        "_"@ + text::dec(port as nat) + "._https."@ + base
    }
}

/// The name whose HTTPS record speaks for a service on a port.
pub fn https_lookup_name(base: &str, port: u16) -> (r: String)
    ensures
        r@ == record_name(base@, port),
{
    if port == 443 {
        base.to_owned()
    } else {
        let mut out = "_".to_owned();
        push_dec(&mut out, port as u64);
        push_text(&mut out, "._https.");
        push_text(&mut out, base);
        out
    }
}

/// One answer to an HTTPS query: its time to live in seconds, and the
/// ECHConfigLists among its parameters.
#[derive(Debug, Clone, PartialEq, Eq)]
pub struct HttpsRecord {
    pub ttl: u32,
    pub ech: Vec<Vec<u8>>,
}

/// The first ECHConfigList in the answers, and the lifetime of its record.
pub open spec fn published(records: Seq<HttpsRecord>) -> Option<(Seq<u8>, Duration)>
    decreases records.len(),
{
    if records.len() == 0 {
        None
    } else if records[0].ech@.len() > 0 {
        Some((records[0].ech@[0]@, Duration { nanos: (records[0].ttl * 1000000000) as u128 }))
    } else {
        published(records.skip(1))
    }
}

/// The first ECHConfigList in the answers, and the lifetime of its record.
pub fn first_ech(records: &Vec<HttpsRecord>) -> (r: Option<(Vec<u8>, Duration)>)
    ensures
        match r {
            Some((bytes, ttl)) => published(records@) == Some((bytes@, ttl)) && ttl.valid(),
            None => published(records@) is None,
        },
{
    let mut i: usize = 0;
    assert(records@.skip(0) =~= records@);
    while i < records.len()
        invariant
            i <= records@.len(),
            published(records@) == published(records@.skip(i as int)),
        decreases records@.len() - i,
    {
        assert(records@.skip(i as int)[0] == records@[i as int]);
        assert(records@.skip(i as int).skip(1) =~= records@.skip(i + 1));
        if records[i].ech.len() > 0 {
            return Some((octets::to_vec(records[i].ech[0].as_slice()), Duration::from_secs(records[i].ttl as u64)));
        }
        i = i + 1;
    }
    None
}

// ---------------------------------------------------------------------------
// Acquiring an ECHConfigList
// ---------------------------------------------------------------------------

/// What decoding a text as padded standard base64 gives: the bytes, or the
/// decoder's complaint.
pub uninterp spec fn base64_decoded(s: Seq<char>) -> Result<Seq<u8>, Seq<char>>;

/// `Engine::decode` of base64's `STANDARD` engine: the bytes that a text encodes,
/// or the text of its `DecodeError`. Which texts are accepted, and which bytes
/// they stand for, is left to the engine; the same text always gives the same
/// result.
#[verifier::external_body]
fn base64_decode(s: &str) -> (r: Result<Vec<u8>, String>)
    ensures
        match r {
            Ok(bytes) => base64_decoded(s@) == Ok::<Seq<u8>, Seq<char>>(bytes@),
            Err(reason) => base64_decoded(s@) == Err::<Seq<u8>, Seq<char>>(reason@),
        },
{
    match base64::engine::general_purpose::STANDARD.decode(s) {
        Ok(bytes) => Ok(bytes),
        Err(e) => Err(format!("{e}")),
    }
}

/// The bytes of an inline configuration: base64 with white space around it.
pub open spec fn inline_bytes(s: Seq<char>) -> Result<Seq<u8>, ErrorView> {
    match base64_decoded(text::trim(s)) {
        Ok(bytes) => Ok(bytes),
        Err(reason) => Err(ErrorView::Base64(reason)),
    }
}

/// Decode an inline ECHConfigList.
pub fn decode_ech_b64(s: &str) -> (r: Result<Vec<u8>, EchError>)
    ensures
        match r {
            Ok(bytes) => inline_bytes(s@) == Ok::<Seq<u8>, ErrorView>(bytes@),
            Err(e) => inline_bytes(s@) == Err::<Seq<u8>, ErrorView>(e@),
        },
{
    let inner = text::trimmed_text(s);
    match base64_decode(inner.as_str()) {
        Ok(bytes) => Ok(bytes),
        Err(reason) => Err(EchError::Base64(reason)),
    }
}

/// What an optional inline configuration yields.
pub open spec fn inline_config(config: Option<String>) -> Result<Seq<u8>, ErrorView> {
    match config {
        Some(c) => inline_bytes(c@),
        None => Err(ErrorView::NoCompatibleConfig),
    }
}

fn inline(config: &Option<String>) -> (r: Result<Vec<u8>, EchError>)
    ensures
        match r {
            Ok(bytes) => inline_config(*config) == Ok::<Seq<u8>, ErrorView>(bytes@),
            Err(e) => inline_config(*config) == Err::<Seq<u8>, ErrorView>(e@),
        },
{
    match config {
        Some(c) => decode_ech_b64(c.as_str()),
        None => Err(EchError::NoCompatibleConfig),
    }
}

/// What a lookup brought back.
pub open spec fn answer_view(answer: Result<Vec<HttpsRecord>, String>) -> Result<Seq<HttpsRecord>, Seq<char>> {
    match answer {
        Ok(records) => Ok(records@),
        Err(reason) => Err(reason@),
    }
}

/// The ECHConfigList for a route and how long it may be used, as its source says.
///
/// A static source is the inline configuration. A looked-up one is what the records
/// publish, which may be nothing; where the lookup failed or published nothing, the
/// inline configuration steps in if the source has that fallback.
pub open spec fn acquired(
    settings: EffectiveEch,
    name: Seq<char>,
    answer: Result<Seq<HttpsRecord>, Seq<char>>,
) -> Result<(Option<Seq<u8>>, Option<Duration>), ErrorView> {
    let found = match answer {
        Ok(records) => published(records),
        Err(_) => None,
    };
    match (settings.mode, found) {
        (EchMode::Doh, Some((bytes, ttl))) | (EchMode::DohWithFallback, Some((bytes, ttl))) => Ok(
            (Some(bytes), Some(ttl)),
        ),
        (EchMode::Doh, None) => match answer {
            Ok(_) => Ok((None, None)),
            Err(reason) => Err(ErrorView::Lookup { name, reason }),
        },
        _ => match inline_config(settings.config) {
            Ok(bytes) => Ok((Some(bytes), None)),
            Err(e) => Err(e),
        },
    }
}

/// Choose the ECHConfigList for a route, given what the lookup of `name` brought.
/// In static mode there is no lookup and the answer is not read.
pub fn acquire_config_list(settings: &EffectiveEch, name: &str, answer: &Result<Vec<HttpsRecord>, String>) -> (r:
    Result<(Option<Vec<u8>>, Option<Duration>), EchError>)
    ensures
        match (r, acquired(*settings, name@, answer_view(*answer))) {
            (Ok((Some(bytes), ttl)), Ok((Some(b), t))) => bytes@ == b && ttl == t,
            (Ok((None, ttl)), Ok((None, t))) => ttl == t,
            (Err(e), Err(x)) => e@ == x,
            _ => false,
        },
        r matches Ok((_, Some(ttl))) ==> ttl.valid(),
{
    match settings.mode {
        EchMode::Static => {},
        EchMode::Doh => match answer {
            Ok(records) => {
                return match first_ech(records) {
                    Some((bytes, ttl)) => Ok((Some(bytes), Some(ttl))),
                    None => Ok((None, None)),
                };
            },
            Err(reason) => {
                return Err(EchError::Lookup { name: name.to_owned(), reason: reason.clone() });
            },
        },
        EchMode::DohWithFallback => match answer {
            Ok(records) => match first_ech(records) {
                Some((bytes, ttl)) => {
                    return Ok((Some(bytes), Some(ttl)));
                },
                None => {},
            },
            Err(_) => {},
        },
    }
    match inline(&settings.config) {
        Ok(bytes) => Ok((Some(bytes), None)),
        Err(e) => Err(e),
    }
}

/// The ECHConfigList for a resolver, as its source says. A missing inline
/// configuration is reported by the mode that needs it.
pub open spec fn resolver_acquired(settings: EffectiveEch, answer: Result<Seq<HttpsRecord>, Seq<char>>) -> Result<
    Option<Seq<u8>>,
    Seq<char>,
> {
    let found = match answer {
        Ok(records) => published(records),
        Err(_) => None,
    };
    match (settings.mode, found) {
        (EchMode::Doh, Some((bytes, _))) | (EchMode::DohWithFallback, Some((bytes, _))) => Ok(Some(bytes)),
        (EchMode::Doh, None) => match answer {
            Ok(_) => Ok(None),
            Err(reason) => Err(reason),
        },
        (mode, _) => match settings.config {
            None => Err(
                if mode == EchMode::Static {
                    "static ECH mode needs a config"@
                } else {
                    "doh-with-fallback needs a config"@
                },
            ),
            Some(c) => match base64_decoded(text::trim(c@)) {
                Ok(bytes) => Ok(Some(bytes)),
                Err(reason) => Err(reason),
            },
        },
    }
}

/// Choose the ECHConfigList for a resolver, given what its lookup brought. In
/// static mode there is no lookup and the answer is not read.
pub fn acquire_resolver_ech(settings: &EffectiveEch, answer: &Result<Vec<HttpsRecord>, String>) -> (r: Result<
    Option<Vec<u8>>,
    String,
>)
    ensures
        match (r, resolver_acquired(*settings, answer_view(*answer))) {
            (Ok(Some(bytes)), Ok(Some(b))) => bytes@ == b,
            (Ok(None), Ok(None)) => true,
            (Err(e), Err(x)) => e@ == x,
            _ => false,
        },
{
    let missing = match settings.mode {
        EchMode::Static => "static ECH mode needs a config",
        EchMode::Doh => match answer {
            Ok(records) => {
                return match first_ech(records) {
                    Some((bytes, _)) => Ok(Some(bytes)),
                    None => Ok(None),
                };
            },
            Err(reason) => {
                return Err(reason.clone());
            },
        },
        EchMode::DohWithFallback => {
            if let Ok(records) = answer {
                if let Some((bytes, _)) = first_ech(records) {
                    return Ok(Some(bytes));
                }
            }
            "doh-with-fallback needs a config"
        },
    };
    match &settings.config {
        None => Err(missing.to_owned()),
        Some(c) => {
            let inner = text::trimmed_text(c.as_str());
            match base64_decode(inner.as_str()) {
                Ok(bytes) => Ok(Some(bytes)),
                Err(reason) => Err(reason),
            }
        },
    }
}

/// The shortest time after which a source is asked again: five seconds.
pub const MIN_REFRESH_NANOS: u128 = 5000000000;

/// How long a looked-up configuration is used: as long as its record lives, within
/// the configured bound, and at least five seconds.
pub open spec fn refresh_span(ttl: Option<Duration>, bound: Duration) -> u128 {
    let wanted = match ttl {
        Some(t) => if t.nanos < bound.nanos {
            t.nanos
        } else {
            bound.nanos
        },
        None => bound.nanos,
    };
    if wanted > MIN_REFRESH_NANOS {
        wanted
    } else {
        MIN_REFRESH_NANOS
    }
}

/// How long a looked-up configuration is used.
pub fn refresh_after(ttl: Option<Duration>, bound: Duration) -> (r: Duration)
    ensures
        r.nanos == refresh_span(ttl, bound),
{
    let mut wanted = bound.nanos;
    if let Some(t) = ttl {
        if t.nanos < wanted {
            wanted = t.nanos;
        }
    }
    if wanted < MIN_REFRESH_NANOS {
        wanted = MIN_REFRESH_NANOS;
    }
    Duration { nanos: wanted }
}

// ---------------------------------------------------------------------------
// TLS client configurations
// ---------------------------------------------------------------------------

/// How a client offers ECH.
#[derive(Debug)]
pub enum Mode {
    /// With the configuration that fits best in a published ECHConfigList.
    Real(Vec<u8>),
    /// With a placeholder that keeps the extension in use.
    Grease(EchGreaseConfig),
}

/// How a client offers ECH.
pub enum ModeView {
    Real(Seq<u8>),
    Grease(EchGreaseConfig),
}

impl View for Mode {
    type V = ModeView;

    open spec fn view(&self) -> ModeView {
        match self {
            Mode::Real(list) => ModeView::Real(list@),
            Mode::Grease(config) => ModeView::Grease(*config),
        }
    }
}

/// Whether a client can be made for a mode: a list has to be usable.
pub open spec fn workable(mode: ModeView) -> bool {
    match mode {
        ModeView::Real(list) => usable_list(list),
        ModeView::Grease(_) => true,
    }
}

/// What a TLS client configuration was made from.
pub struct ConfigParts {
    pub mode: Option<ModeView>,
    pub roots: RootCertStore,
    /// Whether the hello names the server.
    pub sends_sni: bool,
    /// The protocols offered, best first.
    pub alpn: Seq<Seq<u8>>,
}

/// What a TLS client configuration was made from.
pub uninterp spec fn config_parts(c: ClientConfig) -> ConfigParts;

/// Whether rustls finds a configuration that it supports in an ECHConfigList.
pub uninterp spec fn usable_list(list: Seq<u8>) -> bool;

/// `EchConfig::new` with every HPKE suite of the AWS-LC provider succeeds: the list
/// is well-formed and one of the suites fits a configuration in it. How the list is
/// read is left to rustls; the same bytes always give the same verdict.
#[verifier::external_body]
fn is_usable(list: &Vec<u8>) -> (r: bool)
    ensures
        r == usable_list(list@),
{
    rustls::client::EchConfig::new(
        rustls::pki_types::EchConfigListBytes::from(list.as_slice()),
        rustls::crypto::aws_lc_rs::hpke::ALL_SUPPORTED_SUITES,
    ).is_ok()
}

/// A placeholder with a fresh random key, from `Hpke::generate_key_pair` of the
/// X25519 suite and `EchGreaseConfig::new`. Nothing is claimed of the key, which
/// differs from call to call.
#[verifier::external_body]
fn grease_config() -> (r: Result<EchGreaseConfig, String>) {
    let suite = rustls::crypto::aws_lc_rs::hpke::DH_KEM_X25519_HKDF_SHA256_AES_128;
    match suite.generate_key_pair() {
        Ok((public_key, _secret)) => Ok(EchGreaseConfig::new(suite, public_key)),
        Err(e) => Err(format!("{e}")),
    }
}

/// `ConfigBuilder::with_ech` on what `EchConfig::new` picks from an ECHConfigList,
/// and `with_root_certificates`: a client that offers that ECH configuration,
/// trusts the given roots, names the server as told and offers the given
/// protocols. It fails where `EchConfig::new` does; the builder itself accepts
/// TLS 1.3 with the default suites and groups of the AWS-LC provider.
#[verifier::external_body]
fn real_client(list: &Vec<u8>, roots: &Arc<RootCertStore>, sends_sni: bool, alpn: &Vec<Vec<u8>>) -> (r: Result<
    ClientConfig,
    String,
>)
    ensures
        r is Ok == usable_list(list@),
        r matches Ok(c) ==> config_parts(c) == (ConfigParts {
            mode: Some(ModeView::Real(list@)),
            roots: **roots,
            sends_sni,
            alpn: octets::lists(alpn@),
        }),
{
    let list = rustls::pki_types::EchConfigListBytes::from(list.as_slice());
    let suites = rustls::crypto::aws_lc_rs::hpke::ALL_SUPPORTED_SUITES;
    let config = rustls::client::EchConfig::new(list, suites).map_err(|e| format!("{e}"))?;
    let builder = ClientConfig::builder_with_provider(rustls::crypto::aws_lc_rs::default_provider().into());
    let builder = builder.with_ech(config.into()).map_err(|e| format!("{e}"))?;
    let mut c = builder.with_root_certificates(Arc::clone(roots)).with_no_client_auth();
    c.enable_sni = sends_sni;
    c.alpn_protocols = alpn.clone();
    Ok(c)
}

/// `ConfigBuilder::with_ech` and `with_root_certificates`: a client that offers a
/// placeholder, trusts the given roots, names the server as told and offers the
/// given protocols. The builder accepts TLS 1.3 with the default suites and groups
/// of the AWS-LC provider.
#[verifier::external_body]
fn grease_client(
    config: &EchGreaseConfig,
    roots: &Arc<RootCertStore>,
    sends_sni: bool,
    alpn: &Vec<Vec<u8>>,
) -> (r: Result<ClientConfig, String>)
    ensures
        r is Ok,
        config_parts(r->Ok_0) == (ConfigParts {
            mode: Some(ModeView::Grease(*config)),
            roots: **roots,
            sends_sni,
            alpn: octets::lists(alpn@),
        }),
{
    let builder = ClientConfig::builder_with_provider(rustls::crypto::aws_lc_rs::default_provider().into());
    let builder = builder.with_ech(config.clone().into()).map_err(|e| format!("{e}"))?;
    let mut c = builder.with_root_certificates(Arc::clone(roots)).with_no_client_auth();
    c.enable_sni = sends_sni;
    c.alpn_protocols = alpn.clone();
    Ok(c)
}

/// `ConfigBuilder::with_safe_default_protocol_versions` and
/// `with_root_certificates`: a client without ECH that trusts the given roots,
/// names the server as told and offers the given protocols. The builder accepts the
/// default versions with the default suites and groups of the AWS-LC provider.
#[verifier::external_body]
fn plain_client(roots: &Arc<RootCertStore>, sends_sni: bool, alpn: &Vec<Vec<u8>>) -> (r: Result<ClientConfig, String>)
    ensures
        r is Ok,
        config_parts(r->Ok_0) == (ConfigParts {
            mode: None,
            roots: **roots,
            sends_sni,
            alpn: octets::lists(alpn@),
        }),
{
    let builder = ClientConfig::builder_with_provider(rustls::crypto::aws_lc_rs::default_provider().into());
    let builder = builder.with_safe_default_protocol_versions().map_err(|e| format!("{e}"))?;
    let mut c = builder.with_root_certificates(Arc::clone(roots)).with_no_client_auth();
    c.enable_sni = sends_sni;
    c.alpn_protocols = alpn.clone();
    Ok(c)
}

/// Make the TLS client configuration for a handshake without ECH.
pub fn plain_client_config(roots: &Arc<RootCertStore>, sends_sni: bool, alpn: &Vec<Vec<u8>>) -> (c: ClientConfig)
    ensures
        config_parts(c) == (ConfigParts { mode: None, roots: **roots, sends_sni, alpn: octets::lists(alpn@) }),
{
    plain_client(roots, sends_sni, alpn).unwrap()
}

/// Make the TLS client configuration for an ECH mode. Only a list that is not
/// usable stands in the way.
pub fn assemble_client_config(mode: &Mode, roots: &Arc<RootCertStore>, sends_sni: bool, alpn: &Vec<Vec<u8>>) -> (r:
    Result<ClientConfig, EchError>)
    ensures
        match r {
            Ok(c) => workable(mode@) && config_parts(c) == (ConfigParts {
                mode: Some(mode@),
                roots: **roots,
                sends_sni,
                alpn: octets::lists(alpn@),
            }),
            Err(e) => !workable(mode@) && e is Rustls,
        },
{
    let made = match mode {
        Mode::Real(list) => real_client(list, roots, sends_sni, alpn),
        Mode::Grease(config) => grease_client(config, roots, sends_sni, alpn),
    };
    match made {
        Ok(c) => Ok(c),
        Err(reason) => Err(EchError::Rustls(reason)),
    }
}

/// The mode for a published ECHConfigList.
pub fn build_real_ech_mode(list: Vec<u8>) -> (r: Result<Mode, EchError>)
    ensures
        match r {
            Ok(m) => usable_list(list@) && m@ == ModeView::Real(list@),
            Err(e) => !usable_list(list@) && e is NoCompatibleConfig,
        },
{
    if is_usable(&list) {
        Ok(Mode::Real(list))
    } else {
        Err(EchError::NoCompatibleConfig)
    }
}

/// The mode for a placeholder, given what making it came to: the placeholder as it
/// was made, or the reason why there is none.
pub fn placeholder_mode(made: Result<EchGreaseConfig, String>) -> (r: Result<Mode, EchError>)
    ensures
        match made {
            Ok(config) => r matches Ok(m) && m@ == ModeView::Grease(config),
            Err(reason) => r matches Err(e) && e@ == ErrorView::Rustls(reason@),
        },
{
    match made {
        Ok(config) => Ok(Mode::Grease(config)),
        Err(reason) => Err(EchError::Rustls(reason)),
    }
}

/// The mode for a client that has no ECHConfigList: a placeholder with a fresh
/// random key. Whether such a key can be made rests on the system's source of
/// randomness, and is not said.
pub fn grease_mode() -> (r: Result<Mode, EchError>)
    ensures
        match r {
            Ok(m) => m is Grease,
            Err(e) => e is Rustls,
        },
{
    placeholder_mode(grease_config())
}

/// How a resolver offers ECH.
#[derive(Debug, Clone, Copy)]
pub enum ResolverEch<'a> {
    /// Not at all.
    Disabled,
    /// With the configuration in these bytes.
    Config(&'a [u8]),
    /// With a placeholder: ECH is wanted but nothing is published.
    Grease,
}

/// Make the TLS client configuration for a resolver. It offers no protocols.
pub fn resolver_client_config<'a>(mode: ResolverEch<'a>, sends_sni: bool, roots: &Arc<RootCertStore>) -> (r: Result<
    ClientConfig,
    EchError,
>)
    ensures
        match r {
            Ok(c) => {
                let parts = config_parts(c);
                &&& parts.roots == **roots
                &&& parts.sends_sni == sends_sni
                &&& parts.alpn == Seq::<Seq<u8>>::empty()
                &&& match mode {
                    ResolverEch::Disabled => parts.mode is None,
                    ResolverEch::Config(bytes) => usable_list(bytes@) && parts.mode == Some(
                        ModeView::Real(bytes@),
                    ),
                    ResolverEch::Grease => parts.mode matches Some(m) && m is Grease,
                }
            },
            Err(e) => match mode {
                ResolverEch::Disabled => false,
                ResolverEch::Config(bytes) => !usable_list(bytes@) && e is NoCompatibleConfig,
                ResolverEch::Grease => e is Rustls,
            },
        },
{
    let none: Vec<Vec<u8>> = Vec::new();
    assert(octets::lists(none@) =~= Seq::<Seq<u8>>::empty());
    let mode = match mode {
        ResolverEch::Disabled => {
            return Ok(plain_client_config(roots, sends_sni, &none));
        },
        ResolverEch::Config(bytes) => build_real_ech_mode(octets::to_vec(bytes)),
        ResolverEch::Grease => grease_mode(),
    };
    match mode {
        Ok(m) => assemble_client_config(&m, roots, sends_sni, &none),
        Err(e) => Err(e),
    }
}

// ---------------------------------------------------------------------------
// Laws
// ---------------------------------------------------------------------------

/// The record of a service stands under its own name on port 443, and behind its port
/// elsewhere: `_8443._https.example.com`.
pub proof fn law_record_stands_under_its_port(base: Seq<char>, port: u16)
    ensures
        record_name(base, 443) == base,
        port != 443 ==> record_name(base, port) == seq!['_'] + text::dec(port as nat) + seq![
            '.',
            '_',
            'h',
            't',
            't',
            'p',
            's',
            '.',
        ] + base,
{
    reveal_strlit("_");
    reveal_strlit("._https.");
    assert("_"@ =~= seq!['_']);
    assert("._https."@ =~= seq!['.', '_', 'h', 't', 't', 'p', 's', '.']);
}

/// What is published is the first config list of the first record that has one, for as
/// many seconds as that record lives.
pub proof fn law_first_published_list_counts(records: Seq<HttpsRecord>, i: int)
    ensures
        (forall|j: int| 0 <= j < records.len() ==> (#[trigger] records[j]).ech@.len() == 0) ==> published(records) is None,
        0 <= i < records.len() && records[i].ech@.len() > 0 && (forall|j: int|
            0 <= j < i ==> (#[trigger] records[j]).ech@.len() == 0) ==> published(records) == Some(
            (records[i].ech@[0]@, Duration { nanos: (records[i].ttl * 1000000000) as u128 }),
        ),
    decreases records.len(),
{
    if records.len() > 0 && records[0].ech@.len() == 0 {
        let rest = records.skip(1);
        law_first_published_list_counts(rest, i - 1);
        assert forall|j: int| 0 <= j < rest.len() implies #[trigger] rest[j] == records[j + 1] by {}
        if 0 <= i < records.len() && records[i].ech@.len() > 0 {
            assert(rest[i - 1] == records[i]);
        }
    }
}

/// A static source reads no records. A looked-up one is what the records publish, and
/// nothing where they publish nothing; only with a fallback does the inline config step
/// in, and a failed lookup is an error only without one.
pub proof fn law_config_comes_from_its_source(
    settings: EffectiveEch,
    name: Seq<char>,
    records: Seq<HttpsRecord>,
    other: Result<Seq<HttpsRecord>, Seq<char>>,
    why: Seq<char>,
)
    ensures
        settings.mode == EchMode::Static ==> acquired(settings, name, Ok(records)) == acquired(settings, name, other),
        settings.mode == EchMode::Static && settings.config is None ==> acquired(settings, name, other) is Err,
        settings.mode != EchMode::Static ==> (published(records) matches Some(p) ==> acquired(
            settings,
            name,
            Ok(records),
        ) == Ok::<(Option<Seq<u8>>, Option<Duration>), ErrorView>((Some(p.0), Some(p.1)))),
        settings.mode == EchMode::Doh && published(records) is None ==> acquired(settings, name, Ok(records)) == Ok::<
            (Option<Seq<u8>>, Option<Duration>),
            ErrorView,
        >((None, None)),
        settings.mode == EchMode::Doh ==> acquired(settings, name, Err(why)) == Err::<
            (Option<Seq<u8>>, Option<Duration>),
            ErrorView,
        >(ErrorView::Lookup { name, reason: why }),
        settings.mode != EchMode::Doh ==> (settings.config matches Some(c) ==> (base64_decoded(text::trim(c@)) matches Ok(
            bytes,
        ) ==> acquired(settings, name, Err(why)) == Ok::<(Option<Seq<u8>>, Option<Duration>), ErrorView>(
            (Some(bytes), None),
        ))),
        settings.mode == EchMode::DohWithFallback && published(records) is None ==> acquired(settings, name, Ok(records))
            == acquired(settings, name, Err(why)),
{
}

/// A resolver's config comes from its source in the same way.
pub proof fn law_resolver_config_comes_from_its_source(
    settings: EffectiveEch,
    records: Seq<HttpsRecord>,
    other: Result<Seq<HttpsRecord>, Seq<char>>,
    why: Seq<char>,
)
    ensures
        settings.mode == EchMode::Static ==> resolver_acquired(settings, Ok(records)) == resolver_acquired(settings, other),
        settings.mode != EchMode::Static ==> (published(records) matches Some(p) ==> resolver_acquired(
            settings,
            Ok(records),
        ) == Ok::<Option<Seq<u8>>, Seq<char>>(Some(p.0))),
        settings.mode == EchMode::Doh && published(records) is None ==> resolver_acquired(settings, Ok(records)) == Ok::<
            Option<Seq<u8>>,
            Seq<char>,
        >(None),
        settings.mode == EchMode::Doh ==> resolver_acquired(settings, Err(why)) == Err::<Option<Seq<u8>>, Seq<char>>(why),
        settings.mode != EchMode::Doh ==> (settings.config matches Some(c) ==> (base64_decoded(text::trim(c@)) matches Ok(
            bytes,
        ) ==> resolver_acquired(settings, Err(why)) == Ok::<Option<Seq<u8>>, Seq<char>>(Some(bytes)))),
        settings.mode == EchMode::Static && settings.config is None ==> resolver_acquired(settings, Err(why)) == Err::<
            Option<Seq<u8>>,
            Seq<char>,
        >("static ECH mode needs a config"@),
        settings.mode == EchMode::DohWithFallback && settings.config is None ==> resolver_acquired(settings, Err(why))
            == Err::<Option<Seq<u8>>, Seq<char>>("doh-with-fallback needs a config"@),
{
}

/// A looked-up config is used as long as its record lives, but no longer than the bound
/// and no shorter than five seconds.
pub proof fn law_refresh_is_bounded(ttl: Duration, bound: Duration)
    ensures
        refresh_span(Some(ttl), bound) >= 5000000000,
        bound.nanos >= 5000000000 ==> refresh_span(Some(ttl), bound) <= bound.nanos,
        5000000000 <= ttl.nanos <= bound.nanos ==> refresh_span(Some(ttl), bound) == ttl.nanos,
        5000000000 <= bound.nanos ==> refresh_span(None, bound) == bound.nanos,
        bound.nanos < 5000000000 ==> refresh_span(None, bound) == 5000000000 && refresh_span(Some(ttl), bound)
            == 5000000000,
{
}

} // verus!
