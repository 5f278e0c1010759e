//! Certificate partitioning: which names may safely share one certificate.
//!
//! A browser may reuse a connection for a second origin when the certificate on
//! it is valid for that origin too. Such a request brings no new handshake and no
//! new SNI, so it cannot be routed anew. A certificate served on a connection
//! routed to some destination must therefore not be valid for any name that would
//! be routed elsewhere.
//!
//! A scope identifies a set of names that may share a certificate: those that are
//! forwarded identically and matched by the same routing table. The certificate
//! cache and the on-disk store are keyed by scope.

use crate::config::references;
use crate::config::validate;
use crate::config::{AddressFamily, EchMode, RegexDef, RouteType, SniPolicy, SniView};
use crate::order;
use crate::text;
use vstd::prelude::*;

verus! {

// ---------------------------------------------------------------------------
// Identities
// ---------------------------------------------------------------------------

/// Everything about a route that decides how a connection is forwarded. What
/// cannot change the destination (timeouts, the failure policy, the HTTP/2
/// switch) is absent: it would only tear scopes apart.
#[derive(Debug, Clone, PartialEq, Eq)]
pub struct Forwarding {
    /// Upstream protocol handling.
    pub route_type: RouteType,
    /// Fixed dial host, or none when the route reflects the routing key.
    pub host: Option<String>,
    /// Upstream port.
    pub port: u16,
    /// SNI presented upstream.
    pub sni: SniPolicy,
    /// Address family used to resolve the dial host.
    pub family: AddressFamily,
    /// NAT64 prefix as written in the configuration.
    pub nat64: Option<String>,
    /// Resolver spec used for upstream addresses.
    pub addr_resolver: String,
    /// ECH source identity, for routes with ECH only.
    pub ech: Option<EchIdentity>,
}

/// The parts of an ECH source that select which ECHConfigList is used.
#[derive(Debug, Clone, PartialEq, Eq)]
pub struct EchIdentity {
    pub mode: EchMode,
    /// Name whose HTTPS record is looked up, when pinned.
    pub domain: Option<String>,
    /// Resolver that performs the lookup.
    pub resolver: String,
    /// Whether an inline config is available.
    pub inline_config: bool,
}

/// What an [`EchIdentity`] says.
pub struct EchView {
    pub mode: EchMode,
    pub domain: Option<Seq<char>>,
    pub resolver: Seq<char>,
    pub inline_config: bool,
}

/// What a [`Forwarding`] says.
pub struct ForwardingView {
    pub route_type: RouteType,
    pub host: Option<Seq<char>>,
    pub port: u16,
    pub sni: SniView,
    pub family: AddressFamily,
    pub nat64: Option<Seq<char>>,
    pub addr_resolver: Seq<char>,
    pub ech: Option<EchView>,
}

impl View for EchIdentity {
    type V = EchView;

    open spec fn view(&self) -> EchView {
        EchView {
            mode: self.mode,
            domain: text::opt_text(self.domain),
            resolver: self.resolver@,
            inline_config: self.inline_config,
        }
    }
}

impl View for Forwarding {
    type V = ForwardingView;

    open spec fn view(&self) -> ForwardingView {
        ForwardingView {
            route_type: self.route_type,
            host: text::opt_text(self.host),
            port: self.port,
            sni: self.sni@,
            family: self.family,
            nat64: text::opt_text(self.nat64),
            addr_resolver: self.addr_resolver@,
            ech: match self.ech {
                Some(e) => Some(e@),
                None => None,
            },
        }
    }
}

/// The name of a protocol type in scopes.
pub open spec fn type_word(t: RouteType) -> Seq<char> {
    match t {
        RouteType::Ech => "ech"@,
        RouteType::Tls => "tls"@,
        RouteType::Http => "http"@,
        RouteType::Raw => "raw"@,
        RouteType::H3 => "h3"@,
        RouteType::H3Ech => "h3-ech"@,
    }
}

fn route_type_str(t: RouteType) -> (r: &'static str)
    ensures
        r@ == type_word(t),
{
    match t {
        RouteType::Ech => "ech",
        RouteType::Tls => "tls",
        RouteType::Http => "http",
        RouteType::Raw => "raw",
        RouteType::H3 => "h3",
        RouteType::H3Ech => "h3-ech",
    }
}

/// A text behind its length, so that it ends where it says, whatever it holds.
pub open spec fn sized(s: Seq<char>) -> Seq<char> {
    text::dec(s.len()) + ":"@ + s
}

/// A text in an identity: as it is where it is bare, else behind a quote and its
/// length.
pub open spec fn shown(s: Seq<char>, bare: bool) -> Seq<char> {
    if bare {
        s
    } else {
        "\""@ + sized(s)
    }
}

/// Whether a text can stand as it is in front of a separator: it does not hold the
/// separator, and does not look like a quoted one.
pub open spec fn is_bare(s: Seq<char>, sep: char) -> bool {
    !s.contains(sep) && !(s.len() > 0 && s[0] == '"')
}

/// A text in front of a separator.
pub open spec fn field(s: Seq<char>, sep: char) -> Seq<char> {
    shown(s, is_bare(s, sep))
}

/// A text that may be missing, in front of a separator; a mark stands in for it, and
/// a text that is the mark is quoted.
pub open spec fn optional(s: Option<Seq<char>>, mark: Seq<char>, sep: char) -> Seq<char> {
    match s {
        Some(s) => shown(s, is_bare(s, sep) && s != mark),
        None => mark,
    }
}

/// Whether a text can stand as it is in a list.
pub open spec fn is_bare_element(s: Seq<char>) -> bool {
    s.len() > 0 && is_bare(s, ',') && is_bare(s, ';')
}

/// The texts of a list from the `i`th on, with commas between them.
pub open spec fn elements(list: Seq<Seq<char>>, i: int) -> Seq<char>
    decreases list.len() - i,
{
    if i >= list.len() {
        Seq::empty()
    } else if i == list.len() - 1 {
        shown(list[i], is_bare_element(list[i]))
    } else {
        shown(list[i], is_bare_element(list[i])) + ","@ + elements(list, i + 1)
    }
}

/// The first `n` texts of a list, each behind its length.
pub open spec fn sized_all(list: Seq<Seq<char>>, n: int) -> Seq<char>
    decreases n,
{
    if n <= 0 {
        Seq::empty()
    } else {
        sized_all(list, n - 1) + sized(list[n - 1])
    }
}

/// A list of texts behind its length.
pub open spec fn list_text(list: Seq<Seq<char>>) -> Seq<char> {
    text::dec(list.len()) + "["@ + sized_all(list, list.len() as int) + "]"@
}

fn push_sized(out: &mut String, s: &str)
    ensures
        final(out)@ == old(out)@ + sized(s@),
{
    let ghost before = out@;
    text::push_dec(out, text::chars_of(s).len() as u64);
    text::push_text(out, ":");
    text::push_text(out, s);
    assert(out@ =~= before + sized(s@));
}

fn push_shown(out: &mut String, s: &str, bare: bool)
    ensures
        final(out)@ == old(out)@ + shown(s@, bare),
{
    let ghost before = out@;
    if bare {
        text::push_text(out, s);
    } else {
        text::push_text(out, "\"");
        push_sized(out, s);
        assert(out@ =~= before + shown(s@, bare));
    }
}

fn bare(s: &[char], sep: char) -> (r: bool)
    ensures
        r == is_bare(s@, sep),
{
    !text::has_char(s, sep) && !(s.len() > 0 && s[0] == '"')
}

fn bare_element(s: &[char]) -> (r: bool)
    ensures
        r == is_bare_element(s@),
{
    s.len() > 0 && bare(s, ',') && bare(s, ';')
}

fn push_field(out: &mut String, s: &str, sep: char)
    ensures
        final(out)@ == old(out)@ + field(s@, sep),
{
    let cs = text::chars_of(s);
    push_shown(out, s, bare(cs.as_slice(), sep));
}

fn push_optional(out: &mut String, s: &Option<String>, mark: &str, sep: char)
    ensures
        final(out)@ == old(out)@ + optional(text::opt_text(*s), mark@, sep),
{
    match s {
        Some(s) => {
            let cs = text::chars_of(s.as_str());
            push_shown(out, s.as_str(), bare(cs.as_slice(), sep) && !text::same_text(s.as_str(), mark));
        },
        None => text::push_text(out, mark),
    }
}

fn push_elements(out: &mut String, list: &Vec<String>)
    ensures
        final(out)@ == old(out)@ + elements(text::texts(list@), 0),
{
    let ghost before = out@;
    let ghost all = text::texts(list@);
    let mut i: usize = 0;
    while i < list.len()
        invariant
            i <= list@.len(),
            all == text::texts(list@),
            out@ + elements(all, i as int) == before + elements(all, 0),
        decreases list@.len() - i,
    {
        let ghost now = out@;
        assert(all[i as int] == list@[i as int]@);
        let cs = text::chars_of(list[i].as_str());
        push_shown(out, list[i].as_str(), bare_element(cs.as_slice()));
        if i + 1 < list.len() {
            text::push_text(out, ",");
        }
        i = i + 1;
        assert(out@ + elements(all, i as int) =~= now + elements(all, i - 1));
    }
    assert(out@ =~= out@ + elements(all, i as int));
}

fn push_list(out: &mut String, list: &Vec<String>)
    ensures
        final(out)@ == old(out)@ + list_text(text::texts(list@)),
{
    let ghost before = out@;
    let ghost all = text::texts(list@);
    text::push_dec(out, list.len() as u64);
    text::push_text(out, "[");
    let ghost opened = out@;
    let mut i: usize = 0;
    assert(out@ =~= opened + sized_all(all, 0));
    while i < list.len()
        invariant
            i <= list@.len(),
            all == text::texts(list@),
            out@ == opened + sized_all(all, i as int),
        decreases list@.len() - i,
    {
        assert(all[i as int] == list@[i as int]@);
        push_sized(out, list[i].as_str());
        i = i + 1;
        assert(out@ =~= opened + sized_all(all, i as int));
    }
    text::push_text(out, "]");
    assert(out@ =~= before + list_text(all));
}

/// An SNI policy in a scope's identity.
pub open spec fn sni_name(p: SniView) -> Seq<char> {
    match p {
        SniView::Reflect => "reflect"@,
        SniView::Omit => "omit"@,
        SniView::Fixed(n) => "fixed:"@ + field(n, ';'),
    }
}

/// An address family in a scope's identity.
pub open spec fn family_name(f: AddressFamily) -> Seq<char> {
    match f {
        AddressFamily::Dual => "Dual"@,
        AddressFamily::Ipv4 => "Ipv4"@,
        AddressFamily::Ipv6 => "Ipv6"@,
    }
}

/// A value in a readable summary, or what stands in for it there.
pub open spec fn or_mark(s: Option<Seq<char>>, mark: Seq<char>) -> Seq<char> {
    match s {
        Some(s) => s,
        None => mark,
    }
}

/// A truth value in a scope's identity.
pub open spec fn bool_name(b: bool) -> Seq<char> {
    if b {
        "true"@
    } else {
        "false"@
    }
}

/// An ECH source in a scope's identity.
pub open spec fn ech_name(e: Option<EchView>) -> Seq<char> {
    match e {
        Some(e) => "mode:"@ + validate::mode_word(e.mode) + ",domain:"@ + optional(e.domain, "-"@, ',')
            + ",resolver:"@ + field(e.resolver, ',') + ",inline:"@ + bool_name(e.inline_config),
        None => "-"@,
    }
}

/// The full identity of a scope in one text. It is only hashed, never read back, but
/// it could be: what would blur a separator or a mark is quoted.
pub open spec fn canonical_text(router_fp: u64, f: ForwardingView) -> Seq<char> {
    "router="@ + text::hex(router_fp as nat, 16) + ";type="@ + type_word(f.route_type) + ";host="@ + optional(
        f.host,
        "reflect"@,
        ';',
    ) + ";port="@ + text::dec(f.port as nat) + ";sni="@ + sni_name(f.sni) + ";family="@ + family_name(f.family)
        + ";nat64="@ + optional(f.nat64, "-"@, ';') + ";addr_resolver="@ + field(f.addr_resolver, ';') + ";ech="@
        + ech_name(f.ech) + ";"@
}

fn mark<'a>(s: &'a Option<String>, absent: &'a str) -> (r: &'a str)
    ensures
        r@ == or_mark(text::opt_text(*s), absent@),
{
    match s {
        Some(s) => s.as_str(),
        None => absent,
    }
}

fn push_sni(out: &mut String, p: &SniPolicy)
    ensures
        final(out)@ == old(out)@ + sni_name(p@),
{
    let ghost before = out@;
    match p {
        SniPolicy::Reflect => text::push_text(out, "reflect"),
        SniPolicy::Omit => text::push_text(out, "omit"),
        SniPolicy::Fixed(name) => {
            text::push_text(out, "fixed:");
            push_field(out, name.as_str(), ';');
            assert(out@ =~= before + sni_name(p@));
        },
    }
}

fn push_ech(out: &mut String, e: &Option<EchIdentity>)
    ensures
        final(out)@ == old(out)@ + ech_name(
            match *e {
                Some(e) => Some(e@),
                None => None,
            },
        ),
{
    let ghost before = out@;
    match e {
        Some(e) => {
            text::push_text(out, "mode:");
            text::push_text(
                out,
                match e.mode {
                    EchMode::Doh => "Doh",
                    EchMode::Static => "Static",
                    EchMode::DohWithFallback => "DohWithFallback",
                },
            );
            text::push_text(out, ",domain:");
            push_optional(out, &e.domain, "-", ',');
            text::push_text(out, ",resolver:");
            push_field(out, e.resolver.as_str(), ',');
            text::push_text(out, ",inline:");
            text::push_text(
                out,
                if e.inline_config {
                    "true"
                } else {
                    "false"
                },
            );
            assert(out@ =~= before + ech_name(Some(e@)));
        },
        None => text::push_text(out, "-"),
    }
}

fn canonical(router_fp: u64, f: &Forwarding) -> (r: String)
    ensures
        r@ == canonical_text(router_fp, f@),
{
    let mut s = "router=".to_owned();
    text::push_hex(&mut s, router_fp, 16);
    text::push_text(&mut s, ";type=");
    text::push_text(&mut s, route_type_str(f.route_type));
    text::push_text(&mut s, ";host=");
    push_optional(&mut s, &f.host, "reflect", ';');
    text::push_text(&mut s, ";port=");
    text::push_dec(&mut s, f.port as u64);
    text::push_text(&mut s, ";sni=");
    push_sni(&mut s, &f.sni);
    text::push_text(&mut s, ";family=");
    text::push_text(
        &mut s,
        match f.family {
            AddressFamily::Dual => "Dual",
            AddressFamily::Ipv4 => "Ipv4",
            AddressFamily::Ipv6 => "Ipv6",
        },
    );
    text::push_text(&mut s, ";nat64=");
    push_optional(&mut s, &f.nat64, "-", ';');
    text::push_text(&mut s, ";addr_resolver=");
    push_field(&mut s, f.addr_resolver.as_str(), ';');
    text::push_text(&mut s, ";ech=");
    push_ech(&mut s, &f.ech);
    text::push_text(&mut s, ";");
    s
}

// ---------------------------------------------------------------------------
// Digests and file names
// ---------------------------------------------------------------------------

/// The 64-bit FNV-1a hash of a byte string.
pub open spec fn fnv1a_of(b: Seq<u8>) -> u64
    decreases b.len(),
{
    if b.len() == 0 {
        0xcbf29ce484222325
    } else {
        (fnv1a_of(b.drop_last()) ^ (b.last() as u64)).wrapping_mul(0x00000100000001b3)
    }
}

/// The 64-bit FNV-1a hash of a byte string. These values name directories that
/// must survive a toolchain upgrade, so the hash is spelled out here.
pub fn fnv1a(bytes: &[u8]) -> (r: u64)
    ensures
        r == fnv1a_of(bytes@),
{
    let mut h: u64 = 0xcbf29ce484222325;
    let mut i: usize = 0;
    assert(bytes@.take(0) =~= Seq::<u8>::empty());
    while i < bytes.len()
        invariant
            i <= bytes@.len(),
            h == fnv1a_of(bytes@.take(i as int)),
        decreases bytes@.len() - i,
    {
        assert(bytes@.take(i + 1).drop_last() =~= bytes@.take(i as int));
        h = (h ^ (bytes[i] as u64)).wrapping_mul(0x00000100000001b3);
        i = i + 1;
    }
    assert(bytes@.take(i as int) =~= bytes@);
    h
}

/// Whether a character stands for itself in a file name.
pub open spec fn is_plain(c: char) -> bool {
    ('0' <= c && c <= '9') || ('a' <= c && c <= 'z') || ('A' <= c && c <= 'Z') || c == '.' || c == '-'
}

/// A text with every run of other characters than plain ones turned into one
/// underscore.
pub open spec fn collapsed(s: Seq<char>) -> Seq<char>
    decreases s.len(),
{
    if s.len() == 0 {
        s
    } else {
        let out = collapsed(s.drop_last());
        if is_plain(s.last()) {
            out.push(s.last())
        } else if out.len() > 0 && out.last() == '_' {
            out
        } else {
            out.push('_')
        }
    }
}

/// A text without the dots at its front.
pub open spec fn without_leading_dots(s: Seq<char>) -> Seq<char>
    decreases s.len(),
{
    if s.len() > 0 && s[0] == '.' {
        without_leading_dots(s.drop_first())
    } else {
        s
    }
}

/// A text without the dots at its end.
pub open spec fn without_trailing_dots(s: Seq<char>) -> Seq<char>
    decreases s.len(),
{
    if s.len() > 0 && s.last() == '.' {
        without_trailing_dots(s.drop_last())
    } else {
        s
    }
}

/// A text as one path component that is safe everywhere.
pub open spec fn sanitized(s: Seq<char>) -> Seq<char> {
    let t = without_trailing_dots(without_leading_dots(collapsed(s)));
    if t.len() == 0 {
        "_"@
    } else {
        t
    }
}

/// Reduce a text to one path component that is safe on every platform.
pub fn sanitize(s: &str) -> (r: String)
    ensures
        r@ == sanitized(s@),
{
    let cs = text::chars_of(s);
    let mut out: Vec<char> = Vec::new();
    let mut i: usize = 0;
    assert(cs@.take(0) =~= Seq::<char>::empty());
    while i < cs.len()
        invariant
            i <= cs@.len(),
            out@ == collapsed(cs@.take(i as int)),
        decreases cs@.len() - i,
    {
        assert(cs@.take(i + 1).drop_last() =~= cs@.take(i as int));
        let c = cs[i];
        if ('0' <= c && c <= '9') || ('a' <= c && c <= 'z') || ('A' <= c && c <= 'Z') || c == '.' || c == '-' {
            out.push(c);
        } else if out.len() == 0 || out[out.len() - 1] != '_' {
            out.push('_');
        }
        i = i + 1;
    }
    assert(cs@.take(i as int) =~= cs@);
    let ghost all = out@;
    let mut from: usize = 0;
    assert(all.subrange(0, all.len() as int) =~= all);
    while from < out.len() && out[from] == '.'
        invariant
            from <= out@.len(),
            all == out@,
            without_leading_dots(all) == without_leading_dots(all.subrange(from as int, all.len() as int)),
        decreases out@.len() - from,
    {
        assert(all.subrange(from as int, all.len() as int).drop_first() =~= all.subrange(from + 1, all.len() as int));
        from = from + 1;
    }
    let ghost head = all.subrange(from as int, all.len() as int);
    let mut to: usize = out.len();
    while to > from && out[to - 1] == '.'
        invariant
            from <= to <= out@.len(),
            all == out@,
            head == all.subrange(from as int, all.len() as int),
            without_trailing_dots(head) == without_trailing_dots(all.subrange(from as int, to as int)),
        decreases to,
    {
        assert(all.subrange(from as int, to as int).drop_last() =~= all.subrange(from as int, to - 1));
        to = to - 1;
    }
    if to == from {
        return "_".to_owned();
    }
    text::string_of(vstd::slice::slice_subrange(out.as_slice(), from, to))
}

// ---------------------------------------------------------------------------
// Scopes
// ---------------------------------------------------------------------------

/// The key of a scope: a readable summary, and a digest over the full identity.
pub open spec fn scope_key(router_fp: u64, f: ForwardingView) -> Seq<char> {
    sanitized(type_word(f.route_type) + "_"@ + or_mark(f.host, "reflect"@) + "_"@ + text::dec(f.port as nat)) + "-"@
        + text::hex(fnv1a_of(vstd::utf8::encode_utf8(canonical_text(router_fp, f))) as nat, 16)
}

/// A certificate partition: names in the same scope may share a certificate. Its
/// key names the certificate cache's entries and the store's directories.
#[derive(Debug, Clone, PartialEq, Eq, Hash)]
pub struct CertScope(String);

impl View for CertScope {
    type V = Seq<char>;

    closed spec fn view(&self) -> Seq<char> {
        self.0@
    }
}

impl CertScope {
    /// The scope of a route, matched by a routing table of a given fingerprint.
    ///
    /// The digest carries all 64 bits: a collision would silently put two
    /// destinations into one partition.
    pub fn new(router_fp: u64, f: &Forwarding) -> (r: Self)
        ensures
            r@ == scope_key(router_fp, f@),
    {
        let mut summary = route_type_str(f.route_type).to_owned();
        text::push_text(&mut summary, "_");
        text::push_text(&mut summary, mark(&f.host, "reflect"));
        text::push_text(&mut summary, "_");
        text::push_dec(&mut summary, f.port as u64);
        let mut key = sanitize(summary.as_str());
        text::push_text(&mut key, "-");
        let identity = canonical(router_fp, f);
        let digest = fnv1a(identity.as_str().as_bytes());
        text::push_hex(&mut key, digest, 16);
        CertScope(key)
    }

    /// The key: a stable identifier that is safe in a file system.
    pub fn key(&self) -> (r: &str)
        ensures
            r@ == self@,
    {
        self.0.as_str()
    }
}

// ---------------------------------------------------------------------------
// Routing tables
// ---------------------------------------------------------------------------

/// The routes from the `i`th on, each with its patterns in order.
pub open spec fn routes_text(patterns: Seq<Vec<String>>, i: int) -> Seq<char>
    decreases patterns.len() - i,
{
    if i < 0 || i >= patterns.len() {
        Seq::empty()
    } else {
        text::dec(i as nat) + "="@ + elements(order::sorted(text::texts(patterns[i]@)), 0) + ";"@ + routes_text(
            patterns,
            i + 1,
        )
    }
}

/// Whether a scope can stand as it is in a regex.
pub open spec fn is_bare_scope(s: Seq<char>) -> bool {
    is_bare_element(s) && !s.contains('[') && !s.contains(']')
}

/// Whether a regex can stand as it is: its name ends at the colon, its pattern at the
/// last bracket, and its scopes where the brackets close.
pub open spec fn is_bare_regex(name: Seq<char>, pattern: Seq<char>, scopes: Seq<Seq<char>>) -> bool {
    &&& is_bare(name, ':')
    &&& !name.contains(']')
    &&& !text::has_part(pattern, "];"@)
    &&& forall|i: int| 0 <= i < scopes.len() ==> is_bare_scope(#[trigger] scopes[i])
}

/// One regex, its scopes in order.
pub open spec fn regex_text(name: Seq<char>, pattern: Seq<char>, scopes: Seq<Seq<char>>) -> Seq<char> {
    let list = order::sorted(scopes);
    if is_bare_regex(name, pattern, list) {
        name + ":"@ + pattern + "["@ + elements(list, 0) + "];"@
    } else {
        "\""@ + sized(name) + sized(pattern) + list_text(list) + ";"@
    }
}

/// The regexes from the `i`th of a list of names on.
pub open spec fn regexes_text(table: Seq<(String, RegexDef)>, names: Seq<Seq<char>>, i: int) -> Seq<char>
    decreases names.len() - i,
{
    if i < 0 || i >= names.len() {
        Seq::empty()
    } else {
        (match references::lookup(table, names[i]) {
            Some(def) => regex_text(names[i], def.pattern@, text::texts(def.scope_suffix@)),
            None => Seq::empty(),
        }) + regexes_text(table, names, i + 1)
    }
}

/// The part of a routing table's text on its regexes, where it has any.
pub open spec fn regex_part(table: Seq<(String, RegexDef)>) -> Seq<char> {
    if table.len() == 0 {
        Seq::empty()
    } else {
        ";regexes={"@ + regexes_text(table, order::sorted(references::names_of(table)), 0) + "}"@
    }
}

/// Which route is the default, if one is.
pub open spec fn default_text(default: Option<usize>) -> Seq<char> {
    match default {
        Some(id) => text::dec(id as nat),
        None => "none"@,
    }
}

/// Everything that defines what a routing table does, in one text: each route's
/// patterns, the default route, and the regexes with their scopes, by name. What
/// would blur a separator is quoted.
pub open spec fn router_text(patterns: Seq<Vec<String>>, default: Option<usize>, table: Seq<(String, RegexDef)>) -> Seq<
    char,
> {
    routes_text(patterns, 0) + "default="@ + default_text(default) + regex_part(table)
}

fn bare_regex(name: &str, pattern: &str, scopes: &Vec<String>) -> (r: bool)
    ensures
        r == is_bare_regex(name@, pattern@, text::texts(scopes@)),
{
    let ghost all = text::texts(scopes@);
    let n = text::chars_of(name);
    let p = text::chars_of(pattern);
    if !bare(n.as_slice(), ':') || text::has_char(n.as_slice(), ']') || text::contains_text(p.as_slice(), "];") {
        return false;
    }
    let mut i: usize = 0;
    while i < scopes.len()
        invariant
            i <= scopes@.len(),
            all == text::texts(scopes@),
            forall|k: int| 0 <= k < i ==> is_bare_scope(#[trigger] all[k]),
        decreases scopes@.len() - i,
    {
        assert(all[i as int] == scopes@[i as int]@);
        let s = text::chars_of(scopes[i].as_str());
        if !bare_element(s.as_slice()) || text::has_char(s.as_slice(), '[') || text::has_char(s.as_slice(), ']') {
            assert(!is_bare_scope(all[i as int]));
            return false;
        }
        i = i + 1;
    }
    true
}

fn push_regex(out: &mut String, name: &str, def: &RegexDef)
    ensures
        final(out)@ == old(out)@ + regex_text(name@, def.pattern@, text::texts(def.scope_suffix@)),
{
    let ghost before = out@;
    let scopes = order::sort_texts(&def.scope_suffix);
    if bare_regex(name, def.pattern.as_str(), &scopes) {
        text::push_text(out, name);
        text::push_text(out, ":");
        text::push_text(out, def.pattern.as_str());
        text::push_text(out, "[");
        push_elements(out, &scopes);
        text::push_text(out, "];");
    } else {
        text::push_text(out, "\"");
        push_sized(out, name);
        push_sized(out, def.pattern.as_str());
        push_list(out, &scopes);
        text::push_text(out, ";");
    }
    assert(out@ =~= before + regex_text(name@, def.pattern@, text::texts(def.scope_suffix@)));
}

fn push_regexes(out: &mut String, regexes: &Vec<(String, RegexDef)>)
    ensures
        final(out)@ == old(out)@ + regex_part(regexes@),
{
    let ghost before = out@;
    if regexes.len() == 0 {
        assert(out@ =~= before + regex_part(regexes@));
        return;
    }
    let mut names: Vec<String> = Vec::new();
    let mut i: usize = 0;
    while i < regexes.len()
        invariant
            i <= regexes@.len(),
            names@.len() == i,
            forall|k: int| 0 <= k < i ==> (#[trigger] names@[k])@ == regexes@[k].0@,
        decreases regexes@.len() - i,
    {
        names.push(regexes[i].0.clone());
        i = i + 1;
    }
    assert(text::texts(names@) =~= references::names_of(regexes@));
    let sorted = order::sort_texts(&names);
    let ghost all = text::texts(sorted@);
    text::push_text(out, ";regexes={");
    let ghost opened = out@;
    let mut i: usize = 0;
    while i < sorted.len()
        invariant
            i <= sorted@.len(),
            all == text::texts(sorted@),
            out@ + regexes_text(regexes@, all, i as int) == opened + regexes_text(regexes@, all, 0),
        decreases sorted@.len() - i,
    {
        let ghost now = out@;
        assert(all[i as int] == sorted@[i as int]@);
        match references::find(regexes, sorted[i].as_str()) {
            Some(def) => push_regex(out, sorted[i].as_str(), def),
            None => {},
        }
        i = i + 1;
        assert(out@ + regexes_text(regexes@, all, i as int) =~= now + regexes_text(regexes@, all, i - 1));
    }
    assert(out@ =~= out@ + regexes_text(regexes@, all, i as int));
    text::push_text(out, "}");
    assert(out@ =~= before + regex_part(regexes@));
}

/// The fingerprint of a routing table: the hash of its text.
pub open spec fn fingerprint_of(patterns: Seq<Vec<String>>, default: Option<usize>, table: Seq<(String, RegexDef)>) -> u64 {
    fnv1a_of(vstd::utf8::encode_utf8(router_text(patterns, default, table)))
}

/// Fingerprint a routing table. Two tables with the same identity resolve every
/// host alike and confine wildcards alike, so that a certificate which is safe
/// under one is safe under the other.
pub fn router_fingerprint(
    patterns: &Vec<Vec<String>>,
    default: Option<usize>,
    regexes: &Vec<(String, RegexDef)>,
) -> (r: u64)
    ensures
        r == fingerprint_of(patterns@, default, regexes@),
{
    let mut buf = String::new();
    let mut i: usize = 0;
    assert(buf@ + routes_text(patterns@, 0) =~= routes_text(patterns@, 0));
    while i < patterns.len()
        invariant
            i <= patterns@.len(),
            buf@ + routes_text(patterns@, i as int) == routes_text(patterns@, 0),
        decreases patterns@.len() - i,
    {
        let ghost now = buf@;
        text::push_dec(&mut buf, i as u64);
        text::push_text(&mut buf, "=");
        let sorted = order::sort_texts(&patterns[i]);
        push_elements(&mut buf, &sorted);
        text::push_text(&mut buf, ";");
        i = i + 1;
        assert(buf@ + routes_text(patterns@, i as int) =~= now + routes_text(patterns@, i - 1));
    }
    assert(buf@ =~= buf@ + routes_text(patterns@, i as int));
    text::push_text(&mut buf, "default=");
    match default {
        Some(id) => text::push_dec(&mut buf, id as u64),
        None => text::push_text(&mut buf, "none"),
    }
    push_regexes(&mut buf, regexes);
    assert(buf@ =~= router_text(patterns@, default, regexes@));
    fnv1a(buf.as_str().as_bytes())
}

// ---------------------------------------------------------------------------
// Laws
// ---------------------------------------------------------------------------

proof fn lemma_cut(c: char, a: Seq<char>, x: Seq<char>, b: Seq<char>, y: Seq<char>)
    requires
        !a.contains(c),
        !b.contains(c),
        a + seq![c] + x == b + seq![c] + y,
    ensures
        a == b,
        x == y,
{
    let l = a + seq![c] + x;
    let r = b + seq![c] + y;
    if a.len() < b.len() {
        assert(r[a.len() as int] == b[a.len() as int]);
        assert(l[a.len() as int] == c);
        assert(b.contains(c));
    }
    if b.len() < a.len() {
        assert(l[b.len() as int] == a[b.len() as int]);
        assert(r[b.len() as int] == c);
        assert(a.contains(c));
    }
    assert forall|i: int| 0 <= i < a.len() implies a[i] == b[i] by {
        assert(l[i] == a[i] && r[i] == b[i]);
    }
    assert(a =~= b);
    assert(x =~= l.subrange(a.len() as int + 1, l.len() as int));
    assert(y =~= r.subrange(b.len() as int + 1, r.len() as int));
}

proof fn lemma_hex_free(n: nat, width: nat)
    ensures
        !text::hex(n, width).contains(';'),
        text::hex(n, width).len() == width,
    decreases width,
{
    if width > 0 {
        lemma_hex_free(n / 16, (width - 1) as nat);
        let head = text::hex(n / 16, (width - 1) as nat);
        let all = text::hex(n, width);
        assert forall|i: int| 0 <= i < all.len() implies all[i] != ';' by {
            if i < head.len() {
                assert(all[i] == head[i]);
                assert(head.contains(head[i]));
            }
        }
    }
}

proof fn lemma_hex_apart(a: nat, b: nat, width: nat)
    requires
        a < vstd::arithmetic::power::pow(16, width),
        b < vstd::arithmetic::power::pow(16, width),
        text::hex(a, width) == text::hex(b, width),
    ensures
        a == b,
    decreases width,
{
    reveal(vstd::arithmetic::power::pow);
    if width > 0 {
        let w = (width - 1) as nat;
        let x = text::hex(a, width);
        let y = text::hex(b, width);
        assert(x.drop_last() =~= text::hex(a / 16, w));
        assert(y.drop_last() =~= text::hex(b / 16, w));
        assert(x.last() == y.last());
        assert(a % 16 == b % 16);
        assert(a / 16 < vstd::arithmetic::power::pow(16, w));
        assert(b / 16 < vstd::arithmetic::power::pow(16, w));
        lemma_hex_apart(a / 16, b / 16, w);
    }
}

proof fn lemma_dec_free(n: nat, c: char)
    requires
        !text::is_digit(c),
    ensures
        !text::dec(n).contains(c),
{
    text::lemma_dec_digits(n);
}

proof fn lemma_dec_apart(a: nat, b: nat)
    requires
        text::dec(a) == text::dec(b),
    ensures
        a == b,
    decreases a,
{
    let x = text::dec(a);
    let y = text::dec(b);
    text::lemma_dec_digits(a / 10);
    text::lemma_dec_digits(b / 10);
    assert(x.last() == y.last());
    assert(x.len() == y.len());
    assert(x.last() == text::digit(a % 10));
    assert(y.last() == text::digit(b % 10));
    assert(a % 10 == b % 10);
    if a >= 10 && b >= 10 {
        assert(x.drop_last() =~= text::dec(a / 10));
        assert(y.drop_last() =~= text::dec(b / 10));
        lemma_dec_apart(a / 10, b / 10);
    } else {
        assert(a < 10 <==> x.len() == 1);
        assert(b < 10 <==> y.len() == 1);
    }
}

/// An identity as a chain: a field, a separator, and the rest.
proof fn lemma_canonical_chain(router_fp: u64, f: ForwardingView)
    ensures
        canonical_text(router_fp, f) == "router="@ + (text::hex(router_fp as nat, 16) + seq![';'] + ("type="@ + (type_word(
            f.route_type,
        ) + seq![';'] + ("host="@ + (optional(f.host, "reflect"@, ';') + seq![';'] + ("port="@ + (text::dec(f.port as nat)
            + seq![';'] + ("sni="@ + (sni_name(f.sni) + seq![';'] + ("family="@ + (family_name(f.family) + seq![';']
            + ("nat64="@ + (optional(f.nat64, "-"@, ';') + seq![';'] + ("addr_resolver="@ + (field(f.addr_resolver, ';') + seq![';']
            + ("ech="@ + (ech_name(f.ech) + seq![';'] + Seq::<char>::empty()))))))))))))))))),
{
    let q0 = "router="@;
    let q1 = q0 + text::hex(router_fp as nat, 16) + ";type="@;
    let q2 = q1 + type_word(f.route_type) + ";host="@;
    let q3 = q2 + optional(f.host, "reflect"@, ';') + ";port="@;
    let q4 = q3 + text::dec(f.port as nat) + ";sni="@;
    let q5 = q4 + sni_name(f.sni) + ";family="@;
    let q6 = q5 + family_name(f.family) + ";nat64="@;
    let q7 = q6 + optional(f.nat64, "-"@, ';') + ";addr_resolver="@;
    let q8 = q7 + field(f.addr_resolver, ';') + ";ech="@;
    let x8 = ech_name(f.ech) + seq![';'] + Seq::<char>::empty();
    let x7 = field(f.addr_resolver, ';') + seq![';'] + ("ech="@ + x8);
    let x6 = optional(f.nat64, "-"@, ';') + seq![';'] + ("addr_resolver="@ + x7);
    let x5 = family_name(f.family) + seq![';'] + ("nat64="@ + x6);
    let x4 = sni_name(f.sni) + seq![';'] + ("family="@ + x5);
    let x3 = text::dec(f.port as nat) + seq![';'] + ("sni="@ + x4);
    let x2 = optional(f.host, "reflect"@, ';') + seq![';'] + ("port="@ + x3);
    let x1 = type_word(f.route_type) + seq![';'] + ("host="@ + x2);
    let x0 = text::hex(router_fp as nat, 16) + seq![';'] + ("type="@ + x1);
    reveal_strlit(";");
    assert(canonical_text(router_fp, f) =~= q8 + x8);
    reveal_strlit(";ech=");
    reveal_strlit("ech=");
    assert(";ech="@ =~= seq![';'] + "ech="@);
    lemma_fold(q7, field(f.addr_resolver, ';'), ";ech="@, "ech="@, x8);
    reveal_strlit(";addr_resolver=");
    reveal_strlit("addr_resolver=");
    assert(";addr_resolver="@ =~= seq![';'] + "addr_resolver="@);
    lemma_fold(q6, optional(f.nat64, "-"@, ';'), ";addr_resolver="@, "addr_resolver="@, x7);
    reveal_strlit(";nat64=");
    reveal_strlit("nat64=");
    assert(";nat64="@ =~= seq![';'] + "nat64="@);
    lemma_fold(q5, family_name(f.family), ";nat64="@, "nat64="@, x6);
    reveal_strlit(";family=");
    reveal_strlit("family=");
    assert(";family="@ =~= seq![';'] + "family="@);
    lemma_fold(q4, sni_name(f.sni), ";family="@, "family="@, x5);
    reveal_strlit(";sni=");
    reveal_strlit("sni=");
    assert(";sni="@ =~= seq![';'] + "sni="@);
    lemma_fold(q3, text::dec(f.port as nat), ";sni="@, "sni="@, x4);
    reveal_strlit(";port=");
    reveal_strlit("port=");
    assert(";port="@ =~= seq![';'] + "port="@);
    lemma_fold(q2, optional(f.host, "reflect"@, ';'), ";port="@, "port="@, x3);
    reveal_strlit(";host=");
    reveal_strlit("host=");
    assert(";host="@ =~= seq![';'] + "host="@);
    lemma_fold(q1, type_word(f.route_type), ";host="@, "host="@, x2);
    reveal_strlit(";type=");
    reveal_strlit("type=");
    assert(";type="@ =~= seq![';'] + "type="@);
    lemma_fold(q0, text::hex(router_fp as nat, 16), ";type="@, "type="@, x1);
}

proof fn lemma_fold(p: Seq<char>, field: Seq<char>, lit: Seq<char>, word: Seq<char>, t: Seq<char>)
    requires
        lit == seq![';'] + word,
    ensures
        (p + field + lit) + t == p + (field + seq![';'] + (word + t)),
{
    assert((p + field + lit) + t =~= p + (field + seq![';'] + (word + t)));
}

proof fn lemma_same_head(h: Seq<char>, x: Seq<char>, y: Seq<char>)
    requires
        h + x == h + y,
    ensures
        x == y,
{
    assert(x =~= (h + x).subrange(h.len() as int, (h + x).len() as int));
    assert(y =~= (h + y).subrange(h.len() as int, (h + y).len() as int));
}

/// What follows a text behind its length is told apart from the text.
proof fn lemma_sized_apart(a: Seq<char>, x: Seq<char>, b: Seq<char>, y: Seq<char>)
    requires
        sized(a) + x == sized(b) + y,
    ensures
        a == b,
        x == y,
{
    reveal_strlit(":");
    lemma_dec_free(a.len(), ':');
    lemma_dec_free(b.len(), ':');
    assert(sized(a) + x =~= text::dec(a.len()) + seq![':'] + (a + x));
    assert(sized(b) + y =~= text::dec(b.len()) + seq![':'] + (b + y));
    lemma_cut(':', text::dec(a.len()), a + x, text::dec(b.len()), b + y);
    lemma_dec_apart(a.len(), b.len());
    assert(a =~= (a + x).take(a.len() as int));
    assert(b =~= (b + y).take(b.len() as int));
    lemma_same_head(a, x, y);
}

/// What follows a text in front of a separator is told apart from the text, bare or
/// quoted.
proof fn lemma_shown_apart(
    c: char,
    d: char,
    a: Seq<char>,
    a_bare: bool,
    x: Seq<char>,
    b: Seq<char>,
    b_bare: bool,
    y: Seq<char>,
)
    requires
        c != '"',
        d != '"',
        x.len() > 0 && (x[0] == c || x[0] == d),
        y.len() > 0 && (y[0] == c || y[0] == d),
        a_bare ==> is_bare(a, c) && is_bare(a, d),
        b_bare ==> is_bare(b, c) && is_bare(b, d),
        shown(a, a_bare) + x == shown(b, b_bare) + y,
    ensures
        a == b,
        a_bare == b_bare,
        x == y,
{
    reveal_strlit("\"");
    let l = shown(a, a_bare) + x;
    let r = shown(b, b_bare) + y;
    if a_bare && b_bare {
        if a.len() < b.len() {
            assert(l[a.len() as int] == x[0]);
            assert(r[a.len() as int] == b[a.len() as int]);
            assert(b.contains(x[0]));
        }
        if b.len() < a.len() {
            assert(r[b.len() as int] == y[0]);
            assert(l[b.len() as int] == a[b.len() as int]);
            assert(a.contains(y[0]));
        }
        assert(a =~= l.take(a.len() as int));
        assert(b =~= r.take(b.len() as int));
        lemma_same_head(a, x, y);
    } else if !a_bare && !b_bare {
        assert(l =~= "\""@ + (sized(a) + x));
        assert(r =~= "\""@ + (sized(b) + y));
        lemma_same_head("\""@, sized(a) + x, sized(b) + y);
        lemma_sized_apart(a, x, b, y);
    } else if a_bare {
        assert(r[0] == '"');
        assert(l[0] == if a.len() > 0 {
            a[0]
        } else {
            x[0]
        });
    } else {
        assert(l[0] == '"');
        assert(r[0] == if b.len() > 0 {
            b[0]
        } else {
            y[0]
        });
    }
}

proof fn lemma_field_apart(c: char, a: Seq<char>, x: Seq<char>, b: Seq<char>, y: Seq<char>)
    requires
        c != '"',
        field(a, c) + seq![c] + x == field(b, c) + seq![c] + y,
    ensures
        a == b,
        x == y,
{
    assert(field(a, c) + seq![c] + x =~= field(a, c) + (seq![c] + x));
    assert(field(b, c) + seq![c] + y =~= field(b, c) + (seq![c] + y));
    lemma_shown_apart(c, c, a, is_bare(a, c), seq![c] + x, b, is_bare(b, c), seq![c] + y);
    lemma_same_head(seq![c], x, y);
}

proof fn lemma_optional_apart(
    mark: Seq<char>,
    c: char,
    a: Option<Seq<char>>,
    x: Seq<char>,
    b: Option<Seq<char>>,
    y: Seq<char>,
)
    requires
        c != '"',
        is_bare(mark, c),
        optional(a, mark, c) + seq![c] + x == optional(b, mark, c) + seq![c] + y,
    ensures
        a == b,
        x == y,
{
    let p = seq![c] + x;
    let q = seq![c] + y;
    assert(optional(a, mark, c) + seq![c] + x =~= optional(a, mark, c) + p);
    assert(optional(b, mark, c) + seq![c] + y =~= optional(b, mark, c) + q);
    let (s, s_bare) = match a {
        Some(s) => (s, is_bare(s, c) && s != mark),
        None => (mark, true),
    };
    let (u, u_bare) = match b {
        Some(u) => (u, is_bare(u, c) && u != mark),
        None => (mark, true),
    };
    lemma_shown_apart(c, c, s, s_bare, p, u, u_bare, q);
    lemma_same_head(seq![c], x, y);
}

proof fn lemma_marks()
    ensures
        is_bare("reflect"@, ';'),
        is_bare("-"@, ';'),
        is_bare("-"@, ','),
{
    reveal_strlit("reflect");
    reveal_strlit("-");
}

proof fn lemma_words_free(f: ForwardingView)
    ensures
        !type_word(f.route_type).contains(';'),
        !family_name(f.family).contains(';'),
{
    reveal_strlit("ech");
    reveal_strlit("tls");
    reveal_strlit("http");
    reveal_strlit("raw");
    reveal_strlit("h3");
    reveal_strlit("h3-ech");
    reveal_strlit("Dual");
    reveal_strlit("Ipv4");
    reveal_strlit("Ipv6");
}

proof fn lemma_ech_chain(e: EchView, t: Seq<char>)
    ensures
        ech_name(Some(e)) + t == "mode:"@ + (validate::mode_word(e.mode) + seq![','] + ("domain:"@ + (optional(e.domain, "-"@, ',')
            + seq![','] + ("resolver:"@ + (field(e.resolver, ',') + seq![','] + ("inline:"@ + (bool_name(e.inline_config)
            + t))))))),
{
    reveal_strlit(",domain:");
    reveal_strlit(",resolver:");
    reveal_strlit(",inline:");
    reveal_strlit("domain:");
    reveal_strlit("resolver:");
    reveal_strlit("inline:");
    assert(",domain:"@ =~= seq![','] + "domain:"@);
    assert(",resolver:"@ =~= seq![','] + "resolver:"@);
    assert(",inline:"@ =~= seq![','] + "inline:"@);
    assert(ech_name(Some(e)) + t =~= "mode:"@ + (validate::mode_word(e.mode) + seq![','] + ("domain:"@ + (optional(
        e.domain,
        "-"@,
        ',',
    ) + seq![','] + ("resolver:"@ + (field(e.resolver, ',') + seq![','] + ("inline:"@ + (bool_name(e.inline_config)
        + t))))))));
}

proof fn lemma_mode_words()
    ensures
        forall|a: EchMode, b: EchMode| validate::mode_word(a) == validate::mode_word(b) ==> a == b,
        forall|a: EchMode| !(#[trigger] validate::mode_word(a)).contains(','),
        forall|a: bool| !(#[trigger] bool_name(a)).contains(';'),
        forall|a: bool, b: bool| bool_name(a) == bool_name(b) ==> a == b,
{
    reveal_strlit("Doh");
    reveal_strlit("Static");
    reveal_strlit("DohWithFallback");
    reveal_strlit("true");
    reveal_strlit("false");
    assert("Doh"@.len() != "Static"@.len() && "Doh"@.len() != "DohWithFallback"@.len() && "Static"@.len()
        != "DohWithFallback"@.len());
    assert("true"@.len() != "false"@.len());
}

proof fn lemma_ech_field(a: Option<EchView>, x: Seq<char>, b: Option<EchView>, y: Seq<char>)
    requires
        ech_name(a) + seq![';'] + x == ech_name(b) + seq![';'] + y,
    ensures
        a == b,
        x == y,
{
    reveal_strlit("-");
    reveal_strlit("mode:");
    lemma_mode_words();
    lemma_marks();
    let p = seq![';'] + x;
    let q = seq![';'] + y;
    assert(ech_name(a) + seq![';'] + x =~= ech_name(a) + p);
    assert(ech_name(b) + seq![';'] + y =~= ech_name(b) + q);
    match (a, b) {
        (Some(v), Some(w)) => {
            lemma_ech_chain(v, p);
            lemma_ech_chain(w, q);
            let x3 = bool_name(v.inline_config) + p;
            let y3 = bool_name(w.inline_config) + q;
            let x2 = field(v.resolver, ',') + seq![','] + ("inline:"@ + x3);
            let y2 = field(w.resolver, ',') + seq![','] + ("inline:"@ + y3);
            let x1 = optional(v.domain, "-"@, ',') + seq![','] + ("resolver:"@ + x2);
            let y1 = optional(w.domain, "-"@, ',') + seq![','] + ("resolver:"@ + y2);
            let x0 = validate::mode_word(v.mode) + seq![','] + ("domain:"@ + x1);
            let y0 = validate::mode_word(w.mode) + seq![','] + ("domain:"@ + y1);
            lemma_same_head("mode:"@, x0, y0);
            lemma_cut(',', validate::mode_word(v.mode), "domain:"@ + x1, validate::mode_word(w.mode), "domain:"@ + y1);
            lemma_same_head("domain:"@, x1, y1);
            lemma_optional_apart("-"@, ',', v.domain, "resolver:"@ + x2, w.domain, "resolver:"@ + y2);
            lemma_same_head("resolver:"@, x2, y2);
            lemma_field_apart(',', v.resolver, "inline:"@ + x3, w.resolver, "inline:"@ + y3);
            lemma_same_head("inline:"@, x3, y3);
            assert(x3 =~= bool_name(v.inline_config) + seq![';'] + x);
            assert(y3 =~= bool_name(w.inline_config) + seq![';'] + y);
            lemma_cut(';', bool_name(v.inline_config), x, bool_name(w.inline_config), y);
        },
        (Some(v), None) => {
            lemma_ech_chain(v, p);
            assert((ech_name(a) + p)[0] == 'm');
            assert((ech_name(b) + q)[0] == '-');
        },
        (None, Some(w)) => {
            lemma_ech_chain(w, q);
            assert((ech_name(b) + q)[0] == 'm');
            assert((ech_name(a) + p)[0] == '-');
        },
        (None, None) => {
            lemma_same_head("-"@, p, q);
            lemma_same_head(seq![';'], x, y);
        },
    }
}

proof fn lemma_words_apart()
    ensures
        forall|a: RouteType, b: RouteType| type_word(a) == type_word(b) ==> a == b,
        forall|a: AddressFamily, b: AddressFamily| family_name(a) == family_name(b) ==> a == b,
{
    reveal_strlit("ech");
    reveal_strlit("tls");
    reveal_strlit("http");
    reveal_strlit("raw");
    reveal_strlit("h3");
    reveal_strlit("h3-ech");
    reveal_strlit("Dual");
    reveal_strlit("Ipv4");
    reveal_strlit("Ipv6");
    assert("ech"@[0] == 'e' && "tls"@[0] == 't' && "http"@[1] == 't' && "raw"@[0] == 'r' && "h3"@[1] == '3');
    assert("http"@[0] == 'h' && "h3"@[0] == 'h' && "h3-ech"@[0] == 'h' && "h3-ech"@[1] == '3');
    assert("h3"@.len() != "h3-ech"@.len());
    assert("Dual"@[0] == 'D' && "Ipv4"@[0] == 'I' && "Ipv6"@[0] == 'I' && "Ipv4"@[3] == '4' && "Ipv6"@[3] == '6');
}

proof fn lemma_sni_field(a: SniView, x: Seq<char>, b: SniView, y: Seq<char>)
    requires
        sni_name(a) + seq![';'] + x == sni_name(b) + seq![';'] + y,
    ensures
        a == b,
        x == y,
{
    reveal_strlit("reflect");
    reveal_strlit("omit");
    reveal_strlit("fixed:");
    let p = seq![';'] + x;
    let q = seq![';'] + y;
    assert(sni_name(a) + seq![';'] + x =~= sni_name(a) + p);
    assert(sni_name(b) + seq![';'] + y =~= sni_name(b) + q);
    assert((sni_name(a) + p)[0] == sni_name(a)[0]);
    assert((sni_name(b) + q)[0] == sni_name(b)[0]);
    match (a, b) {
        (SniView::Fixed(n), SniView::Fixed(m)) => {
            assert(sni_name(a) + p =~= "fixed:"@ + (field(n, ';') + seq![';'] + x));
            assert(sni_name(b) + q =~= "fixed:"@ + (field(m, ';') + seq![';'] + y));
            lemma_same_head("fixed:"@, field(n, ';') + seq![';'] + x, field(m, ';') + seq![';'] + y);
            lemma_field_apart(';', n, x, m, y);
        },
        _ => {
            assert(sni_name(a)[0] == sni_name(b)[0]);
            assert(a == b);
            lemma_same_head(sni_name(a), p, q);
        },
    }
    lemma_same_head(seq![';'], x, y);
}

/// Every part of a route's forwarding, and the routing table, is in a scope's
/// identity: two scopes that differ in any of them differ in the text that is
/// hashed.
pub proof fn law_identity_has_every_field(fp1: u64, f1: ForwardingView, fp2: u64, f2: ForwardingView)
    requires
        canonical_text(fp1, f1) == canonical_text(fp2, f2),
    ensures
        fp1 == fp2,
        f1 == f2,
{
    lemma_canonical_chain(fp1, f1);
    lemma_canonical_chain(fp2, f2);
    lemma_words_free(f1);
    lemma_words_free(f2);
    lemma_marks();
    lemma_hex_free(fp1 as nat, 16);
    lemma_hex_free(fp2 as nat, 16);
    lemma_dec_free(f1.port as nat, ';');
    lemma_dec_free(f2.port as nat, ';');
    let e = Seq::<char>::empty();
    let x8 = ech_name(f1.ech) + seq![';'] + e;
    let y8 = ech_name(f2.ech) + seq![';'] + e;
    let x7 = field(f1.addr_resolver, ';') + seq![';'] + ("ech="@ + x8);
    let y7 = field(f2.addr_resolver, ';') + seq![';'] + ("ech="@ + y8);
    let x6 = optional(f1.nat64, "-"@, ';') + seq![';'] + ("addr_resolver="@ + x7);
    let y6 = optional(f2.nat64, "-"@, ';') + seq![';'] + ("addr_resolver="@ + y7);
    let x5 = family_name(f1.family) + seq![';'] + ("nat64="@ + x6);
    let y5 = family_name(f2.family) + seq![';'] + ("nat64="@ + y6);
    let x4 = sni_name(f1.sni) + seq![';'] + ("family="@ + x5);
    let y4 = sni_name(f2.sni) + seq![';'] + ("family="@ + y5);
    let x3 = text::dec(f1.port as nat) + seq![';'] + ("sni="@ + x4);
    let y3 = text::dec(f2.port as nat) + seq![';'] + ("sni="@ + y4);
    let x2 = optional(f1.host, "reflect"@, ';') + seq![';'] + ("port="@ + x3);
    let y2 = optional(f2.host, "reflect"@, ';') + seq![';'] + ("port="@ + y3);
    let x1 = type_word(f1.route_type) + seq![';'] + ("host="@ + x2);
    let y1 = type_word(f2.route_type) + seq![';'] + ("host="@ + y2);
    let x0 = text::hex(fp1 as nat, 16) + seq![';'] + ("type="@ + x1);
    let y0 = text::hex(fp2 as nat, 16) + seq![';'] + ("type="@ + y1);
    lemma_same_head("router="@, x0, y0);
    lemma_cut(';', text::hex(fp1 as nat, 16), "type="@ + x1, text::hex(fp2 as nat, 16), "type="@ + y1);
    lemma_same_head("type="@, x1, y1);
    lemma_cut(';', type_word(f1.route_type), "host="@ + x2, type_word(f2.route_type), "host="@ + y2);
    lemma_same_head("host="@, x2, y2);
    lemma_optional_apart("reflect"@, ';', f1.host, "port="@ + x3, f2.host, "port="@ + y3);
    lemma_same_head("port="@, x3, y3);
    lemma_cut(';', text::dec(f1.port as nat), "sni="@ + x4, text::dec(f2.port as nat), "sni="@ + y4);
    lemma_same_head("sni="@, x4, y4);
    lemma_sni_field(f1.sni, "family="@ + x5, f2.sni, "family="@ + y5);
    lemma_same_head("family="@, x5, y5);
    lemma_cut(';', family_name(f1.family), "nat64="@ + x6, family_name(f2.family), "nat64="@ + y6);
    lemma_same_head("nat64="@, x6, y6);
    lemma_optional_apart("-"@, ';', f1.nat64, "addr_resolver="@ + x7, f2.nat64, "addr_resolver="@ + y7);
    lemma_same_head("addr_resolver="@, x7, y7);
    lemma_field_apart(';', f1.addr_resolver, "ech="@ + x8, f2.addr_resolver, "ech="@ + y8);
    lemma_same_head("ech="@, x8, y8);
    lemma_ech_field(f1.ech, e, f2.ech, e);
    lemma_words_apart();
    lemma_dec_apart(f1.port as nat, f2.port as nat);
    assert(vstd::arithmetic::power::pow(16, 16) == 18446744073709551616) by {
        lemma_pow16();
    }
    lemma_hex_apart(fp1 as nat, fp2 as nat, 16);
}

proof fn lemma_pow16()
    ensures
        vstd::arithmetic::power::pow(16, 16) == 18446744073709551616,
{
    reveal(vstd::arithmetic::power::pow);
    reveal_with_fuel(vstd::arithmetic::power::pow, 17);
}

proof fn lemma_collapsed(s: Seq<char>)
    ensures
        forall|i: int| 0 <= i < collapsed(s).len() ==> is_plain(#[trigger] collapsed(s)[i]) || collapsed(s)[i] == '_',
    decreases s.len(),
{
    if s.len() > 0 {
        lemma_collapsed(s.drop_last());
        let out = collapsed(s.drop_last());
        assert forall|i: int| 0 <= i < collapsed(s).len() implies is_plain(#[trigger] collapsed(s)[i]) || collapsed(
            s,
        )[i] == '_' by {
            if i < out.len() {
                assert(collapsed(s)[i] == out[i]);
            }
        }
    }
}

proof fn lemma_leading(s: Seq<char>)
    ensures
        without_leading_dots(s).len() > 0 ==> without_leading_dots(s)[0] != '.',
        without_leading_dots(s).len() <= s.len(),
        without_leading_dots(s) == s.subrange(s.len() - without_leading_dots(s).len(), s.len() as int),
    decreases s.len(),
{
    if s.len() > 0 && s[0] == '.' {
        lemma_leading(s.drop_first());
        let t = without_leading_dots(s);
        assert(t =~= s.subrange(s.len() - t.len(), s.len() as int));
    } else {
        assert(s =~= s.subrange(0, s.len() as int));
    }
}

proof fn lemma_trailing(s: Seq<char>)
    ensures
        without_trailing_dots(s).len() > 0 ==> without_trailing_dots(s).last() != '.',
        without_trailing_dots(s).len() <= s.len(),
        without_trailing_dots(s) == s.subrange(0, without_trailing_dots(s).len() as int),
    decreases s.len(),
{
    if s.len() > 0 && s.last() == '.' {
        lemma_trailing(s.drop_last());
        let t = without_trailing_dots(s);
        assert(t =~= s.subrange(0, t.len() as int));
    } else {
        assert(s =~= s.subrange(0, s.len() as int));
    }
}

/// A sanitized text is one path component: it is not empty, holds no separator,
/// and neither starts nor ends with a dot.
pub proof fn law_sanitized_is_one_component(s: Seq<char>)
    ensures
        sanitized(s).len() > 0,
        sanitized(s)[0] != '.',
        sanitized(s).last() != '.',
        forall|i: int| 0 <= i < sanitized(s).len() ==> is_plain(#[trigger] sanitized(s)[i]) || sanitized(s)[i] == '_',
{
    reveal_strlit("_");
    lemma_collapsed(s);
    let a = collapsed(s);
    lemma_leading(a);
    let b = without_leading_dots(a);
    lemma_trailing(b);
    let c = without_trailing_dots(b);
    assert forall|i: int| 0 <= i < c.len() implies is_plain(#[trigger] c[i]) || c[i] == '_' by {
        assert(c[i] == b[i]);
        assert(b[i] == a[a.len() - b.len() + i]);
    }
    if c.len() > 0 {
        assert(c[0] == b[0]);
    }
}

proof fn lemma_no_double_mark(s: Seq<char>)
    ensures
        forall|i: int| 0 < i < collapsed(s).len() ==> !(#[trigger] collapsed(s)[i] == '_' && collapsed(s)[i - 1] == '_'),
    decreases s.len(),
{
    if s.len() > 0 {
        lemma_no_double_mark(s.drop_last());
        let out = collapsed(s.drop_last());
        assert forall|i: int| 0 < i < collapsed(s).len() implies !(#[trigger] collapsed(s)[i] == '_' && collapsed(s)[i - 1]
            == '_') by {
            assert(collapsed(s)[i - 1] == out[i - 1]);
            if i < out.len() {
                assert(collapsed(s)[i] == out[i]);
            } else {
                assert(out[i - 1] == out.last());
            }
        }
    }
}

proof fn lemma_collapsed_stays(t: Seq<char>)
    requires
        forall|i: int| 0 <= i < t.len() ==> is_plain(#[trigger] t[i]) || t[i] == '_',
        forall|i: int| 0 < i < t.len() ==> !(#[trigger] t[i] == '_' && t[i - 1] == '_'),
    ensures
        collapsed(t) == t,
    decreases t.len(),
{
    if t.len() > 0 {
        let front = t.drop_last();
        assert forall|i: int| 0 < i < front.len() implies !(#[trigger] front[i] == '_' && front[i - 1] == '_') by {
            assert(t[i] == front[i] && t[i - 1] == front[i - 1]);
        }
        lemma_collapsed_stays(front);
        assert(t =~= front.push(t.last()));
        assert(t[t.len() - 1] == t.last());
    }
}

/// A sanitized text stays as it is when it is sanitized again.
pub proof fn law_sanitize_is_idempotent(s: Seq<char>)
    ensures
        sanitized(sanitized(s)) == sanitized(s),
{
    reveal_strlit("_");
    law_sanitized_is_one_component(s);
    lemma_no_double_mark(s);
    let a = collapsed(s);
    lemma_leading(a);
    let b = without_leading_dots(a);
    lemma_trailing(b);
    let c = without_trailing_dots(b);
    let t = sanitized(s);
    assert forall|i: int| 0 < i < t.len() implies !(#[trigger] t[i] == '_' && t[i - 1] == '_') by {
        if c.len() > 0 {
            let k = a.len() - b.len() + i;
            assert(c[i] == b[i] && b[i] == a[k]);
            assert(c[i - 1] == b[i - 1] && b[i - 1] == a[k - 1]);
        }
    }
    lemma_collapsed_stays(t);
}

proof fn lemma_routes_text_same(a: Seq<Vec<String>>, b: Seq<Vec<String>>, i: int)
    requires
        0 <= i <= a.len(),
        a.len() == b.len(),
        forall|i: int|
            0 <= i < a.len() ==> text::texts(#[trigger] a[i]@).to_multiset() == text::texts(b[i]@).to_multiset(),
    ensures
        routes_text(a, i) == routes_text(b, i),
    decreases a.len() - i,
{
    if i < a.len() {
        lemma_routes_text_same(a, b, i + 1);
        assert(text::texts(a[i]@).to_multiset() == text::texts(b[i]@).to_multiset());
        order::lemma_sorted_ignores_order(text::texts(a[i]@), text::texts(b[i]@));
    }
}

/// The order of the patterns within a route plays no part in a routing table's
/// identity.
pub proof fn law_pattern_order_is_irrelevant(
    a: Seq<Vec<String>>,
    b: Seq<Vec<String>>,
    default: Option<usize>,
    table: Seq<(String, RegexDef)>,
)
    requires
        a.len() == b.len(),
        forall|i: int|
            0 <= i < a.len() ==> text::texts(#[trigger] a[i]@).to_multiset() == text::texts(b[i]@).to_multiset(),
    ensures
        router_text(a, default, table) == router_text(b, default, table),
{
    lemma_routes_text_same(a, b, 0);
}

proof fn lemma_regexes_text_same(a: Seq<(String, RegexDef)>, b: Seq<(String, RegexDef)>, names: Seq<Seq<char>>, i: int)
    requires
        same_regexes(a, b),
        0 <= i <= names.len(),
    ensures
        regexes_text(a, names, i) == regexes_text(b, names, i),
    decreases names.len() - i,
{
    if i < names.len() {
        lemma_regexes_text_same(a, b, names, i + 1);
        let name = names[i];
        assert(same_regex(a, b, name));
        match (references::lookup(a, name), references::lookup(b, name)) {
            (Some(x), Some(y)) => {
                order::lemma_sorted_ignores_order(text::texts(x.scope_suffix@), text::texts(y.scope_suffix@));
            },
            _ => {},
        }
    }
}

/// Whether two tables declare the same under a name.
pub open spec fn same_regex(a: Seq<(String, RegexDef)>, b: Seq<(String, RegexDef)>, name: Seq<char>) -> bool {
    match (references::lookup(a, name), references::lookup(b, name)) {
        (Some(x), Some(y)) => x.pattern@ == y.pattern@ && text::texts(x.scope_suffix@).to_multiset() == text::texts(
            y.scope_suffix@,
        ).to_multiset(),
        (None, None) => true,
        _ => false,
    }
}

/// Whether two tables declare the same regexes, in whatever order, with their
/// scopes in whatever order.
pub open spec fn same_regexes(a: Seq<(String, RegexDef)>, b: Seq<(String, RegexDef)>) -> bool {
    &&& references::names_of(a).to_multiset() == references::names_of(b).to_multiset()
    &&& forall|name: Seq<char>| same_regex(a, b, name)
}

/// Neither the order in which regexes are declared nor the order of their scopes
/// plays a part in a routing table's identity.
pub proof fn law_regex_order_is_irrelevant(
    patterns: Seq<Vec<String>>,
    default: Option<usize>,
    a: Seq<(String, RegexDef)>,
    b: Seq<(String, RegexDef)>,
)
    requires
        same_regexes(a, b),
    ensures
        router_text(patterns, default, a) == router_text(patterns, default, b),
{
    order::lemma_sorted_ignores_order(references::names_of(a), references::names_of(b));
    vstd::seq_lib::to_multiset_len(references::names_of(a));
    vstd::seq_lib::to_multiset_len(references::names_of(b));
    let names = order::sorted(references::names_of(a));
    lemma_regexes_text_same(a, b, names, 0);
}

proof fn lemma_sized_all_apart(a: Seq<Seq<char>>, x: Seq<char>, b: Seq<Seq<char>>, y: Seq<char>, n: int)
    requires
        0 <= n <= a.len(),
        n <= b.len(),
        sized_all(a, n) + x == sized_all(b, n) + y,
    ensures
        a.take(n) == b.take(n),
        x == y,
    decreases n,
{
    if n > 0 {
        let p = sized(a[n - 1]) + x;
        let q = sized(b[n - 1]) + y;
        assert(sized_all(a, n) + x =~= sized_all(a, n - 1) + p);
        assert(sized_all(b, n) + y =~= sized_all(b, n - 1) + q);
        lemma_sized_all_apart(a, p, b, q, n - 1);
        lemma_sized_apart(a[n - 1], x, b[n - 1], y);
        assert(a.take(n) =~= a.take(n - 1).push(a[n - 1]));
        assert(b.take(n) =~= b.take(n - 1).push(b[n - 1]));
    } else {
        assert(sized_all(a, n) + x =~= x);
        assert(sized_all(b, n) + y =~= y);
        assert(a.take(n) =~= b.take(n));
    }
}

/// A number in front of a character that is no digit.
proof fn lemma_count_apart(c: char, a: nat, x: Seq<char>, b: nat, y: Seq<char>)
    requires
        !text::is_digit(c),
        text::dec(a) + seq![c] + x == text::dec(b) + seq![c] + y,
    ensures
        a == b,
        x == y,
{
    lemma_dec_free(a, c);
    lemma_dec_free(b, c);
    lemma_cut(c, text::dec(a), x, text::dec(b), y);
    lemma_dec_apart(a, b);
}

proof fn lemma_list_apart(a: Seq<Seq<char>>, x: Seq<char>, b: Seq<Seq<char>>, y: Seq<char>)
    requires
        list_text(a) + x == list_text(b) + y,
    ensures
        a == b,
        x == y,
{
    reveal_strlit("[");
    reveal_strlit("]");
    let n = a.len() as int;
    let m = b.len() as int;
    let p = "]"@ + x;
    let q = "]"@ + y;
    assert(list_text(a) + x =~= text::dec(a.len()) + seq!['['] + (sized_all(a, n) + p));
    assert(list_text(b) + y =~= text::dec(b.len()) + seq!['['] + (sized_all(b, m) + q));
    lemma_count_apart('[', a.len(), sized_all(a, n) + p, b.len(), sized_all(b, m) + q);
    lemma_sized_all_apart(a, p, b, q, n);
    lemma_same_head("]"@, x, y);
    assert(a.take(n) =~= a);
    assert(b.take(n) =~= b);
}

/// Two lists that are alike in order hold the same texts, each as often.
proof fn lemma_sorted_tells(a: Seq<Seq<char>>, b: Seq<Seq<char>>)
    requires
        order::sorted(a) == order::sorted(b),
    ensures
        a.to_multiset() == b.to_multiset(),
{
    order::lemma_sorted(a);
    order::lemma_sorted(b);
}

/// What stands behind the `i`th text of a list: the others, a semicolon, and more.
spec fn behind_element(a: Seq<Seq<char>>, i: int, x: Seq<char>) -> Seq<char> {
    if i == a.len() - 1 {
        seq![';'] + x
    } else {
        seq![','] + (elements(a, i + 1) + seq![';'] + x)
    }
}

proof fn lemma_element_first(a: Seq<Seq<char>>, i: int, x: Seq<char>)
    requires
        0 <= i < a.len(),
    ensures
        elements(a, i) + seq![';'] + x == shown(a[i], is_bare_element(a[i])) + behind_element(a, i, x),
{
    reveal_strlit(",");
    let s = shown(a[i], is_bare_element(a[i]));
    if i == a.len() - 1 {
        assert(elements(a, i) + seq![';'] + x =~= s + behind_element(a, i, x));
    } else {
        let rest = elements(a, i + 1);
        assert(","@ =~= seq![',']);
        assert(elements(a, i) == s + seq![','] + rest);
        assert((s + seq![','] + rest) + seq![';'] + x =~= s + (seq![','] + (rest + seq![';'] + x)));
    }
}

proof fn lemma_behind_apart(a: Seq<Seq<char>>, i: int, x: Seq<char>, b: Seq<Seq<char>>, j: int, y: Seq<char>)
    requires
        0 <= i < a.len(),
        0 <= j < b.len(),
        behind_element(a, i, x) == behind_element(b, j, y),
    ensures
        i == a.len() - 1 <==> j == b.len() - 1,
        i == a.len() - 1 ==> x == y,
        i < a.len() - 1 ==> elements(a, i + 1) + seq![';'] + x == elements(b, j + 1) + seq![';'] + y,
{
    let p = behind_element(a, i, x);
    let q = behind_element(b, j, y);
    assert(p[0] == if i == a.len() - 1 {
        ';'
    } else {
        ','
    });
    assert(q[0] == if j == b.len() - 1 {
        ';'
    } else {
        ','
    });
    if i == a.len() - 1 {
        lemma_same_head(seq![';'], x, y);
    } else {
        lemma_same_head(seq![','], elements(a, i + 1) + seq![';'] + x, elements(b, j + 1) + seq![';'] + y);
    }
}

/// Two lists are told apart, and from what follows a semicolon behind them.
proof fn lemma_elements_apart(a: Seq<Seq<char>>, i: int, x: Seq<char>, b: Seq<Seq<char>>, j: int, y: Seq<char>)
    requires
        0 <= i <= a.len(),
        0 <= j <= b.len(),
        elements(a, i) + seq![';'] + x == elements(b, j) + seq![';'] + y,
    ensures
        a.subrange(i, a.len() as int) == b.subrange(j, b.len() as int),
        x == y,
    decreases a.len() - i,
{
    if i < a.len() && j < b.len() {
        lemma_element_first(a, i, x);
        lemma_element_first(b, j, y);
        lemma_shown_apart(
            ',',
            ';',
            a[i],
            is_bare_element(a[i]),
            behind_element(a, i, x),
            b[j],
            is_bare_element(b[j]),
            behind_element(b, j, y),
        );
        lemma_behind_apart(a, i, x, b, j, y);
        if i < a.len() - 1 {
            lemma_elements_apart(a, i + 1, x, b, j + 1, y);
        }
        let (ta, tb) = (a.subrange(i + 1, a.len() as int), b.subrange(j + 1, b.len() as int));
        assert(ta =~= tb);
        assert(a.subrange(i, a.len() as int) =~= seq![a[i]] + ta);
        assert(b.subrange(j, b.len() as int) =~= seq![b[j]] + tb);
    } else {
        lemma_elements_ended(a, i, x, b, j, y);
    }
}

proof fn lemma_elements_ended(a: Seq<Seq<char>>, i: int, x: Seq<char>, b: Seq<Seq<char>>, j: int, y: Seq<char>)
    requires
        0 <= i <= a.len(),
        0 <= j <= b.len(),
        i == a.len() || j == b.len(),
        elements(a, i) + seq![';'] + x == elements(b, j) + seq![';'] + y,
    ensures
        i == a.len(),
        j == b.len(),
        a.subrange(i, a.len() as int) == b.subrange(j, b.len() as int),
        x == y,
{
    let l = elements(a, i) + seq![';'] + x;
    let r = elements(b, j) + seq![';'] + y;
    assert(l =~= elements(a, i) + (seq![';'] + x));
    assert(r =~= elements(b, j) + (seq![';'] + y));
    if i < a.len() {
        lemma_element_begins(a, i, seq![';'] + x);
        assert(r[0] == ';');
    } else if j < b.len() {
        lemma_element_begins(b, j, seq![';'] + y);
        assert(l[0] == ';');
    } else {
        assert(l =~= seq![';'] + x);
        assert(r =~= seq![';'] + y);
        lemma_same_head(seq![';'], x, y);
        assert(a.subrange(i, a.len() as int) =~= b.subrange(j, b.len() as int));
    }
}

proof fn lemma_element_begins(a: Seq<Seq<char>>, i: int, t: Seq<char>)
    requires
        0 <= i < a.len(),
    ensures
        (elements(a, i) + t)[0] != ';',
{
    reveal_strlit("\"");
    let s = shown(a[i], is_bare_element(a[i]));
    assert(s.len() > 0);
    assert((elements(a, i) + t)[0] == s[0]);
    if is_bare_element(a[i]) {
        assert(a[i].contains(a[i][0]));
    }
}

proof fn lemma_routes_apart(a: Seq<Vec<String>>, x: Seq<char>, b: Seq<Vec<String>>, y: Seq<char>, i: int)
    requires
        0 <= i <= a.len(),
        i <= b.len(),
        x.len() > 0 && x[0] == 'd',
        y.len() > 0 && y[0] == 'd',
        routes_text(a, i) + x == routes_text(b, i) + y,
    ensures
        a.len() == b.len(),
        forall|k: int|
            i <= k < a.len() ==> text::texts(#[trigger] a[k]@).to_multiset() == text::texts(b[k]@).to_multiset(),
        x == y,
    decreases a.len() - i,
{
    reveal_strlit("=");
    reveal_strlit(";");
    text::lemma_dec_digits(i as nat);
    let l = routes_text(a, i) + x;
    let r = routes_text(b, i) + y;
    let d = text::dec(i as nat);
    if i < a.len() && i < b.len() {
        let s = order::sorted(text::texts(a[i]@));
        let u = order::sorted(text::texts(b[i]@));
        let p = routes_text(a, i + 1) + x;
        let q = routes_text(b, i + 1) + y;
        assert(l =~= (d + "="@) + (elements(s, 0) + seq![';'] + p));
        assert(r =~= (d + "="@) + (elements(u, 0) + seq![';'] + q));
        lemma_same_head(d + "="@, elements(s, 0) + seq![';'] + p, elements(u, 0) + seq![';'] + q);
        lemma_elements_apart(s, 0, p, u, 0, q);
        assert(s.subrange(0, s.len() as int) =~= s);
        assert(u.subrange(0, u.len() as int) =~= u);
        lemma_sorted_tells(text::texts(a[i]@), text::texts(b[i]@));
        lemma_routes_apart(a, x, b, y, i + 1);
    } else if i < a.len() {
        assert(l[0] == d[0]);
        assert(r =~= y);
    } else if i < b.len() {
        assert(r[0] == d[0]);
        assert(l =~= x);
    } else {
        assert(l =~= x);
        assert(r =~= y);
    }
}

proof fn lemma_no_close(name: Seq<char>, pattern: Seq<char>, scopes: Seq<Seq<char>>, k: int)
    requires
        is_bare_regex(name, pattern, scopes),
        0 <= k < (name + seq![':'] + pattern + seq!['['] + elements(scopes, 0)).len() - 1,
    ensures
        ({
            let e = name + seq![':'] + pattern + seq!['['] + elements(scopes, 0);
            !(e[k] == ']' && e[k + 1] == ';')
        }),
{
    reveal_strlit("];");
    lemma_bare_scopes(scopes, 0);
    let e = name + seq![':'] + pattern + seq!['['] + elements(scopes, 0);
    let list = elements(scopes, 0);
    let at = name.len() + 1;
    if k < name.len() {
        assert(e[k] == name[k]);
    } else if k == name.len() {
        assert(e[k] == ':');
    } else if k < at + pattern.len() {
        assert(e[k] == pattern[k - at]);
        if k + 1 < at + pattern.len() {
            assert(e[k + 1] == pattern[k + 1 - at]);
            if e[k] == ']' && e[k + 1] == ';' {
                let i = k - at;
                assert(pattern.subrange(i, i + "];"@.len()) =~= "];"@);
                assert(text::has_part(pattern, "];"@));
            }
        } else {
            assert(e[k + 1] == '[');
        }
    } else if k == at + pattern.len() {
        assert(e[k] == '[');
    } else {
        assert(e[k] == list[k - at - pattern.len() - 1]);
    }
}

/// Scopes that stand as they are hold no bracket.
proof fn lemma_bare_scopes(scopes: Seq<Seq<char>>, i: int)
    requires
        0 <= i,
        forall|k: int| 0 <= k < scopes.len() ==> is_bare_scope(#[trigger] scopes[k]),
    ensures
        !elements(scopes, i).contains('['),
        !elements(scopes, i).contains(']'),
    decreases scopes.len() - i,
{
    reveal_strlit(",");
    if i < scopes.len() {
        let s = scopes[i];
        assert(is_bare_scope(s));
        let e = elements(scopes, i);
        let rest = elements(scopes, i + 1);
        lemma_bare_scopes(scopes, i + 1);
        assert forall|k: int| 0 <= k < e.len() implies e[k] != '[' && e[k] != ']' by {
            if k < s.len() {
                assert(e[k] == s[k]);
                assert(s.contains(s[k]));
            } else if k > s.len() {
                assert(e[k] == rest[k - s.len() - 1]);
                assert(rest.contains(rest[k - s.len() - 1]));
            }
        }
    }
}

/// Two texts in front of the first bracket and semicolon are alike.
proof fn lemma_cut_at_close(a: Seq<char>, x: Seq<char>, b: Seq<char>, y: Seq<char>)
    requires
        forall|k: int| 0 <= k < a.len() - 1 ==> !(#[trigger] a[k] == ']' && a[k + 1] == ';'),
        forall|k: int| 0 <= k < b.len() - 1 ==> !(#[trigger] b[k] == ']' && b[k + 1] == ';'),
        a + seq![']', ';'] + x == b + seq![']', ';'] + y,
    ensures
        a == b,
        x == y,
{
    let l = a + seq![']', ';'] + x;
    let r = b + seq![']', ';'] + y;
    let (m, n) = (a.len() as int, b.len() as int);
    if m < n {
        assert(l[m] == ']' && l[m + 1] == ';');
        assert(r[m] == b[m]);
        if m + 1 < n {
            assert(r[m + 1] == b[m + 1]);
        } else {
            assert(r[m + 1] == ']');
        }
    }
    if n < m {
        assert(r[n] == ']' && r[n + 1] == ';');
        assert(l[n] == a[n]);
        if n + 1 < m {
            assert(l[n + 1] == a[n + 1]);
        } else {
            assert(l[n + 1] == ']');
        }
    }
    assert(a =~= l.take(m));
    assert(b =~= r.take(m));
    assert(x =~= l.subrange(m + 2, l.len() as int));
    assert(y =~= r.subrange(m + 2, r.len() as int));
}

/// Two texts behind the last of a character are alike.
proof fn lemma_cut_last(c: char, a: Seq<char>, x: Seq<char>, b: Seq<char>, y: Seq<char>)
    requires
        !x.contains(c),
        !y.contains(c),
        a + seq![c] + x == b + seq![c] + y,
    ensures
        a == b,
        x == y,
{
    let l = a + seq![c] + x;
    let r = b + seq![c] + y;
    let (m, n) = (a.len() as int, b.len() as int);
    assert(l.len() == m + 1 + x.len());
    assert(r.len() == n + 1 + y.len());
    if m < n {
        assert(r[n] == c);
        assert(l[n] == x[n - m - 1]);
        assert(x.contains(c));
    }
    if n < m {
        assert(l[m] == c);
        assert(r[m] == y[m - n - 1]);
        assert(y.contains(c));
    }
    assert(a =~= l.take(m));
    assert(b =~= r.take(m));
    assert(x =~= l.subrange(m + 1, l.len() as int));
    assert(y =~= r.subrange(m + 1, r.len() as int));
}

proof fn lemma_bare_regexes_apart(
    n1: Seq<char>,
    p1: Seq<char>,
    s1: Seq<Seq<char>>,
    x: Seq<char>,
    n2: Seq<char>,
    p2: Seq<char>,
    s2: Seq<Seq<char>>,
    y: Seq<char>,
)
    requires
        is_bare_regex(n1, p1, s1),
        is_bare_regex(n2, p2, s2),
        n1 + ":"@ + p1 + "["@ + elements(s1, 0) + "];"@ + x == n2 + ":"@ + p2 + "["@ + elements(s2, 0) + "];"@ + y,
    ensures
        n1 == n2,
        p1 == p2,
        s1 == s2,
        x == y,
{
    reveal_strlit(":");
    reveal_strlit("[");
    reveal_strlit("];");
    assert(":"@ =~= seq![':']);
    assert("["@ =~= seq!['[']);
    assert("];"@ =~= seq![']', ';']);
    let e1 = n1 + seq![':'] + p1 + seq!['['] + elements(s1, 0);
    let e2 = n2 + seq![':'] + p2 + seq!['['] + elements(s2, 0);
    assert forall|k: int| 0 <= k < e1.len() - 1 implies !(#[trigger] e1[k] == ']' && e1[k + 1] == ';') by {
        lemma_no_close(n1, p1, s1, k);
    }
    assert forall|k: int| 0 <= k < e2.len() - 1 implies !(#[trigger] e2[k] == ']' && e2[k + 1] == ';') by {
        lemma_no_close(n2, p2, s2, k);
    }
    lemma_cut_at_close(e1, x, e2, y);
    let t1 = p1 + seq!['['] + elements(s1, 0);
    let t2 = p2 + seq!['['] + elements(s2, 0);
    assert(e1 =~= n1 + seq![':'] + t1);
    assert(e2 =~= n2 + seq![':'] + t2);
    lemma_cut(':', n1, t1, n2, t2);
    lemma_bare_scopes(s1, 0);
    lemma_bare_scopes(s2, 0);
    lemma_cut_last('[', p1, elements(s1, 0), p2, elements(s2, 0));
    lemma_elements_apart(s1, 0, Seq::empty(), s2, 0, Seq::empty());
    assert(s1.subrange(0, s1.len() as int) =~= s1);
    assert(s2.subrange(0, s2.len() as int) =~= s2);
}

/// A regex with a quote in front of it.
spec fn quoted_regex(name: Seq<char>, pattern: Seq<char>, list: Seq<Seq<char>>) -> Seq<char> {
    "\""@ + sized(name) + sized(pattern) + list_text(list) + ";"@
}

proof fn lemma_regrouped(
    a: Seq<char>,
    b: Seq<char>,
    c: Seq<char>,
    d: Seq<char>,
    e: Seq<char>,
    x: Seq<char>,
)
    ensures
        a + b + c + d + e + x == a + (b + (c + (d + (e + x)))),
{
    assert(a + b + c + d + e + x =~= a + (b + (c + (d + (e + x)))));
}

proof fn lemma_quoted_regexes_apart(
    n1: Seq<char>,
    p1: Seq<char>,
    s1: Seq<Seq<char>>,
    x: Seq<char>,
    n2: Seq<char>,
    p2: Seq<char>,
    s2: Seq<Seq<char>>,
    y: Seq<char>,
)
    requires
        quoted_regex(n1, p1, s1) + x == quoted_regex(n2, p2, s2) + y,
    ensures
        n1 == n2,
        p1 == p2,
        s1 == s2,
        x == y,
{
    let x2 = list_text(s1) + (";"@ + x);
    let y2 = list_text(s2) + (";"@ + y);
    let x1 = sized(p1) + x2;
    let y1 = sized(p2) + y2;
    lemma_regrouped("\""@, sized(n1), sized(p1), list_text(s1), ";"@, x);
    lemma_regrouped("\""@, sized(n2), sized(p2), list_text(s2), ";"@, y);
    lemma_same_head("\""@, sized(n1) + x1, sized(n2) + y1);
    lemma_sized_apart(n1, x1, n2, y1);
    lemma_sized_apart(p1, x2, p2, y2);
    lemma_list_apart(s1, ";"@ + x, s2, ";"@ + y);
    lemma_same_head(";"@, x, y);
}

/// A regex begins with a quote where it is quoted, and nowhere else.
proof fn lemma_regex_begins(name: Seq<char>, pattern: Seq<char>, scopes: Seq<Seq<char>>, x: Seq<char>)
    ensures
        regex_text(name, pattern, scopes).len() > 1,
        (regex_text(name, pattern, scopes) + x)[0] == '"' <==> !is_bare_regex(name, pattern, order::sorted(scopes)),
{
    reveal_strlit("\"");
    reveal_strlit(":");
    reveal_strlit(";");
    reveal_strlit("[");
    let e = regex_text(name, pattern, scopes);
    assert(e.len() > 1);
    assert((e + x)[0] == e[0]);
    if is_bare_regex(name, pattern, order::sorted(scopes)) && name.len() > 0 {
        assert(e[0] == name[0]);
    }
}

/// What follows a regex is told apart from it.
proof fn lemma_regex_apart(
    n1: Seq<char>,
    p1: Seq<char>,
    c1: Seq<Seq<char>>,
    x: Seq<char>,
    n2: Seq<char>,
    p2: Seq<char>,
    c2: Seq<Seq<char>>,
    y: Seq<char>,
)
    requires
        regex_text(n1, p1, c1) + x == regex_text(n2, p2, c2) + y,
    ensures
        n1 == n2,
        p1 == p2,
        c1.to_multiset() == c2.to_multiset(),
        x == y,
{
    let s1 = order::sorted(c1);
    let s2 = order::sorted(c2);
    lemma_regex_begins(n1, p1, c1, x);
    lemma_regex_begins(n2, p2, c2, y);
    if is_bare_regex(n1, p1, s1) {
        lemma_bare_regexes_apart(n1, p1, s1, x, n2, p2, s2, y);
    } else {
        lemma_quoted_regexes_apart(n1, p1, s1, x, n2, p2, s2, y);
    }
    lemma_sorted_tells(c1, c2);
}

proof fn lemma_regexes_begin(a: Seq<(String, RegexDef)>, names: Seq<Seq<char>>, i: int)
    requires
        0 <= i < names.len(),
        references::declares(a, names[i]),
    ensures
        regexes_text(a, names, i).len() > 1,
{
    let d = references::lookup(a, names[i])->0;
    lemma_regex_begins(names[i], d.pattern@, text::texts(d.scope_suffix@), Seq::empty());
}

proof fn lemma_regexes_apart(
    a: Seq<(String, RegexDef)>,
    an: Seq<Seq<char>>,
    b: Seq<(String, RegexDef)>,
    bn: Seq<Seq<char>>,
    i: int,
)
    requires
        0 <= i <= an.len(),
        i <= bn.len(),
        forall|k: int| 0 <= k < an.len() ==> references::declares(a, #[trigger] an[k]),
        forall|k: int| 0 <= k < bn.len() ==> references::declares(b, #[trigger] bn[k]),
        regexes_text(a, an, i) + "}"@ == regexes_text(b, bn, i) + "}"@,
    ensures
        an.len() == bn.len(),
        forall|k: int| i <= k < an.len() ==> #[trigger] an[k] == bn[k] && same_regex(a, b, an[k]),
    decreases an.len() - i,
{
    reveal_strlit("}");
    reveal_strlit(":");
    reveal_strlit("\"");
    let l = regexes_text(a, an, i) + "}"@;
    let r = regexes_text(b, bn, i) + "}"@;
    if i < an.len() && i < bn.len() {
        let u = an[i];
        let v = bn[i];
        assert(references::declares(a, u) && references::declares(b, v));
        let d = references::lookup(a, u)->0;
        let e = references::lookup(b, v)->0;
        let p = regexes_text(a, an, i + 1) + "}"@;
        let q = regexes_text(b, bn, i + 1) + "}"@;
        let du = regex_text(u, d.pattern@, text::texts(d.scope_suffix@));
        let ev = regex_text(v, e.pattern@, text::texts(e.scope_suffix@));
        assert(l =~= du + p);
        assert(r =~= ev + q);
        lemma_regex_apart(u, d.pattern@, text::texts(d.scope_suffix@), p, v, e.pattern@, text::texts(e.scope_suffix@), q);
        assert(same_regex(a, b, u));
        lemma_regexes_apart(a, an, b, bn, i + 1);
    } else if i < an.len() {
        lemma_regexes_begin(a, an, i);
        assert(r =~= "}"@);
    } else if i < bn.len() {
        lemma_regexes_begin(b, bn, i);
        assert(l =~= "}"@);
    }
}

/// The names of a table in order are those that it declares.
proof fn lemma_sorted_names(table: Seq<(String, RegexDef)>)
    ensures
        ({
            let names = order::sorted(references::names_of(table));
            &&& forall|i: int| 0 <= i < names.len() ==> references::declares(table, #[trigger] names[i])
            &&& forall|name: Seq<char>| #[trigger] references::declares(table, name) ==> names.contains(name)
        }),
{
    let all = references::names_of(table);
    let names = order::sorted(all);
    order::lemma_sorted(all);
    all.to_multiset_ensures();
    names.to_multiset_ensures();
    assert forall|i: int| 0 <= i < names.len() implies references::declares(table, #[trigger] names[i]) by {
        assert(names.contains(names[i]));
        assert(names.to_multiset().count(names[i]) > 0);
        assert(all.contains(names[i]));
        let k = choose|k: int| 0 <= k < all.len() && all[k] == names[i];
        assert(table[k].0@ == names[i]);
        references::lemma_index_of(table, names[i], 0);
    }
    assert forall|name: Seq<char>| #[trigger] references::declares(table, name) implies names.contains(name) by {
        references::lemma_index_of(table, name, 0);
        let k = references::index_of(table, name, 0);
        assert(all[k] == name);
        assert(all.contains(name));
        assert(all.to_multiset().count(name) > 0);
    }
}

/// The default route is told apart from what may follow a semicolon behind it.
proof fn lemma_default_apart(a: Option<usize>, x: Seq<char>, b: Option<usize>, y: Seq<char>)
    requires
        x.len() > 0 ==> x[0] == ';',
        y.len() > 0 ==> y[0] == ';',
        default_text(a) + x == default_text(b) + y,
    ensures
        a == b,
        x == y,
{
    reveal_strlit("none");
    let (s, u) = (default_text(a), default_text(b));
    let p = s + x;
    let q = u + y;
    if let Some(m) = a {
        text::lemma_dec_digits(m as nat);
    }
    if let Some(n) = b {
        text::lemma_dec_digits(n as nat);
    }
    assert(!s.contains(';') && !u.contains(';'));
    if s.len() < u.len() {
        assert(q[s.len() as int] == u[s.len() as int]);
        assert(p[s.len() as int] == x[0]);
    }
    if u.len() < s.len() {
        assert(p[u.len() as int] == s[u.len() as int]);
        assert(q[u.len() as int] == y[0]);
    }
    assert(s =~= p.take(s.len() as int));
    assert(u =~= q.take(s.len() as int));
    lemma_same_head(s, x, y);
    match (a, b) {
        (Some(m), Some(n)) => {
            lemma_dec_apart(m as nat, n as nat);
        },
        (None, None) => {},
        _ => {
            assert(s[0] == u[0]);
        },
    }
}

proof fn lemma_regex_part_apart(a: Seq<(String, RegexDef)>, b: Seq<(String, RegexDef)>)
    requires
        regex_part(a) == regex_part(b),
    ensures
        same_regexes(a, b),
{
    reveal_strlit(";regexes={");
    let an = order::sorted(references::names_of(a));
    let bn = order::sorted(references::names_of(b));
    lemma_sorted_names(a);
    lemma_sorted_names(b);
    order::lemma_sorted(references::names_of(a));
    order::lemma_sorted(references::names_of(b));
    vstd::seq_lib::to_multiset_len(references::names_of(a));
    vstd::seq_lib::to_multiset_len(references::names_of(b));
    vstd::seq_lib::to_multiset_len(an);
    vstd::seq_lib::to_multiset_len(bn);
    if a.len() > 0 && b.len() > 0 {
        let x = regexes_text(a, an, 0) + "}"@;
        let y = regexes_text(b, bn, 0) + "}"@;
        assert(regex_part(a) =~= ";regexes={"@ + x);
        assert(regex_part(b) =~= ";regexes={"@ + y);
        lemma_same_head(";regexes={"@, x, y);
        lemma_regexes_apart(a, an, b, bn, 0);
    } else {
        assert(";regexes={"@.len() == 10);
        assert(a.len() > 0 ==> regex_part(a).len() >= 10);
        assert(b.len() > 0 ==> regex_part(b).len() >= 10);
        assert(a.len() == 0 ==> regex_part(a).len() == 0);
        assert(b.len() == 0 ==> regex_part(b).len() == 0);
        assert(regex_part(a).len() == regex_part(b).len());
        assert(a.len() == 0 && b.len() == 0);
    }
    assert(an =~= bn);
    lemma_sorted_tells(references::names_of(a), references::names_of(b));
    assert forall|name: Seq<char>| same_regex(a, b, name) by {
        if references::declares(a, name) || references::declares(b, name) {
            assert(an.contains(name));
            let k = choose|k: int| 0 <= k < an.len() && an[k] == name;
            assert(same_regex(a, b, an[k]));
        }
    }
}

/// A routing table's text tells all that the table does: where two texts are
/// alike, the tables have the same patterns on every route, the same default route
/// and the same regexes.
pub proof fn law_identity_has_the_routing_table(
    p1: Seq<Vec<String>>,
    d1: Option<usize>,
    t1: Seq<(String, RegexDef)>,
    p2: Seq<Vec<String>>,
    d2: Option<usize>,
    t2: Seq<(String, RegexDef)>,
)
    requires
        router_text(p1, d1, t1) == router_text(p2, d2, t2),
    ensures
        p1.len() == p2.len(),
        forall|i: int|
            0 <= i < p1.len() ==> text::texts(#[trigger] p1[i]@).to_multiset() == text::texts(p2[i]@).to_multiset(),
        d1 == d2,
        same_regexes(t1, t2),
{
    reveal_strlit("default=");
    reveal_strlit(";regexes={");
    let x1 = default_text(d1) + regex_part(t1);
    let y1 = default_text(d2) + regex_part(t2);
    assert(router_text(p1, d1, t1) =~= routes_text(p1, 0) + ("default="@ + x1));
    assert(router_text(p2, d2, t2) =~= routes_text(p2, 0) + ("default="@ + y1));
    lemma_routes_apart(p1, "default="@ + x1, p2, "default="@ + y1, 0);
    lemma_same_head("default="@, x1, y1);
    lemma_default_apart(d1, regex_part(t1), d2, regex_part(t2));
    lemma_regex_part_apart(t1, t2);
}

/// The hash starts from the offset basis 0xcbf29ce484222325 and takes in each byte by
/// exclusive or, and then a multiplication by 0x100000001b3.
pub proof fn law_hash_takes_in_each_byte(b: Seq<u8>, x: u8)
    ensures
        fnv1a_of(Seq::empty()) == 14695981039346656037,
        fnv1a_of(b.push(x)) == (fnv1a_of(b) ^ (x as u64)).wrapping_mul(1099511628211),
{
    assert(b.push(x).drop_last() =~= b);
}

/// A name in letters, digits, hyphens, dots and single underscores stays as it is, if no
/// dot is at either end.
pub proof fn law_plain_names_stay(s: Seq<char>)
    requires
        s.len() > 0,
        s[0] != '.',
        s.last() != '.',
        forall|i: int|
            #![trigger s[i]]
            0 <= i < s.len() ==> ('a' <= s[i] && s[i] <= 'z') || ('A' <= s[i] && s[i] <= 'Z') || ('0' <= s[i] && s[i] <= '9')
                || s[i] == '-' || s[i] == '.' || s[i] == '_',
        forall|i: int| 0 < i < s.len() ==> !(#[trigger] s[i] == '_' && s[i - 1] == '_'),
    ensures
        sanitized(s) == s,
{
    assert forall|i: int| 0 <= i < s.len() implies is_plain(#[trigger] s[i]) || s[i] == '_' by {}
    lemma_collapsed_stays(s);
}

/// A character that cannot stand in a file name becomes an underscore, and so does a run
/// of them.
pub proof fn law_other_characters_become_one_mark(s: Seq<char>, c: char)
    ensures
        !is_plain(c) ==> collapsed(s.push(c)) == (if collapsed(s).len() > 0 && collapsed(s).last() == '_' {
            collapsed(s)
        } else {
            collapsed(s).push('_')
        }),
        !is_plain(c) ==> collapsed(s.push(c).push(c)) == collapsed(s.push(c)),
        !is_plain('/') && !is_plain('\\') && !is_plain(':') && !is_plain('*') && !is_plain(' ') && !is_plain('_'),
{
    assert(s.push(c).drop_last() =~= s);
    assert(s.push(c).push(c).drop_last() =~= s.push(c));
}

/// A scope's key begins with the route's type, host and port, and ends in the hash of its
/// whole identity, in 16 hexadecimal digits.
pub proof fn law_key_is_a_summary_and_a_digest(router_fp: u64, f: ForwardingView, host: Seq<char>)
    requires
        f.host == Some(host),
        host.len() > 0,
        forall|i: int|
            #![trigger host[i]]
            0 <= i < host.len() ==> ('a' <= host[i] && host[i] <= 'z') || ('0' <= host[i] && host[i] <= '9') || host[i]
                == '-' || host[i] == '.',
    ensures
        scope_key(router_fp, f) == type_word(f.route_type) + "_"@ + host + "_"@ + text::dec(f.port as nat) + "-"@
            + text::hex(fnv1a_of(vstd::utf8::encode_utf8(canonical_text(router_fp, f))) as nat, 16),
        type_word(RouteType::Raw) == "raw"@,
        type_word(RouteType::Tls) == "tls"@,
        type_word(RouteType::Ech) == "ech"@,
        type_word(RouteType::Http) == "http"@,
        type_word(RouteType::H3) == "h3"@,
        type_word(RouteType::H3Ech) == "h3-ech"@,
{
    reveal_strlit("_");
    reveal_strlit("raw");
    reveal_strlit("tls");
    reveal_strlit("ech");
    reveal_strlit("http");
    reveal_strlit("h3");
    reveal_strlit("h3-ech");
    let t = type_word(f.route_type);
    let d = text::dec(f.port as nat);
    text::lemma_dec_digits(f.port as nat);
    assert(text::is_digit(d[0]) && text::is_digit(d.last()));
    let s = t + "_"@ + host + "_"@ + d;
    assert(t.len() > 0 && t[0] != '.');
    assert forall|i: int| 0 <= i < t.len() implies is_plain(#[trigger] t[i]) by {}
    assert forall|i: int| 0 <= i < d.len() implies is_plain(#[trigger] d[i]) by {
        assert(text::is_digit(d[i]));
    }
    assert(s[0] == t[0] && s.last() == d.last());
    let m1 = t.len() as int;
    let m2 = m1 + 1 + host.len();
    assert forall|i: int| 0 <= i < s.len() && i != m1 && i != m2 implies is_plain(#[trigger] s[i]) by {
        if i < m1 {
            assert(s[i] == t[i]);
        } else if i < m2 {
            assert(s[i] == host[i - m1 - 1]);
        } else {
            assert(s[i] == d[i - m2 - 1]);
        }
    }
    assert(s[m1] == '_' && s[m2] == '_');
    assert forall|i: int| 0 < i < s.len() implies !(#[trigger] s[i] == '_' && s[i - 1] == '_') by {
        if i == m1 {
            assert(is_plain(s[i - 1]));
        } else if i == m2 {
            assert(is_plain(s[i - 1]));
        } else {
            assert(is_plain(s[i]));
        }
    }
    law_plain_names_stay(s);
}

/// A route with one plain pattern and no regexes is written as its number, the pattern
/// and the default.
pub proof fn law_routing_table_is_written_out(patterns: Seq<Vec<String>>, p: String)
    requires
        patterns.len() == 1,
        patterns[0]@ == seq![p],
        p@.len() > 0,
        !p@.contains(',') && !p@.contains(';'),
        p@[0] != '"',
    ensures
        router_text(patterns, None, Seq::empty()) == "0="@ + p@ + ";default=none"@,
{
    reveal_strlit("0=");
    reveal_strlit("=");
    reveal_strlit(";");
    reveal_strlit("default=");
    reveal_strlit("none");
    reveal_strlit(";default=none");
    let list = text::texts(patterns[0]@);
    assert(list =~= seq![p@]);
    assert(list.drop_last() =~= Seq::<Seq<char>>::empty());
    reveal_with_fuel(order::sorted, 2);
    assert(order::sorted(list) =~= seq![p@]);
    reveal_with_fuel(routes_text, 2);
    assert(text::dec(0) =~= seq!['0']);
    assert(elements(order::sorted(list), 0) == p@);
    assert(routes_text(patterns, 0) =~= "0="@ + p@ + ";"@);
    assert(router_text(patterns, None, Seq::empty()) =~= "0="@ + p@ + ";default=none"@);
}

} // verus!
