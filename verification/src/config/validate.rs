//! What makes a configuration document contradict itself.

use super::build_order;
use super::ladder;
use super::references;
use super::upstream;
use super::{
    Config, ConfigError, EchConfig, EchMode, Listener, RegexDef, ResolverDef, Route, RouteType, Template,
};
use crate::dns_resolvers;
use crate::dns_resolvers::Endpoint;
use crate::net;
use crate::text;
use vstd::prelude::*;
use vstd::slice::slice_subrange;

verus! {

/// The message of a refusal, or nothing.
pub open spec fn problem_in(r: Result<(), ConfigError>) -> Option<Seq<char>> {
    match r {
        Ok(_) => None,
        Err(e) => Some(e.text()),
    }
}

// ---------------------------------------------------------------------------
// Routes
// ---------------------------------------------------------------------------

/// The pinned certificate and key of a route, as one unit from the first scope
/// that sets either.
pub open spec fn cert_key_of(r: Route, tpl: Option<Template>) -> (Option<Seq<char>>, Option<Seq<char>>) {
    if r.cert_file is Some || r.key_file is Some {
        (text::opt_text(r.cert_file), text::opt_text(r.key_file))
    } else {
        match tpl {
            Some(t) => (text::opt_text(t.cert_file), text::opt_text(t.key_file)),
            None => (None, None),
        }
    }
}

/// A complaint about a route.
pub open spec fn about_route(r: Route, what: Seq<char>) -> Seq<char> {
    "route "@ + references::label_of(r) + what
}

/// What is wrong with a route, on a listener of a given port.
pub open spec fn route_problem(r: Route, is_default: bool, port: u16, tpl: Option<Template>) -> Option<Seq<char>> {
    let spec = ladder::upstream_spec_of(r, tpl);
    if spec is Some && text::trim(spec->0).len() == 0 {
        Some(
            about_route(
                r,
                ": upstream, when set, must not be empty (omit it to reflect the source SNI/Host to this listener's port)"@,
            ),
        )
    } else if upstream::resolved_upstream(spec, port) is None {
        Some(about_route(r, ": invalid upstream "@) + text::quoted(ladder::or_default(spec, ""@)))
    } else if !is_default && r.match_sni@.len() == 0 {
        Some(about_route(r, ": match_sni needs at least one pattern (or use default_route)"@))
    } else if ladder::type_of(r, tpl) is None {
        Some(about_route(r, ": missing type (set `type` or a template that provides it)"@))
    } else if cert_key_of(r, tpl).0 is Some != (cert_key_of(r, tpl).1 is Some) {
        Some(about_route(r, ": cert_file and key_file must be set together"@))
    } else {
        None
    }
}

fn route_message(r: &Route, what: &str) -> (m: String)
    ensures
        m@ == about_route(*r, what@),
{
    text::concat3("route ", r.label().as_str(), what)
}

impl Route {
    /// The pinned certificate and key of the route, as one unit from the first
    /// scope that sets either.
    pub fn cert_key<'a>(&'a self, tpl: Option<&'a Template>) -> (r: (Option<&'a str>, Option<&'a str>))
        ensures
            (text::opt_str(r.0), text::opt_str(r.1)) == cert_key_of(*self, ladder::deref_template(tpl)),
    {
        if self.cert_file.is_some() || self.key_file.is_some() {
            return (text::as_slice(&self.cert_file), text::as_slice(&self.key_file));
        }
        match tpl {
            Some(t) => (text::as_slice(&t.cert_file), text::as_slice(&t.key_file)),
            None => (None, None),
        }
    }

    /// Whether the route makes sense on a listener of a given port.
    pub fn validate(&self, is_default: bool, listener_port: u16, tpl: Option<&Template>) -> (r: Result<(), ConfigError>)
        ensures
            problem_in(r) == route_problem(*self, is_default, listener_port, ladder::deref_template(tpl)),
    {
        let spec = self.upstream_spec(tpl);
        match spec {
            Some(s) => {
                if text::trimmed_chars(s).len() == 0 {
                    return Err(
                        ConfigError::Invalid(
                            route_message(
                                self,
                                ": upstream, when set, must not be empty (omit it to reflect the source SNI/Host to this listener's port)",
                            ),
                        ),
                    );
                }
            },
            None => {},
        }
        if upstream::resolved_upstream_from(spec, listener_port).is_none() {
            let mut m = route_message(self, ": invalid upstream ");
            let shown = match spec {
                Some(s) => s,
                None => "",
            };
            text::push_text(&mut m, text::quote(shown).as_str());
            return Err(ConfigError::Invalid(m));
        }
        if !is_default && self.match_sni.len() == 0 {
            return Err(
                ConfigError::Invalid(
                    route_message(self, ": match_sni needs at least one pattern (or use default_route)"),
                ),
            );
        }
        if Config::effective_route_type(self, tpl).is_none() {
            return Err(
                ConfigError::Invalid(
                    route_message(self, ": missing type (set `type` or a template that provides it)"),
                ),
            );
        }
        let (cert, key) = self.cert_key(tpl);
        if cert.is_some() != key.is_some() {
            return Err(
                ConfigError::Invalid(route_message(self, ": cert_file and key_file must be set together")),
            );
        }
        Ok(())
    }
}

/// How a mode of sourcing ECH is written in messages about routes.
pub open spec fn mode_word(m: EchMode) -> Seq<char> {
    match m {
        EchMode::Doh => "Doh"@,
        EchMode::Static => "Static"@,
        EchMode::DohWithFallback => "DohWithFallback"@,
    }
}

/// Whether a mode of sourcing ECH needs an inline config.
pub open spec fn needs_config(m: EchMode) -> bool {
    m == EchMode::Static || m == EchMode::DohWithFallback
}

/// What is wrong with the ECH settings of a route.
pub open spec fn ech_problem(p: ladder::Place) -> Option<Seq<char>> {
    let mode = ladder::or_default(p.ech(|e: EchConfig| e.mode), EchMode::Doh);
    if p.route_type() == Some(RouteType::Ech) && needs_config(mode) && p.ech(|e: EchConfig| e.config) is None {
        Some(
            about_route(p.route, ": ech mode "@) + mode_word(mode)
                + " requires an inline `config` (set it on the route, its template, or a [listener.ech]/[global.ech] default)"@,
        )
    } else {
        None
    }
}

/// Whether an HTTP/2 block turns HTTP/2 on.
pub open spec fn turns_on_http2(h: Option<super::Http2Config>) -> bool {
    h matches Some(h) && h.enabled == Some(true)
}

/// What is wrong with the HTTP/2 settings of a route. A broad default that a raw
/// route ignores is no mistake; one on the route itself or its template is.
pub open spec fn http2_problem(r: Route, tpl: Option<Template>) -> Option<Seq<char>> {
    if ladder::type_of(r, tpl) == Some(RouteType::Raw) && (turns_on_http2(r.http2) || turns_on_http2(
        ladder::template_http2(tpl),
    )) {
        Some(
            about_route(
                r,
                ": http2 cannot be enabled on a `raw` route (raw never terminates TLS, so there is no ALPN to negotiate)"@,
            ),
        )
    } else {
        None
    }
}

fn enables_http2(h: &Option<super::Http2Config>) -> (r: bool)
    ensures
        r == turns_on_http2(*h),
{
    match h {
        Some(h) => match h.enabled {
            Some(b) => b,
            None => false,
        },
        None => false,
    }
}

/// What is wrong with a route where it stands.
pub open spec fn placed_route_problem(c: Config, l: Listener, r: Route, is_default: bool, lt: Option<Template>) -> Option<
    Seq<char>,
> {
    match references::template_of(c.templates@, text::opt_text(r.use_template)) {
        Err(m) => Some(m),
        Ok(rt) => ladder::or(
            route_problem(r, is_default, l.addr.port, rt),
            ladder::or(
                ech_problem(
                    (ladder::Place { global: c.global, listener: l, route: r, route_template: rt, listener_template: lt }),
                ),
                http2_problem(r, rt),
            ),
        ),
    }
}

/// What is wrong with the first `n` routes of a listener.
pub open spec fn routes_problem(c: Config, l: Listener, lt: Option<Template>, n: int) -> Option<Seq<char>>
    decreases n,
{
    if n <= 0 {
        None
    } else {
        ladder::or(routes_problem(c, l, lt, n - 1), placed_route_problem(c, l, l.routes@[n - 1], false, lt))
    }
}

/// Whether a later listener has the address of the one at `i`.
pub open spec fn address_recurs(ls: Seq<Listener>, i: int) -> bool {
    exists|j: int| i < j < ls.len() && (#[trigger] ls[j]).addr == ls[i].addr
}

/// What is wrong with the listener at `i`.
pub open spec fn listener_problem(c: Config, i: int) -> Option<Seq<char>> {
    let l = c.listeners@[i];
    if address_recurs(c.listeners@, i) {
        Some("duplicate listener address "@ + net::socket_text(l.addr))
    } else {
        match references::template_of(c.templates@, text::opt_text(l.use_template)) {
            Err(m) => Some(m),
            Ok(lt) => ladder::or(
                routes_problem(c, l, lt, l.routes@.len() as int),
                match l.default_route {
                    Some(d) => placed_route_problem(c, l, d, true, lt),
                    None => None,
                },
            ),
        }
    }
}

/// What is wrong with the first `n` listeners.
pub open spec fn listeners_problem(c: Config, n: int) -> Option<Seq<char>>
    decreases n,
{
    if n <= 0 {
        None
    } else {
        ladder::or(listeners_problem(c, n - 1), listener_problem(c, n - 1))
    }
}

impl Config {
    fn validate_ech(&self, listener: &Listener, route: &Route, rt_tpl: Option<&Template>, ln_tpl: Option<&Template>) -> (r:
        Result<(), ConfigError>)
        ensures
            problem_in(r) == ech_problem(self.place(listener, route, rt_tpl, ln_tpl)),
    {
        match Config::effective_route_type(route, rt_tpl) {
            Some(RouteType::Ech) => {},
            _ => return Ok(()),
        }
        let eff = self.effective_ech(listener, route, rt_tpl, ln_tpl);
        if eff.config.is_some() {
            return Ok(());
        }
        let mode = match eff.mode {
            EchMode::Doh => return Ok(()),
            EchMode::Static => "Static",
            EchMode::DohWithFallback => "DohWithFallback",
        };
        Err(
            ConfigError::Invalid(
                text::concat3(
                    route_message(route, ": ech mode ").as_str(),
                    mode,
                    " requires an inline `config` (set it on the route, its template, or a [listener.ech]/[global.ech] default)",
                ),
            ),
        )
    }

    fn validate_http2(&self, route: &Route, rt_tpl: Option<&Template>) -> (r: Result<(), ConfigError>)
        ensures
            problem_in(r) == http2_problem(*route, ladder::deref_template(rt_tpl)),
    {
        match Config::effective_route_type(route, rt_tpl) {
            Some(RouteType::Raw) => {},
            _ => return Ok(()),
        }
        let on_template = match rt_tpl {
            Some(t) => enables_http2(&t.http2),
            None => false,
        };
        if enables_http2(&route.http2) || on_template {
            return Err(
                ConfigError::Invalid(
                    route_message(
                        route,
                        ": http2 cannot be enabled on a `raw` route (raw never terminates TLS, so there is no ALPN to negotiate)",
                    ),
                ),
            );
        }
        Ok(())
    }

    fn validate_route(&self, l: &Listener, r: &Route, is_default: bool, ln_tpl: Option<&Template>) -> (out: Result<
        (),
        ConfigError,
    >)
        ensures
            problem_in(out) == placed_route_problem(*self, *l, *r, is_default, ladder::deref_template(ln_tpl)),
    {
        let rt_tpl = match self.template_for(&r.use_template) {
            Ok(t) => t,
            Err(e) => return Err(e),
        };
        match r.validate(is_default, l.addr.port, rt_tpl) {
            Ok(_) => {},
            Err(e) => return Err(e),
        }
        match self.validate_ech(l, r, rt_tpl, ln_tpl) {
            Ok(_) => {},
            Err(e) => return Err(e),
        }
        self.validate_http2(r, rt_tpl)
    }

    fn validate_listener(&self, i: usize) -> (r: Result<(), ConfigError>)
        requires
            i < self.listeners.len(),
        ensures
            problem_in(r) == listener_problem(*self, i as int),
    {
        let l = &self.listeners[i];
        let mut j: usize = i + 1;
        while j < self.listeners.len()
            invariant
                i < j <= self.listeners@.len(),
                *l == self.listeners@[i as int],
                forall|k: int| i < k < j ==> (#[trigger] self.listeners@[k]).addr != l.addr,
            decreases self.listeners@.len() - j,
        {
            if self.listeners[j].addr == l.addr {
                let mut m = "duplicate listener address ".to_owned();
                net::push_socket(&mut m, l.addr);
                return Err(ConfigError::Invalid(m));
            }
            j = j + 1;
        }
        let ln_tpl = match self.template_for(&l.use_template) {
            Ok(t) => t,
            Err(e) => return Err(e),
        };
        let ghost lt = ladder::deref_template(ln_tpl);
        let mut k: usize = 0;
        while k < l.routes.len()
            invariant
                k <= l.routes@.len(),
                lt == ladder::deref_template(ln_tpl),
                routes_problem(*self, *l, lt, k as int) is None,
                !address_recurs(self.listeners@, i as int),
                *l == self.listeners@[i as int],
                references::template_of(self.templates@, text::opt_text(l.use_template)) == Ok::<_, Seq<char>>(lt),
            decreases l.routes@.len() - k,
        {
            match self.validate_route(l, &l.routes[k], false, ln_tpl) {
                Ok(_) => {},
                Err(e) => {
                    proof {
                        lemma_first_route(*self, *l, lt, k + 1, l.routes@.len() as int);
                    }
                    return Err(e);
                },
            }
            k = k + 1;
        }
        match &l.default_route {
            Some(d) => self.validate_route(l, d, true, ln_tpl),
            None => Ok(()),
        }
    }
}

proof fn lemma_first_route(c: Config, l: Listener, lt: Option<Template>, i: int, n: int)
    requires
        i <= n,
        routes_problem(c, l, lt, i) is Some,
    ensures
        routes_problem(c, l, lt, n) == routes_problem(c, l, lt, i),
    decreases n - i,
{
    if i < n {
        lemma_first_route(c, l, lt, i, n - 1);
    }
}

proof fn lemma_first_listener(c: Config, i: int, n: int)
    requires
        i <= n,
        listeners_problem(c, i) is Some,
    ensures
        listeners_problem(c, n) == listeners_problem(c, i),
    decreases n - i,
{
    if i < n {
        lemma_first_listener(c, i, n - 1);
    }
}

// ---------------------------------------------------------------------------
// Resolvers
// ---------------------------------------------------------------------------

/// Whether a spec refers to the resolver that carries it.
pub open spec fn names_itself(spec: Option<String>, name: Seq<char>) -> bool {
    spec matches Some(s) && references::is_ref(s@) && s@.len() > 0 && s@[0] == '@' && s@.drop_first() == name
}

/// How a mode of sourcing ECH is written in a document.
pub open spec fn mode_name(m: EchMode) -> Seq<char> {
    match m {
        EchMode::Doh => "doh"@,
        EchMode::Static => "static"@,
        EchMode::DohWithFallback => "doh-with-fallback"@,
    }
}

/// What is wrong with the ECH block of a resolver.
pub open spec fn resolver_ech_problem(name: Seq<char>, e: EchConfig, global: Option<EchConfig>) -> Option<Seq<char>> {
    let mode = ladder::or_default(ladder::or(e.mode, ladder::from_ech(global, |g: EchConfig| g.mode)), EchMode::Doh);
    if needs_config(mode) && ladder::or(e.config, ladder::from_ech(global, |g: EchConfig| g.config)) is None {
        Some(
            "[resolvers."@ + name + ".ech]: mode = \""@ + mode_name(mode)
                + "\" requires a base64 `config`, resolvable from [resolvers."@ + name + ".ech] or [global.ech]"@,
        )
    } else if names_itself(e.ech_resolver, name) {
        Some(
            "[resolvers."@ + name + ".ech]: ech_resolver = "@ + text::quoted(e.ech_resolver->0@)
                + " would have this resolver fetch its own ECHConfig through itself; name a different resolver, or omit it to use OS resolution"@,
        )
    } else {
        None
    }
}

/// What is wrong with how the endpoint of a resolver is written.
#[verifier::opaque]
pub open spec fn endpoint_problem(def: ResolverDef) -> Option<Seq<char>> {
    match dns_resolvers::endpoint_of(text::trim(def.endpoint@)) {
        Ok(_) => None,
        Err(m) => Some(m),
    }
}

/// What is wrong with one resolver.
pub open spec fn resolver_problem(name: Seq<char>, def: ResolverDef, global: Option<EchConfig>) -> Option<Seq<char>> {
    if text::trim(def.endpoint@).len() == 0 {
        Some(
            "[resolvers."@ + name + "]: `endpoint` must not be empty (use \"system\" for the OS resolver)"@,
        )
    } else if references::is_ref(def.endpoint@) {
        Some(
            "[resolvers."@ + name
                + "]: `endpoint` must be an inline spec, not a reference to another resolver (got "@ + text::quoted(
                def.endpoint@,
            ) + "); use `bootstrap` to say who resolves this endpoint's own address"@,
        )
    } else if endpoint_problem(def) is Some {
        Some("[resolvers."@ + name + "] endpoint: "@ + endpoint_problem(def)->0)
    } else {
        ladder::or(
            match def.ech {
                Some(e) => resolver_ech_problem(name, e, global),
                None => None,
            },
            if names_itself(def.bootstrap, name) {
                Some(
                    "[resolvers."@ + name + "]: bootstrap = "@ + text::quoted(def.bootstrap->0@)
                        + " would have this resolver resolve its own address through itself; name a different resolver, or omit it to use OS resolution"@,
                )
            } else {
                None
            },
        )
    }
}

/// What is wrong with the first `n` resolvers.
pub open spec fn table_problem(rs: Seq<(String, ResolverDef)>, global: Option<EchConfig>, n: int) -> Option<Seq<char>>
    decreases n,
{
    if n <= 0 {
        None
    } else {
        ladder::or(table_problem(rs, global, n - 1), resolver_problem(rs[n - 1].0@, rs[n - 1].1, global))
    }
}

/// What is wrong with the first `n` resolver specs of a document.
pub open spec fn refs_problem(rs: Seq<(String, ResolverDef)>, refs: Seq<(Seq<char>, Seq<char>)>, n: int) -> Option<
    Seq<char>,
>
    decreases n,
{
    if n <= 0 {
        None
    } else {
        ladder::or(
            refs_problem(rs, refs, n - 1),
            if references::is_ref(refs[n - 1].1) {
                match references::resolver_ref_problem(rs, refs[n - 1].1) {
                    Some(m) => Some(refs[n - 1].0 + ": "@ + m),
                    None => None,
                }
            } else {
                None
            },
        )
    }
}

/// What is wrong with the resolvers of a document.
pub open spec fn resolvers_problem(c: Config) -> Option<Seq<char>> {
    ladder::or(
        refs_problem(c.resolvers@, references::all_refs(c), references::all_refs(c).len() as int),
        ladder::or(
            table_problem(c.resolvers@, c.global.ech, c.resolvers@.len() as int),
            match build_order::build_order(build_order::graph_of(c.resolvers@)) {
                Ok(_) => None,
                Err(m) => Some(m),
            },
        ),
    )
}

fn is_itself(spec: &Option<String>, name: &str) -> (r: bool)
    ensures
        r == names_itself(*spec, name@),
{
    match spec {
        Some(s) => {
            if !Config::is_resolver_ref(s.as_str()) {
                return false;
            }
            let cs = text::chars_of(s.as_str());
            if cs.len() == 0 || cs[0] != '@' {
                return false;
            }
            let bare = slice_subrange(cs.as_slice(), 1, cs.len());
            assert(bare@ =~= s@.drop_first());
            let want = text::chars_of(name);
            text::same_chars(bare, want.as_slice())
        },
        None => false,
    }
}

impl Config {
    fn validate_resolver_ech(&self, name: &str, def: &ResolverDef) -> (r: Result<(), ConfigError>)
        ensures
            problem_in(r) == (match def.ech {
                Some(e) => resolver_ech_problem(name@, e, self.global.ech),
                None => None,
            }),
    {
        let eff = def.effective(name, &self.global);
        match &eff.ech {
            None => return Ok(()),
            Some(ech) => {
                let mode = match ech.mode {
                    EchMode::Doh => None,
                    EchMode::Static => Some("static"),
                    EchMode::DohWithFallback => Some("doh-with-fallback"),
                };
                match mode {
                    Some(mode) => {
                        if ech.config.is_none() {
                            return Err(
                                ConfigError::Invalid(
                                    text::concat7(
                                        "[resolvers.",
                                        name,
                                        ".ech]: mode = \"",
                                        mode,
                                        "\" requires a base64 `config`, resolvable from [resolvers.",
                                        name,
                                        ".ech] or [global.ech]",
                                    ),
                                ),
                            );
                        }
                    },
                    None => {},
                }
            },
        }
        if is_itself(&eff.ech_resolver, name) {
            let spec = match &eff.ech_resolver {
                Some(s) => s.as_str(),
                None => "",
            };
            return Err(
                ConfigError::Invalid(
                    text::concat5(
                        "[resolvers.",
                        name,
                        ".ech]: ech_resolver = ",
                        text::quote(spec).as_str(),
                        " would have this resolver fetch its own ECHConfig through itself; name a different resolver, or omit it to use OS resolution",
                    ),
                ),
            );
        }
        Ok(())
    }

    fn validate_resolver(&self, name: &str, def: &ResolverDef) -> (r: Result<(), ConfigError>)
        ensures
            problem_in(r) == resolver_problem(name@, *def, self.global.ech),
    {
        if text::trimmed_chars(def.endpoint.as_str()).len() == 0 {
            return Err(
                ConfigError::Invalid(
                    text::concat3(
                        "[resolvers.",
                        name,
                        "]: `endpoint` must not be empty (use \"system\" for the OS resolver)",
                    ),
                ),
            );
        }
        if Config::is_resolver_ref(def.endpoint.as_str()) {
            return Err(
                ConfigError::Invalid(
                    text::concat5(
                        "[resolvers.",
                        name,
                        "]: `endpoint` must be an inline spec, not a reference to another resolver (got ",
                        text::quote(def.endpoint.as_str()).as_str(),
                        "); use `bootstrap` to say who resolves this endpoint's own address",
                    ),
                ),
            );
        }
        proof {
            reveal(endpoint_problem);
        }
        match Endpoint::parse(def.endpoint.as_str()) {
            Ok(_) => {},
            Err(e) => {
                let mut m = text::concat3("[resolvers.", name, "] endpoint: ");
                text::push_text(&mut m, e.as_str());
                return Err(ConfigError::Invalid(m));
            },
        }
        match self.validate_resolver_ech(name, def) {
            Ok(_) => {},
            Err(e) => return Err(e),
        }
        if is_itself(&def.bootstrap, name) {
            let spec = match &def.bootstrap {
                Some(s) => s.as_str(),
                None => "",
            };
            return Err(
                ConfigError::Invalid(
                    text::concat5(
                        "[resolvers.",
                        name,
                        "]: bootstrap = ",
                        text::quote(spec).as_str(),
                        " would have this resolver resolve its own address through itself; name a different resolver, or omit it to use OS resolution",
                    ),
                ),
            );
        }
        Ok(())
    }

    fn validate_resolver_refs(&self) -> (r: Result<(), ConfigError>)
        ensures
            problem_in(r) == refs_problem(
                self.resolvers@,
                references::all_refs(*self),
                references::all_refs(*self).len() as int,
            ),
    {
        let refs = self.resolver_refs();
        let ghost all = references::all_refs(*self);
        let mut i: usize = 0;
        while i < refs.len()
            invariant
                i <= refs@.len(),
                references::ref_texts(refs@) == all,
                all == references::all_refs(*self),
                refs@.len() == all.len(),
                refs_problem(self.resolvers@, all, i as int) is None,
            decreases refs@.len() - i,
        {
            assert(all[i as int] == (refs@[i as int].0@, refs@[i as int].1@));
            if Config::is_resolver_ref(refs[i].1.as_str()) {
                match self.resolve_resolver_ref(refs[i].1.as_str()) {
                    Ok(_) => {},
                    Err(e) => {
                        let m = text::concat3(refs[i].0.as_str(), ": ", e.message().as_str());
                        proof {
                            lemma_first_ref(self.resolvers@, all, i + 1, all.len() as int);
                        }
                        return Err(ConfigError::Invalid(m));
                    },
                }
            }
            i = i + 1;
        }
        assert(refs@.len() == all.len());
        Ok(())
    }

    fn validate_resolver_table(&self) -> (r: Result<(), ConfigError>)
        ensures
            problem_in(r) == table_problem(self.resolvers@, self.global.ech, self.resolvers@.len() as int),
    {
        let mut i: usize = 0;
        while i < self.resolvers.len()
            invariant
                i <= self.resolvers@.len(),
                table_problem(self.resolvers@, self.global.ech, i as int) is None,
            decreases self.resolvers@.len() - i,
        {
            match self.validate_resolver(self.resolvers[i].0.as_str(), &self.resolvers[i].1) {
                Ok(_) => {},
                Err(e) => {
                    proof {
                        lemma_first_resolver(self.resolvers@, self.global.ech, i + 1, self.resolvers@.len() as int);
                    }
                    return Err(e);
                },
            }
            i = i + 1;
        }
        Ok(())
    }

    /// Whether the resolvers make sense: every reference leads somewhere, every
    /// endpoint is an inline spec that can be read, ECH is complete, and there is no
    /// cycle. A cycle is refused here, as building a resolver is what finding its
    /// address takes.
    pub fn validate_resolvers(&self) -> (r: Result<(), ConfigError>)
        ensures
            problem_in(r) == resolvers_problem(*self),
    {
        match self.validate_resolver_refs() {
            Ok(_) => {},
            Err(e) => return Err(e),
        }
        match self.validate_resolver_table() {
            Ok(_) => {},
            Err(e) => return Err(e),
        }
        match self.resolver_build_order() {
            Ok(_) => Ok(()),
            Err(e) => Err(e),
        }
    }
}

proof fn lemma_first_ref(rs: Seq<(String, ResolverDef)>, refs: Seq<(Seq<char>, Seq<char>)>, i: int, n: int)
    requires
        i <= n,
        refs_problem(rs, refs, i) is Some,
    ensures
        refs_problem(rs, refs, n) == refs_problem(rs, refs, i),
    decreases n - i,
{
    if i < n {
        lemma_first_ref(rs, refs, i, n - 1);
    }
}

proof fn lemma_first_resolver(rs: Seq<(String, ResolverDef)>, global: Option<EchConfig>, i: int, n: int)
    requires
        i <= n,
        table_problem(rs, global, i) is Some,
    ensures
        table_problem(rs, global, n) == table_problem(rs, global, i),
    decreases n - i,
{
    if i < n {
        lemma_first_resolver(rs, global, i, n - 1);
    }
}

// ---------------------------------------------------------------------------
// Regexes
// ---------------------------------------------------------------------------

/// Why the `regex` crate refuses to compile a pattern, in its own words.
pub uninterp spec fn regex_refusal(pattern: Seq<char>) -> Option<Seq<char>>;

/// Compiles a pattern with `regex::Regex::new` and keeps only the error's text.
/// Which patterns compile, and what the error says, is the crate's to know: the
/// result is a function of the pattern.
#[verifier::external_body]
pub(crate) fn compile_refusal(pattern: &str) -> (r: Option<String>)
    ensures
        text::opt_text(r) == regex_refusal(pattern@),
{
    match regex::Regex::new(pattern) {
        Ok(_) => None,
        Err(e) => Some(e.to_string()),
    }
}

/// Whether a character may stand in a domain label.
pub open spec fn label_char(c: char) -> bool {
    ('0' <= c && c <= '9') || ('a' <= c && c <= 'z') || ('A' <= c && c <= 'Z') || c == '-'
}

/// A complaint about the scope of a regex.
pub open spec fn about_scope(name: Seq<char>, scope: Seq<char>, what: Seq<char>) -> Seq<char> {
    "[regexes."@ + name + "]: scope_suffix "@ + text::quoted(scope) + what
}

/// What is wrong with one label of a scope.
pub open spec fn label_problem(name: Seq<char>, scope: Seq<char>, label: Seq<char>) -> Option<Seq<char>> {
    if label.len() == 0 {
        Some(about_scope(name, scope, " contains empty label (consecutive dots or leading/trailing dot)"@))
    } else if label[0] == '-' || label.last() == '-' {
        Some(
            about_scope(name, scope, " contains invalid label "@) + text::quoted(label)
                + " (hyphens cannot be at the start or end)"@,
        )
    } else if exists|i: int| 0 <= i < label.len() && !label_char(#[trigger] label[i]) {
        Some(
            about_scope(name, scope, " contains invalid characters in label "@) + text::quoted(label)
                + " (only alphanumeric and hyphen allowed)"@,
        )
    } else {
        None
    }
}

/// What is wrong with the first `n` labels of a scope.
pub open spec fn labels_problem(name: Seq<char>, scope: Seq<char>, labels: Seq<Seq<char>>, n: int) -> Option<Seq<char>>
    decreases n,
{
    if n <= 0 {
        None
    } else {
        ladder::or(labels_problem(name, scope, labels, n - 1), label_problem(name, scope, labels[n - 1]))
    }
}

/// The domain of a scope: what stands behind `*.` or a leading dot.
pub open spec fn scope_domain(scope: Seq<char>) -> Seq<char> {
    if scope.len() >= 2 && scope[0] == '*' && scope[1] == '.' {
        scope.subrange(2, scope.len() as int)
    } else if scope.len() >= 1 && scope[0] == '.' {
        scope.subrange(1, scope.len() as int)
    } else {
        scope
    }
}

/// What is wrong with a trimmed scope: it must be `*.domain`, `.domain` or
/// `domain`, of at least two labels in the characters of domain names.
pub open spec fn scope_problem(name: Seq<char>, scope: Seq<char>) -> Option<Seq<char>> {
    let domain = scope_domain(scope);
    if scope.len() == 0 {
        Some("[regexes."@ + name + "]: scope_suffix contains empty entry"@)
    } else if domain.len() == 0 {
        Some(
            "[regexes."@ + name + "]: invalid scope_suffix "@ + text::quoted(scope)
                + " (pattern prefix with no domain)"@,
        )
    } else if !domain.contains('.') {
        Some(
            about_scope(
                name,
                scope,
                " must be a multi-level domain (e.g., \"*.example.com\", \".example.com\", or \"example.com\"); bare TLDs are not allowed"@,
            ),
        )
    } else {
        labels_problem(name, scope, text::split(domain, '.'), text::split(domain, '.').len() as int)
    }
}

fn scope_message(name: &str, scope: &str, what: &str) -> (r: String)
    ensures
        r@ == about_scope(name@, scope@, what@),
{
    text::concat5("[regexes.", name, "]: scope_suffix ", text::quote(scope).as_str(), what)
}

fn has_odd_char(label: &[char]) -> (r: bool)
    ensures
        r == exists|i: int| 0 <= i < label@.len() && !label_char(#[trigger] label@[i]),
{
    let mut i: usize = 0;
    while i < label.len()
        invariant
            i <= label@.len(),
            forall|k: int| 0 <= k < i ==> label_char(#[trigger] label@[k]),
        decreases label@.len() - i,
    {
        let c = label[i];
        let fine = ('0' <= c && c <= '9') || ('a' <= c && c <= 'z') || ('A' <= c && c <= 'Z') || c == '-';
        if !fine {
            assert(!label_char(label@[i as int]));
            return true;
        }
        i = i + 1;
    }
    false
}

fn validate_label(name: &str, scope: &str, label: &[char]) -> (r: Result<(), ConfigError>)
    ensures
        problem_in(r) == label_problem(name@, scope@, label@),
{
    if label.len() == 0 {
        return Err(
            ConfigError::Invalid(
                scope_message(
                    name,
                    scope,
                    " contains empty label (consecutive dots or leading/trailing dot)",
                ),
            ),
        );
    }
    if label[0] == '-' || label[label.len() - 1] == '-' {
        let shown = text::string_of(label);
        return Err(
            ConfigError::Invalid(
                text::concat3(
                    scope_message(name, scope, " contains invalid label ").as_str(),
                    text::quote(shown.as_str()).as_str(),
                    " (hyphens cannot be at the start or end)",
                ),
            ),
        );
    }
    if has_odd_char(label) {
        let shown = text::string_of(label);
        return Err(
            ConfigError::Invalid(
                text::concat3(
                    scope_message(name, scope, " contains invalid characters in label ").as_str(),
                    text::quote(shown.as_str()).as_str(),
                    " (only alphanumeric and hyphen allowed)",
                ),
            ),
        );
    }
    Ok(())
}

/// Whether one entry of a regex's scope is a domain pattern.
pub fn validate_scope_pattern(regex_name: &str, scope: &str) -> (r: Result<(), ConfigError>)
    ensures
        problem_in(r) == scope_problem(regex_name@, text::trim(scope@)),
{
    let t = text::trimmed_chars(scope);
    let shown = text::string_of(t.as_slice());
    if t.len() == 0 {
        return Err(
            ConfigError::Invalid(
                text::concat3("[regexes.", regex_name, "]: scope_suffix contains empty entry"),
            ),
        );
    }
    let domain = if t.len() >= 2 && t[0] == '*' && t[1] == '.' {
        slice_subrange(t.as_slice(), 2, t.len())
    } else if t[0] == '.' {
        slice_subrange(t.as_slice(), 1, t.len())
    } else {
        t.as_slice()
    };
    if domain.len() == 0 {
        return Err(
            ConfigError::Invalid(
                text::concat5(
                    "[regexes.",
                    regex_name,
                    "]: invalid scope_suffix ",
                    text::quote(shown.as_str()).as_str(),
                    " (pattern prefix with no domain)",
                ),
            ),
        );
    }
    if !text::has_char(domain, '.') {
        return Err(
            ConfigError::Invalid(
                scope_message(
                    regex_name,
                    shown.as_str(),
                    " must be a multi-level domain (e.g., \"*.example.com\", \".example.com\", or \"example.com\"); bare TLDs are not allowed",
                ),
            ),
        );
    }
    let labels = text::split_chars(domain, '.');
    let ghost all = text::split(domain@, '.');
    let mut i: usize = 0;
    while i < labels.len()
        invariant
            i <= labels@.len(),
            all == text::char_lists(labels@),
            labels_problem(regex_name@, shown@, all, i as int) is None,
            scope_problem(regex_name@, shown@) == labels_problem(regex_name@, shown@, all, all.len() as int),
            shown@ == text::trim(scope@),
        decreases labels@.len() - i,
    {
        assert(all[i as int] == labels@[i as int]@);
        match validate_label(regex_name, shown.as_str(), labels[i].as_slice()) {
            Ok(_) => {},
            Err(e) => {
                proof {
                    lemma_first_label(regex_name@, shown@, all, i + 1, all.len() as int);
                }
                return Err(e);
            },
        }
        i = i + 1;
    }
    Ok(())
}

proof fn lemma_first_label(name: Seq<char>, scope: Seq<char>, labels: Seq<Seq<char>>, i: int, n: int)
    requires
        i <= n,
        labels_problem(name, scope, labels, i) is Some,
    ensures
        labels_problem(name, scope, labels, n) == labels_problem(name, scope, labels, i),
    decreases n - i,
{
    if i < n {
        lemma_first_label(name, scope, labels, i, n - 1);
    }
}

/// What is wrong with the first `n` entries of a regex's scope.
pub open spec fn scopes_problem(name: Seq<char>, scopes: Seq<String>, n: int) -> Option<Seq<char>>
    decreases n,
{
    if n <= 0 {
        None
    } else {
        ladder::or(scopes_problem(name, scopes, n - 1), scope_problem(name, text::trim(scopes[n - 1]@)))
    }
}

/// What is wrong with one regex, given why its pattern does not compile.
pub open spec fn regex_problem(name: Seq<char>, refusal: Option<Seq<char>>, scopes: Seq<String>) -> Option<Seq<char>> {
    if refusal is Some {
        Some("[regexes."@ + name + "]: invalid pattern: "@ + refusal->0)
    } else if scopes.len() == 0 {
        Some(
            "[regexes."@ + name
                + "]: scope_suffix must not be empty (declare at least one domain suffix this pattern may match, e.g., [\"*.example.com\"])"@,
        )
    } else {
        scopes_problem(name, scopes, scopes.len() as int)
    }
}

/// What is wrong with the first `n` regexes.
pub open spec fn regex_table_problem(t: Seq<(String, RegexDef)>, n: int) -> Option<Seq<char>>
    decreases n,
{
    if n <= 0 {
        None
    } else {
        ladder::or(
            regex_table_problem(t, n - 1),
            regex_problem(t[n - 1].0@, regex_refusal(t[n - 1].1.pattern@), t[n - 1].1.scope_suffix@),
        )
    }
}

/// What is wrong with a pattern of a route: a reference that leads nowhere, or an
/// inline regex.
pub open spec fn pattern_problem(t: Seq<(String, RegexDef)>, r: Route, pattern: Seq<char>) -> Option<Seq<char>> {
    if references::is_ref(pattern) {
        references::regex_ref_problem(t, pattern)
    } else if text::trim(pattern).len() > 0 && text::trim(pattern)[0] == '~' {
        Some(
            about_route(r, ": inline regex "@) + text::quoted(pattern)
                + " is no longer supported; declare it in [regexes.<name>] with a scope_suffix, then reference it as @<name>"@,
        )
    } else {
        None
    }
}

/// What is wrong with the first `n` patterns of a route.
pub open spec fn patterns_problem(t: Seq<(String, RegexDef)>, r: Route, n: int) -> Option<Seq<char>>
    decreases n,
{
    if n <= 0 {
        None
    } else {
        ladder::or(patterns_problem(t, r, n - 1), pattern_problem(t, r, r.match_sni@[n - 1]@))
    }
}

/// What is wrong with the patterns of the first `n` routes.
pub open spec fn route_patterns_problem(t: Seq<(String, RegexDef)>, routes: Seq<Route>, n: int) -> Option<Seq<char>>
    decreases n,
{
    if n <= 0 {
        None
    } else {
        ladder::or(
            route_patterns_problem(t, routes, n - 1),
            patterns_problem(t, routes[n - 1], routes[n - 1].match_sni@.len() as int),
        )
    }
}

/// What is wrong with the patterns of the first `n` listeners.
pub open spec fn listener_patterns_problem(t: Seq<(String, RegexDef)>, ls: Seq<Listener>, n: int) -> Option<Seq<char>>
    decreases n,
{
    if n <= 0 {
        None
    } else {
        ladder::or(
            listener_patterns_problem(t, ls, n - 1),
            route_patterns_problem(
                t,
                references::all_routes(ls[n - 1]),
                references::all_routes(ls[n - 1]).len() as int,
            ),
        )
    }
}

/// What is wrong with the regexes of a document.
pub open spec fn regexes_problem(c: Config) -> Option<Seq<char>> {
    ladder::or(
        regex_table_problem(c.regexes@, c.regexes@.len() as int),
        listener_patterns_problem(c.regexes@, c.listeners@, c.listeners@.len() as int),
    )
}

/// Whether one regex makes sense, given why its pattern does not compile.
pub fn validate_regex(name: &str, refusal: &Option<String>, scopes: &Vec<String>) -> (r: Result<(), ConfigError>)
    ensures
        problem_in(r) == regex_problem(name@, text::opt_text(*refusal), scopes@),
{
    match refusal {
        Some(m) => {
            let out = text::concat5("[regexes.", name, "]: invalid pattern: ", m.as_str(), "");
            proof {
                reveal_strlit("");
                assert(out@ =~= "[regexes."@ + name@ + "]: invalid pattern: "@ + m@);
            }
            return Err(ConfigError::Invalid(out));
        },
        None => {},
    }
    if scopes.len() == 0 {
        return Err(
            ConfigError::Invalid(
                text::concat3(
                    "[regexes.",
                    name,
                    "]: scope_suffix must not be empty (declare at least one domain suffix this pattern may match, e.g., [\"*.example.com\"])",
                ),
            ),
        );
    }
    let mut i: usize = 0;
    while i < scopes.len()
        invariant
            i <= scopes@.len(),
            scopes_problem(name@, scopes@, i as int) is None,
            regex_problem(name@, text::opt_text(*refusal), scopes@) == scopes_problem(
                name@,
                scopes@,
                scopes@.len() as int,
            ),
        decreases scopes@.len() - i,
    {
        match validate_scope_pattern(name, scopes[i].as_str()) {
            Ok(_) => {},
            Err(e) => {
                proof {
                    lemma_first_scope(name@, scopes@, i + 1, scopes@.len() as int);
                }
                return Err(e);
            },
        }
        i = i + 1;
    }
    Ok(())
}

proof fn lemma_first_scope(name: Seq<char>, scopes: Seq<String>, i: int, n: int)
    requires
        i <= n,
        scopes_problem(name, scopes, i) is Some,
    ensures
        scopes_problem(name, scopes, n) == scopes_problem(name, scopes, i),
    decreases n - i,
{
    if i < n {
        lemma_first_scope(name, scopes, i, n - 1);
    }
}

proof fn lemma_first_regex(t: Seq<(String, RegexDef)>, i: int, n: int)
    requires
        i <= n,
        regex_table_problem(t, i) is Some,
    ensures
        regex_table_problem(t, n) == regex_table_problem(t, i),
    decreases n - i,
{
    if i < n {
        lemma_first_regex(t, i, n - 1);
    }
}

proof fn lemma_first_pattern(t: Seq<(String, RegexDef)>, r: Route, i: int, n: int)
    requires
        i <= n,
        patterns_problem(t, r, i) is Some,
    ensures
        patterns_problem(t, r, n) == patterns_problem(t, r, i),
    decreases n - i,
{
    if i < n {
        lemma_first_pattern(t, r, i, n - 1);
    }
}

proof fn lemma_first_route_pattern(t: Seq<(String, RegexDef)>, routes: Seq<Route>, i: int, n: int)
    requires
        i <= n,
        route_patterns_problem(t, routes, i) is Some,
    ensures
        route_patterns_problem(t, routes, n) == route_patterns_problem(t, routes, i),
    decreases n - i,
{
    if i < n {
        lemma_first_route_pattern(t, routes, i, n - 1);
    }
}

proof fn lemma_first_listener_pattern(t: Seq<(String, RegexDef)>, ls: Seq<Listener>, i: int, n: int)
    requires
        i <= n,
        listener_patterns_problem(t, ls, i) is Some,
    ensures
        listener_patterns_problem(t, ls, n) == listener_patterns_problem(t, ls, i),
    decreases n - i,
{
    if i < n {
        lemma_first_listener_pattern(t, ls, i, n - 1);
    }
}

impl Config {
    fn validate_patterns(&self, route: &Route) -> (r: Result<(), ConfigError>)
        ensures
            problem_in(r) == patterns_problem(self.regexes@, *route, route.match_sni@.len() as int),
    {
        let mut i: usize = 0;
        while i < route.match_sni.len()
            invariant
                i <= route.match_sni@.len(),
                patterns_problem(self.regexes@, *route, i as int) is None,
            decreases route.match_sni@.len() - i,
        {
            let pattern = route.match_sni[i].as_str();
            let t = text::trimmed_chars(pattern);
            if Config::is_regex_ref(pattern) {
                match self.resolve_regex_ref(pattern) {
                    Ok(_) => {},
                    Err(e) => {
                        proof {
                            lemma_first_pattern(self.regexes@, *route, i + 1, route.match_sni@.len() as int);
                        }
                        return Err(e);
                    },
                }
            } else if t.len() > 0 && t[0] == '~' {
                let m = text::concat3(
                    route_message(route, ": inline regex ").as_str(),
                    text::quote(pattern).as_str(),
                    " is no longer supported; declare it in [regexes.<name>] with a scope_suffix, then reference it as @<name>",
                );
                proof {
                    lemma_first_pattern(self.regexes@, *route, i + 1, route.match_sni@.len() as int);
                }
                return Err(ConfigError::Invalid(m));
            }
            i = i + 1;
        }
        Ok(())
    }

    fn validate_listener_patterns(&self, l: &Listener) -> (r: Result<(), ConfigError>)
        ensures
            problem_in(r) == route_patterns_problem(
                self.regexes@,
                references::all_routes(*l),
                references::all_routes(*l).len() as int,
            ),
    {
        let ghost all = references::all_routes(*l);
        let mut i: usize = 0;
        while i < l.routes.len()
            invariant
                i <= l.routes@.len(),
                all == references::all_routes(*l),
                route_patterns_problem(self.regexes@, all, i as int) is None,
            decreases l.routes@.len() - i,
        {
            assert(all[i as int] == l.routes@[i as int]);
            match self.validate_patterns(&l.routes[i]) {
                Ok(_) => {},
                Err(e) => {
                    proof {
                        lemma_first_route_pattern(self.regexes@, all, i + 1, all.len() as int);
                    }
                    return Err(e);
                },
            }
            i = i + 1;
        }
        match &l.default_route {
            Some(d) => {
                assert(all[i as int] == *d);
                self.validate_patterns(d)
            },
            None => Ok(()),
        }
    }

    /// Whether the regexes make sense: every pattern compiles and has a scope of
    /// domain patterns, and the routes refer to declared regexes only.
    pub fn validate_regexes(&self) -> (r: Result<(), ConfigError>)
        ensures
            problem_in(r) == regexes_problem(*self),
    {
        let mut i: usize = 0;
        while i < self.regexes.len()
            invariant
                i <= self.regexes@.len(),
                regex_table_problem(self.regexes@, i as int) is None,
            decreases self.regexes@.len() - i,
        {
            let refusal = compile_refusal(self.regexes[i].1.pattern.as_str());
            match validate_regex(self.regexes[i].0.as_str(), &refusal, &self.regexes[i].1.scope_suffix) {
                Ok(_) => {},
                Err(e) => {
                    proof {
                        lemma_first_regex(self.regexes@, i + 1, self.regexes@.len() as int);
                    }
                    return Err(e);
                },
            }
            i = i + 1;
        }
        let mut i: usize = 0;
        while i < self.listeners.len()
            invariant
                i <= self.listeners@.len(),
                regex_table_problem(self.regexes@, self.regexes@.len() as int) is None,
                listener_patterns_problem(self.regexes@, self.listeners@, i as int) is None,
            decreases self.listeners@.len() - i,
        {
            match self.validate_listener_patterns(&self.listeners[i]) {
                Ok(_) => {},
                Err(e) => {
                    proof {
                        lemma_first_listener_pattern(
                            self.regexes@,
                            self.listeners@,
                            i + 1,
                            self.listeners@.len() as int,
                        );
                    }
                    return Err(e);
                },
            }
            i = i + 1;
        }
        Ok(())
    }
}

// ---------------------------------------------------------------------------
// The whole document
// ---------------------------------------------------------------------------

/// What is wrong with a document.
pub open spec fn problem(c: Config) -> Option<Seq<char>> {
    if c.listeners@.len() == 0 {
        Some("at least one [[listener]] is required"@)
    } else if listeners_problem(c, c.listeners@.len() as int) is Some {
        listeners_problem(c, c.listeners@.len() as int)
    } else if c.ca.leaf_validity_days < 1 {
        Some("ca.leaf_validity_days must be >= 1"@)
    } else if c.store.renew_margin_days >= c.ca.leaf_validity_days {
        Some("store.renew_margin_days must be < ca.leaf_validity_days"@)
    } else {
        ladder::or(resolvers_problem(c), regexes_problem(c))
    }
}

impl Config {
    /// Whether the document makes sense.
    pub fn validate(&self) -> (r: Result<(), ConfigError>)
        ensures
            problem_in(r) == problem(*self),
    {
        if self.listeners.len() == 0 {
            return Err(ConfigError::Invalid("at least one [[listener]] is required".to_owned()));
        }
        let mut i: usize = 0;
        while i < self.listeners.len()
            invariant
                i <= self.listeners@.len(),
                self.listeners@.len() > 0,
                listeners_problem(*self, i as int) is None,
            decreases self.listeners@.len() - i,
        {
            match self.validate_listener(i) {
                Ok(_) => {},
                Err(e) => {
                    proof {
                        lemma_first_listener(*self, i + 1, self.listeners@.len() as int);
                    }
                    return Err(e);
                },
            }
            i = i + 1;
        }
        if self.ca.leaf_validity_days < 1 {
            return Err(ConfigError::Invalid("ca.leaf_validity_days must be >= 1".to_owned()));
        }
        if self.store.renew_margin_days >= self.ca.leaf_validity_days {
            return Err(
                ConfigError::Invalid("store.renew_margin_days must be < ca.leaf_validity_days".to_owned()),
            );
        }
        match self.validate_resolvers() {
            Ok(_) => {},
            Err(e) => return Err(e),
        }
        self.validate_regexes()
    }
}

// ---------------------------------------------------------------------------
// Laws
// ---------------------------------------------------------------------------

proof fn lemma_no_ref_problem(rs: Seq<(String, ResolverDef)>, refs: Seq<(Seq<char>, Seq<char>)>, i: int, n: int)
    requires
        0 <= i < n,
        refs_problem(rs, refs, n) is None,
        references::is_ref(refs[i].1),
    ensures
        references::resolver_ref_problem(rs, refs[i].1) is None,
    decreases n - i,
{
    if i < n - 1 {
        lemma_no_ref_problem(rs, refs, i, n - 1);
    }
}

/// In a document that makes sense every reference to a resolver, wherever it
/// stands, leads to a declared one, and the resolvers can be built.
pub proof fn law_valid_references_resolve(c: Config, i: int)
    requires
        problem(c) is None,
        0 <= i < references::all_refs(c).len(),
        references::is_ref(references::all_refs(c)[i].1),
    ensures
        references::resolver_ref_problem(c.resolvers@, references::all_refs(c)[i].1) is None,
        references::declares(c.resolvers@, references::ref_name(references::all_refs(c)[i].1)),
        build_order::build_order(build_order::graph_of(c.resolvers@)) is Ok,
{
    lemma_no_ref_problem(c.resolvers@, references::all_refs(c), i, references::all_refs(c).len() as int);
}

proof fn lemma_no_table_problem(rs: Seq<(String, ResolverDef)>, global: Option<EchConfig>, i: int, n: int)
    requires
        table_problem(rs, global, n) is None,
        0 <= i < n,
    ensures
        resolver_problem(rs[i].0@, rs[i].1, global) is None,
    decreases n,
{
    if i < n - 1 {
        lemma_no_table_problem(rs, global, i, n - 1);
    }
}

/// The endpoint of every resolver of a valid document can be read.
pub proof fn law_valid_endpoints_are_readable(c: Config, i: int)
    requires
        problem(c) is None,
        0 <= i < c.resolvers@.len(),
    ensures
        dns_resolvers::endpoint_of(text::trim(c.resolvers@[i].1.endpoint@)) is Ok,
{
    lemma_no_table_problem(c.resolvers@, c.global.ech, i, c.resolvers@.len() as int);
    assert(endpoint_problem(c.resolvers@[i].1) is None);
    reveal(endpoint_problem);
}

proof fn lemma_no_listener_problem(c: Config, i: int, n: int)
    requires
        0 <= i < n,
        listeners_problem(c, n) is None,
    ensures
        listener_problem(c, i) is None,
    decreases n - i,
{
    if i < n - 1 {
        lemma_no_listener_problem(c, i, n - 1);
    }
}

proof fn lemma_no_route_problem(c: Config, l: Listener, lt: Option<Template>, k: int, n: int)
    requires
        0 <= k < n,
        routes_problem(c, l, lt, n) is None,
    ensures
        placed_route_problem(c, l, l.routes@[k], false, lt) is None,
    decreases n - k,
{
    if k < n - 1 {
        lemma_no_route_problem(c, l, lt, k, n - 1);
    }
}

/// In a document that makes sense every route has a template that exists, a
/// protocol type, an upstream that parses and at least one pattern, and has its
/// certificate and key both or neither.
pub proof fn law_valid_routes_are_complete(c: Config, i: int, k: int)
    requires
        problem(c) is None,
        0 <= i < c.listeners@.len(),
        0 <= k < c.listeners@[i].routes@.len(),
    ensures
        ({
            let l = c.listeners@[i];
            let r = l.routes@[k];
            &&& r.match_sni@.len() > 0
            &&& references::template_of(c.templates@, text::opt_text(l.use_template)) is Ok
            &&& match references::template_of(c.templates@, text::opt_text(r.use_template)) {
                Err(_) => false,
                Ok(rt) => {
                    &&& ladder::type_of(r, rt) is Some
                    &&& upstream::resolved_upstream(ladder::upstream_spec_of(r, rt), l.addr.port) is Some
                    &&& cert_key_of(r, rt).0 is Some == (cert_key_of(r, rt).1 is Some)
                },
            }
        }),
{
    lemma_no_listener_problem(c, i, c.listeners@.len() as int);
    let l = c.listeners@[i];
    match references::template_of(c.templates@, text::opt_text(l.use_template)) {
        Err(_) => {},
        Ok(lt) => {
            lemma_no_route_problem(c, l, lt, k, l.routes@.len() as int);
        },
    }
}

/// In a document that makes sense no two listeners share an address.
pub proof fn law_valid_listeners_are_apart(c: Config, i: int, j: int)
    requires
        problem(c) is None,
        0 <= i < j < c.listeners@.len(),
    ensures
        c.listeners@[i].addr != c.listeners@[j].addr,
{
    lemma_no_listener_problem(c, i, c.listeners@.len() as int);
    assert(!address_recurs(c.listeners@, i));
}

/// A document makes sense exactly where it has a listener, its listeners, resolvers and
/// regexes make sense, a certificate holds for a day at least, and the margin before its
/// renewal is shorter than that.
pub proof fn law_document_makes_sense(c: Config)
    ensures
        problem(c) is None <==> {
            &&& c.listeners@.len() > 0
            &&& forall|i: int| 0 <= i < c.listeners@.len() ==> #[trigger] listener_problem(c, i) is None
            &&& c.ca.leaf_validity_days >= 1
            &&& c.store.renew_margin_days < c.ca.leaf_validity_days
            &&& resolvers_problem(c) is None
            &&& regexes_problem(c) is None
        },
{
    let n = c.listeners@.len() as int;
    lemma_listeners_make_sense(c, n);
}

proof fn lemma_listeners_make_sense(c: Config, n: int)
    requires
        0 <= n,
    ensures
        listeners_problem(c, n) is None <==> forall|i: int| 0 <= i < n ==> #[trigger] listener_problem(c, i) is None,
    decreases n,
{
    if n > 0 {
        lemma_listeners_make_sense(c, n - 1);
        if listeners_problem(c, n) is None {
            assert forall|i: int| 0 <= i < n implies #[trigger] listener_problem(c, i) is None by {
                lemma_no_listener_problem(c, i, n);
            }
        }
    }
}

/// A route makes sense on a listener exactly where its upstream, if it has one, is not
/// blank and can be read, it has a pattern unless it is the default, it has a protocol
/// type, and a certificate is pinned together with its key.
pub proof fn law_route_makes_sense(r: Route, is_default: bool, port: u16, t: Template)
    ensures
        route_problem(r, is_default, port, None) is None <==> {
            &&& r.upstream matches Some(u) ==> text::trim(u@).len() > 0 && upstream::upstream_of(text::trim(u@)) is Some
            &&& is_default || r.match_sni@.len() > 0
            &&& r.route_type is Some
            &&& r.cert_file is Some <==> r.key_file is Some
        },
        r.upstream is None && t.upstream is None ==> (route_problem(r, is_default, port, Some(t)) is None <==> {
            &&& is_default || r.match_sni@.len() > 0
            &&& r.route_type is Some || t.route_type is Some
            &&& if r.cert_file is Some || r.key_file is Some {
                r.cert_file is Some && r.key_file is Some
            } else {
                t.cert_file is Some <==> t.key_file is Some
            }
        }),
{
}

/// A certificate and its key come from one scope: the route, if it names either, else
/// the template.
pub proof fn law_certificate_and_key_go_together(r: Route, t: Template)
    ensures
        r.cert_file matches Some(c) ==> cert_key_of(r, Some(t)).0 == Some(c@),
        r.cert_file is Some && r.key_file is None ==> cert_key_of(r, Some(t)).1 is None,
        r.key_file matches Some(k) ==> cert_key_of(r, Some(t)).1 == Some(k@),
        r.key_file is Some && r.cert_file is None ==> cert_key_of(r, Some(t)).0 is None,
        r.cert_file is None && r.key_file is None ==> cert_key_of(r, Some(t)) == (
            text::opt_text(t.cert_file),
            text::opt_text(t.key_file),
        ),
{
}

/// In a document that makes sense a route that hides its server's name has an inline
/// config wherever its mode draws on one, and no raw route asks for HTTP/2.
pub proof fn law_valid_routes_can_be_served(c: Config, i: int, k: int, e: super::EffectiveEch)
    requires
        problem(c) is None,
        0 <= i < c.listeners@.len(),
        0 <= k < c.listeners@[i].routes@.len(),
    ensures
        ({
            let l = c.listeners@[i];
            let r = l.routes@[k];
            match (
                references::template_of(c.templates@, text::opt_text(r.use_template)),
                references::template_of(c.templates@, text::opt_text(l.use_template)),
            ) {
                (Ok(rt), Ok(lt)) => {
                    let p = ladder::Place {
                        global: c.global,
                        listener: l,
                        route: r,
                        route_template: rt,
                        listener_template: lt,
                    };
                    &&& p.route_type() == Some(RouteType::Ech) && ladder::is_effective_ech(p, e) && (e.mode
                        == EchMode::Static || e.mode == EchMode::DohWithFallback) ==> e.config is Some
                    &&& p.route_type() == Some(RouteType::Raw) ==> !(r.http2 matches Some(h) && h.enabled == Some(true))
                    &&& p.route_type() == Some(RouteType::Raw) ==> (rt matches Some(t) ==> !(t.http2 matches Some(h)
                        && h.enabled == Some(true)))
                },
                _ => false,
            }
        }),
{
    lemma_no_listener_problem(c, i, c.listeners@.len() as int);
    let l = c.listeners@[i];
    match references::template_of(c.templates@, text::opt_text(l.use_template)) {
        Err(_) => {},
        Ok(lt) => {
            lemma_no_route_problem(c, l, lt, k, l.routes@.len() as int);
        },
    }
}

/// The same holds of a listener's default route, which needs no pattern.
pub proof fn law_valid_default_route_is_complete(c: Config, i: int, d: Route)
    requires
        problem(c) is None,
        0 <= i < c.listeners@.len(),
        c.listeners@[i].default_route == Some(d),
    ensures
        ({
            let l = c.listeners@[i];
            match references::template_of(c.templates@, text::opt_text(d.use_template)) {
                Err(_) => false,
                Ok(rt) => {
                    &&& ladder::type_of(d, rt) is Some
                    &&& upstream::resolved_upstream(ladder::upstream_spec_of(d, rt), l.addr.port) is Some
                    &&& cert_key_of(d, rt).0 is Some == (cert_key_of(d, rt).1 is Some)
                },
            }
        }),
{
    lemma_no_listener_problem(c, i, c.listeners@.len() as int);
}

/// In a document that makes sense a resolver has an endpoint of its own, not another
/// resolver's, and neither finds its own address nor its own ECH config through itself.
pub proof fn law_valid_resolvers_stand_alone(c: Config, i: int)
    requires
        problem(c) is None,
        0 <= i < c.resolvers@.len(),
    ensures
        ({
            let name = c.resolvers@[i].0@;
            let def = c.resolvers@[i].1;
            &&& text::trim(def.endpoint@).len() > 0
            &&& text::trim(def.endpoint@)[0] != '@'
            &&& name.len() > 0 && !text::is_space(name.last()) ==> {
                &&& def.bootstrap matches Some(b) ==> b@ != seq!['@'] + name
                &&& def.ech matches Some(e) ==> (e.ech_resolver matches Some(b) ==> b@ != seq!['@'] + name)
            }
            &&& def.ech matches Some(e) ==> ((e.mode == Some(EchMode::Static) || e.mode == Some(
                EchMode::DohWithFallback,
            )) && e.config is None ==> (c.global.ech matches Some(g) && g.config is Some))
        }),
{
    lemma_no_table_problem(c.resolvers@, c.global.ech, i, c.resolvers@.len() as int);
    let name = c.resolvers@[i].0@;
    let s = seq!['@'] + name;
    if name.len() > 0 && !text::is_space(name.last()) {
        assert(s[0] == '@' && s.last() == name.last());
        text::lemma_trimmed_already(s);
        assert(s.drop_first() =~= name);
    }
}

/// A regex makes sense only where its pattern compiles and it is confined to some scope.
pub proof fn law_regex_is_confined(name: Seq<char>, refusal: Option<Seq<char>>, scopes: Seq<String>)
    ensures
        regex_problem(name, refusal, scopes) is None <==> {
            &&& refusal is None
            &&& scopes.len() > 0
            &&& scopes_problem(name, scopes, scopes.len() as int) is None
        },
{
}

/// A scope that makes sense is a domain of two labels at least, in letters, digits and
/// hyphens, perhaps behind `*.` or a dot.
pub proof fn law_scope_is_a_domain(name: Seq<char>, scope: Seq<char>)
    requires
        scope_problem(name, scope) is None,
    ensures
        ({
            let domain = scope_domain(scope);
            &&& domain == scope || seq!['.'] + domain == scope || seq!['*', '.'] + domain == scope
            &&& domain.contains('.')
            &&& forall|i: int|
                #![trigger domain[i]]
                0 <= i < domain.len() ==> ('a' <= domain[i] && domain[i] <= 'z') || ('A' <= domain[i] && domain[i] <= 'Z')
                    || ('0' <= domain[i] && domain[i] <= '9') || domain[i] == '-' || domain[i] == '.'
        }),
{
    let domain = scope_domain(scope);
    let labels = text::split(domain, '.');
    if scope.len() >= 2 && scope[0] == '*' && scope[1] == '.' {
        assert(seq!['*', '.'] + domain =~= scope);
    } else if scope.len() >= 1 && scope[0] == '.' {
        assert(seq!['.'] + domain =~= scope);
    }
    assert forall|i: int| #![trigger domain[i]] 0 <= i < domain.len() && domain[i] != '.' implies label_char(domain[i]) by {
        text::lemma_in_a_piece(domain, '.', 0, i);
        let k = choose|k: int| 0 <= k < labels.len() && (#[trigger] labels[k]).contains(domain[i]);
        lemma_no_label_problem(name, scope, labels, k, labels.len() as int);
        let at = choose|at: int| 0 <= at < labels[k].len() && labels[k][at] == domain[i];
        assert(label_char(labels[k][at]));
    }
}

proof fn lemma_no_label_problem(name: Seq<char>, scope: Seq<char>, labels: Seq<Seq<char>>, k: int, n: int)
    requires
        labels_problem(name, scope, labels, n) is None,
        0 <= k < n,
    ensures
        label_problem(name, scope, labels[k]) is None,
    decreases n,
{
    if k < n - 1 {
        lemma_no_label_problem(name, scope, labels, k, n - 1);
    }
}

/// A label makes sense exactly where it has characters, begins and ends with none of them
/// a hyphen, and holds letters, digits and hyphens alone.
pub proof fn law_label_makes_sense(name: Seq<char>, scope: Seq<char>, label: Seq<char>)
    ensures
        label_problem(name, scope, label) is None <==> {
            &&& label.len() > 0
            &&& label[0] != '-'
            &&& label.last() != '-'
            &&& forall|i: int|
                #![trigger label[i]]
                0 <= i < label.len() ==> ('a' <= label[i] && label[i] <= 'z') || ('A' <= label[i] && label[i] <= 'Z') || (
                '0' <= label[i] && label[i] <= '9') || label[i] == '-'
        },
{
    if label.len() > 0 && label[0] != '-' && label.last() != '-' {
        if exists|i: int| 0 <= i < label.len() && !label_char(#[trigger] label[i]) {
            let i = choose|i: int| 0 <= i < label.len() && !label_char(#[trigger] label[i]);
            assert(!label_char(label[i]));
        } else {
            assert forall|i: int| #![trigger label[i]] 0 <= i < label.len() implies label_char(label[i]) by {}
        }
    }
}

/// A route's pattern makes sense where it is neither a regex of its own nor a reference
/// to one that nobody declared.
pub proof fn law_pattern_makes_sense(t: Seq<(String, RegexDef)>, r: Route, pattern: Seq<char>)
    requires
        pattern.len() > 1,
        !text::is_space(pattern[0]),
        !text::is_space(pattern.last()),
    ensures
        pattern[0] != '@' && pattern[0] != '~' ==> pattern_problem(t, r, pattern) is None,
        pattern[0] == '~' ==> pattern_problem(t, r, pattern) is Some,
        pattern[0] == '@' ==> (pattern_problem(t, r, pattern) is None <==> exists|i: int|
            0 <= i < t.len() && (#[trigger] t[i]).0@ == pattern.drop_first()),
{
    text::lemma_trimmed_already(pattern);
    if pattern[0] == '@' {
        let name = pattern.drop_first();
        assert(seq!['@'] + name =~= pattern);
        assert(name.last() == pattern.last());
        references::law_reference_is_by_name(Seq::empty(), t, name);
    }
}

/// What is wrong with the scope at `i`.
pub open spec fn scope_problem_at(name: Seq<char>, scopes: Seq<String>, i: int) -> Option<Seq<char>> {
    scope_problem(name, text::trim(scopes[i]@))
}

/// What is wrong with the regex at `i`.
pub open spec fn regex_problem_at(t: Seq<(String, RegexDef)>, i: int) -> Option<Seq<char>> {
    regex_problem(t[i].0@, regex_refusal(t[i].1.pattern@), t[i].1.scope_suffix@)
}

/// What is wrong with a route's pattern at `i`.
pub open spec fn pattern_problem_at(t: Seq<(String, RegexDef)>, r: Route, i: int) -> Option<Seq<char>> {
    pattern_problem(t, r, r.match_sni@[i]@)
}

/// What is wrong with the patterns of the route at `i`.
pub open spec fn patterns_problem_at(t: Seq<(String, RegexDef)>, routes: Seq<Route>, i: int) -> Option<Seq<char>> {
    patterns_problem(t, routes[i], routes[i].match_sni@.len() as int)
}

/// What is wrong with the patterns of the listener at `i`, of its default route last.
pub open spec fn listener_patterns_problem_at(t: Seq<(String, RegexDef)>, ls: Seq<Listener>, i: int) -> Option<Seq<char>> {
    let routes = match ls[i].default_route {
        Some(d) => ls[i].routes@.push(d),
        None => ls[i].routes@,
    };
    route_patterns_problem(t, routes, routes.len() as int)
}

/// What is wrong with the resolver at `i`.
pub open spec fn resolver_problem_at(rs: Seq<(String, ResolverDef)>, global: Option<EchConfig>, i: int) -> Option<Seq<char>> {
    resolver_problem(rs[i].0@, rs[i].1, global)
}

/// What is wrong with the route at `i` where it stands.
pub open spec fn route_problem_at(c: Config, l: Listener, lt: Option<Template>, i: int) -> Option<Seq<char>> {
    placed_route_problem(c, l, l.routes@[i], false, lt)
}

/// What is wrong with the resolver spec at `i`: a reference that leads nowhere, told with
/// where it stands.
pub open spec fn ref_problem_at(rs: Seq<(String, ResolverDef)>, refs: Seq<(Seq<char>, Seq<char>)>, i: int) -> Option<
    Seq<char>,
> {
    if references::is_ref(refs[i].1) && references::resolver_ref_problem(rs, refs[i].1) is Some {
        Some(refs[i].0 + ": "@ + references::resolver_ref_problem(rs, refs[i].1)->0)
    } else {
        None
    }
}

/// Scopes make sense where each does, trimmed; else the first that does not is told.
pub proof fn law_first_bad_scope_is_told(name: Seq<char>, scopes: Seq<String>, n: int, k: int)
    requires
        0 <= n,
    ensures
        scopes_problem(name, scopes, n) is None <==> forall|i: int| 0 <= i < n ==> #[trigger] scope_problem_at(name, scopes, i) is None,
        0 <= k < n && scope_problem_at(name, scopes, k) is Some && (forall|i: int| 0 <= i < k ==> #[trigger] scope_problem_at(name, scopes, i) is None)
            ==> scopes_problem(name, scopes, n) == scope_problem_at(name, scopes, k),
    decreases n,
{
    if n > 0 {
        law_first_bad_scope_is_told(name, scopes, n - 1, k);
        if k == n - 1 {
            law_first_bad_scope_is_told(name, scopes, n - 1, 0);
        }
    }
}

/// Regexes make sense where each does; else the first that does not is told.
pub proof fn law_first_bad_regex_is_told(t: Seq<(String, RegexDef)>, n: int, k: int)
    requires
        0 <= n,
    ensures
        regex_table_problem(t, n) is None <==> forall|i: int| 0 <= i < n ==> #[trigger] regex_problem_at(t, i) is None,
        0 <= k < n && regex_problem_at(t, k) is Some && (forall|i: int| 0 <= i < k ==> #[trigger] regex_problem_at(t, i) is None)
            ==> regex_table_problem(t, n) == regex_problem_at(t, k),
    decreases n,
{
    if n > 0 {
        law_first_bad_regex_is_told(t, n - 1, k);
        if k == n - 1 {
            law_first_bad_regex_is_told(t, n - 1, 0);
        }
    }
}

/// A route's patterns make sense where each does; else the first that does not is told.
pub proof fn law_first_bad_pattern_is_told(t: Seq<(String, RegexDef)>, r: Route, n: int, k: int)
    requires
        0 <= n,
    ensures
        patterns_problem(t, r, n) is None <==> forall|i: int| 0 <= i < n ==> #[trigger] pattern_problem_at(t, r, i) is None,
        0 <= k < n && pattern_problem_at(t, r, k) is Some && (forall|i: int| 0 <= i < k ==> #[trigger] pattern_problem_at(t, r, i) is None)
            ==> patterns_problem(t, r, n) == pattern_problem_at(t, r, k),
    decreases n,
{
    if n > 0 {
        law_first_bad_pattern_is_told(t, r, n - 1, k);
        if k == n - 1 {
            law_first_bad_pattern_is_told(t, r, n - 1, 0);
        }
    }
}

/// So do those of several routes.
pub proof fn law_first_route_with_a_bad_pattern_is_told(t: Seq<(String, RegexDef)>, routes: Seq<Route>, n: int, k: int)
    requires
        0 <= n,
    ensures
        route_patterns_problem(t, routes, n) is None <==> forall|i: int| 0 <= i < n ==> #[trigger] patterns_problem_at(t, routes, i) is None,
        0 <= k < n && patterns_problem_at(t, routes, k) is Some && (forall|i: int| 0 <= i < k ==> #[trigger] patterns_problem_at(t, routes, i) is None)
            ==> route_patterns_problem(t, routes, n) == patterns_problem_at(t, routes, k),
    decreases n,
{
    if n > 0 {
        law_first_route_with_a_bad_pattern_is_told(t, routes, n - 1, k);
        if k == n - 1 {
            law_first_route_with_a_bad_pattern_is_told(t, routes, n - 1, 0);
        }
    }
}

/// So do those of several listeners.
pub proof fn law_first_listener_with_a_bad_pattern_is_told(t: Seq<(String, RegexDef)>, ls: Seq<Listener>, n: int, k: int)
    requires
        0 <= n,
    ensures
        listener_patterns_problem(t, ls, n) is None <==> forall|i: int| 0 <= i < n ==> #[trigger] listener_patterns_problem_at(t, ls, i) is None,
        0 <= k < n && listener_patterns_problem_at(t, ls, k) is Some && (forall|i: int| 0 <= i < k ==> #[trigger] listener_patterns_problem_at(t, ls, i) is None)
            ==> listener_patterns_problem(t, ls, n) == listener_patterns_problem_at(t, ls, k),
    decreases n,
{
    if n > 0 {
        law_first_listener_with_a_bad_pattern_is_told(t, ls, n - 1, k);
        if k == n - 1 {
            law_first_listener_with_a_bad_pattern_is_told(t, ls, n - 1, 0);
        }
    }
}

/// Resolvers make sense where each does; else the first that does not is told.
pub proof fn law_first_bad_resolver_is_told(rs: Seq<(String, ResolverDef)>, global: Option<EchConfig>, n: int, k: int)
    requires
        0 <= n,
    ensures
        table_problem(rs, global, n) is None <==> forall|i: int| 0 <= i < n ==> #[trigger] resolver_problem_at(rs, global, i) is None,
        0 <= k < n && resolver_problem_at(rs, global, k) is Some && (forall|i: int| 0 <= i < k ==> #[trigger] resolver_problem_at(rs, global, i) is None)
            ==> table_problem(rs, global, n) == resolver_problem_at(rs, global, k),
    decreases n,
{
    if n > 0 {
        law_first_bad_resolver_is_told(rs, global, n - 1, k);
        if k == n - 1 {
            law_first_bad_resolver_is_told(rs, global, n - 1, 0);
        }
    }
}

/// Routes make sense where each does; else the first that does not is told.
pub proof fn law_first_bad_route_is_told(c: Config, l: Listener, lt: Option<Template>, n: int, k: int)
    requires
        0 <= n,
    ensures
        routes_problem(c, l, lt, n) is None <==> forall|i: int| 0 <= i < n ==> #[trigger] route_problem_at(c, l, lt, i) is None,
        0 <= k < n && route_problem_at(c, l, lt, k) is Some && (forall|i: int| 0 <= i < k ==> #[trigger] route_problem_at(c, l, lt, i) is None)
            ==> routes_problem(c, l, lt, n) == route_problem_at(c, l, lt, k),
    decreases n,
{
    if n > 0 {
        law_first_bad_route_is_told(c, l, lt, n - 1, k);
        if k == n - 1 {
            law_first_bad_route_is_told(c, l, lt, n - 1, 0);
        }
    }
}

/// References lead somewhere where each does; else the first that does not is told.
pub proof fn law_first_bad_reference_is_told(rs: Seq<(String, ResolverDef)>, refs: Seq<(Seq<char>, Seq<char>)>, n: int, k: int)
    requires
        0 <= n,
    ensures
        refs_problem(rs, refs, n) is None <==> forall|i: int| 0 <= i < n ==> #[trigger] ref_problem_at(rs, refs, i) is None,
        0 <= k < n && ref_problem_at(rs, refs, k) is Some && (forall|i: int| 0 <= i < k ==> #[trigger] ref_problem_at(rs, refs, i) is None)
            ==> refs_problem(rs, refs, n) == ref_problem_at(rs, refs, k),
    decreases n,
{
    if n > 0 {
        law_first_bad_reference_is_told(rs, refs, n - 1, k);
        if k == n - 1 {
            law_first_bad_reference_is_told(rs, refs, n - 1, 0);
        }
    }
}

} // verus!
