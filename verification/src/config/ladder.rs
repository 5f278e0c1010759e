//! Walking the scopes: the effective settings of routes and resolvers.

use crate::config;
use super::{
    AddressFamily, CommonOpts, Config, EchConfig, EchMode, Effective, EffectiveEch,
    EffectiveHttp2, EffectiveResolver, FailPolicy, Global, H2Probe, Http2Config, Listener, ResolverDef, Route,
    RouteType, SniPolicy, SniView, Template, DEFAULT_CONNECT_TIMEOUT_SECS, DEFAULT_ECH_REFRESH_SECS,
    DEFAULT_IDLE_TIMEOUT_SECS, DEFAULT_MAX_RETRIES, DEFAULT_PROBE_TIMEOUT_SECS,
};
use crate::text;
use crate::time::Duration;
use vstd::prelude::*;

verus! {

/// The first value if there is one, else the second.
pub open spec fn or<T>(a: Option<T>, b: Option<T>) -> Option<T> {
    if a is Some {
        a
    } else {
        b
    }
}

/// A value, or the default where there is none.
pub open spec fn or_default<T>(a: Option<T>, default: T) -> T {
    match a {
        Some(v) => v,
        None => default,
    }
}

/// The first value that a walk from the route outward finds.
pub open spec fn outward<T>(
    route: Option<T>,
    route_template: Option<T>,
    listener: Option<T>,
    listener_template: Option<T>,
    global: Option<T>,
) -> Option<T> {
    or(route, or(route_template, or(listener, or(listener_template, global))))
}

/// Where a route stands: its listener, and the templates of both.
pub ghost struct Place {
    pub global: Global,
    pub listener: Listener,
    pub route: Route,
    pub route_template: Option<Template>,
    pub listener_template: Option<Template>,
}

/// What a template sets among the common options.
pub open spec fn from_common<T>(t: Option<Template>, f: spec_fn(CommonOpts) -> Option<T>) -> Option<T> {
    match t {
        Some(t) => f(t.common),
        None => None,
    }
}

/// What an ECH block sets.
pub open spec fn from_ech<T>(e: Option<EchConfig>, f: spec_fn(EchConfig) -> Option<T>) -> Option<T> {
    match e {
        Some(e) => f(e),
        None => None,
    }
}

/// What an HTTP/2 block sets.
pub open spec fn from_http2<T>(h: Option<Http2Config>, f: spec_fn(Http2Config) -> Option<T>) -> Option<T> {
    match h {
        Some(h) => f(h),
        None => None,
    }
}

/// The ECH block of a template.
pub open spec fn template_ech(t: Option<Template>) -> Option<EchConfig> {
    match t {
        Some(t) => t.ech,
        None => None,
    }
}

/// The HTTP/2 block of a template.
pub open spec fn template_http2(t: Option<Template>) -> Option<Http2Config> {
    match t {
        Some(t) => t.http2,
        None => None,
    }
}

impl Place {
    /// A common option, looked for from the route outward.
    pub open spec fn common<T>(self, f: spec_fn(CommonOpts) -> Option<T>) -> Option<T> {
        outward(
            f(self.route.common),
            from_common(self.route_template, f),
            f(self.listener.common),
            from_common(self.listener_template, f),
            f(self.global.common),
        )
    }

    /// An ECH field, looked for from the route outward.
    pub open spec fn ech<T>(self, f: spec_fn(EchConfig) -> Option<T>) -> Option<T> {
        outward(
            from_ech(self.route.ech, f),
            from_ech(template_ech(self.route_template), f),
            from_ech(self.listener.ech, f),
            from_ech(template_ech(self.listener_template), f),
            from_ech(self.global.ech, f),
        )
    }

    /// An HTTP/2 field, looked for from the route outward.
    pub open spec fn http2<T>(self, f: spec_fn(Http2Config) -> Option<T>) -> Option<T> {
        outward(
            from_http2(self.route.http2, f),
            from_http2(template_http2(self.route_template), f),
            from_http2(self.listener.http2, f),
            from_http2(template_http2(self.listener_template), f),
            from_http2(self.global.http2, f),
        )
    }

    /// The protocol type: the route's own, or its template's.
    pub open spec fn route_type(self) -> Option<RouteType> {
        type_of(self.route, self.route_template)
    }

    /// The failure policy: the route's own, or its template's, or the global one.
    pub open spec fn fail(self) -> FailPolicy {
        or_default(
            or(
                self.route.fail,
                match self.route_template {
                    Some(t) => t.fail,
                    None => None,
                },
            ),
            self.global.unmatched,
        )
    }
}

/// The protocol type of a route: its own, or its template's.
pub open spec fn type_of(route: Route, template: Option<Template>) -> Option<RouteType> {
    or(
        route.route_type,
        match template {
            Some(t) => t.route_type,
            None => None,
        },
    )
}

/// The upstream value of a route: its own, or its template's. Listeners and
/// their templates have no say in it.
pub open spec fn upstream_spec_of(route: Route, template: Option<Template>) -> Option<Seq<char>> {
    or(
        text::opt_text(route.upstream),
        match template {
            Some(t) => text::opt_text(t.upstream),
            None => None,
        },
    )
}

/// The `override_sni` of a route: its own, or its template's.
pub open spec fn override_sni_of(route: Route, template: Option<Template>) -> Option<Seq<char>> {
    or(
        text::opt_text(route.override_sni),
        match template {
            Some(t) => text::opt_text(t.override_sni),
            None => None,
        },
    )
}

/// A template as a value.
pub open spec fn deref_template(t: Option<&Template>) -> Option<Template> {
    match t {
        Some(t) => Some(*t),
        None => None,
    }
}

impl Config {
    /// Where a route stands.
    pub open spec fn place(&self, listener: &Listener, route: &Route, rt: Option<&Template>, lt: Option<&Template>) -> Place {
        Place {
            global: self.global,
            listener: *listener,
            route: *route,
            route_template: deref_template(rt),
            listener_template: deref_template(lt),
        }
    }
}

/// Whether settings are what a route comes to.
pub open spec fn is_effective(p: Place, r: Effective) -> bool {
    &&& r.ech_resolver == or(
        p.ech(|e: EchConfig| e.ech_resolver),
        p.common(|c: CommonOpts| or(c.ech_resolver, c.resolver)),
    )
    &&& r.addr_resolver == p.common(|c: CommonOpts| or(c.addr_resolver, c.resolver))
    &&& r.ech_refresh == or_default(
        or(p.ech(|e: EchConfig| e.ech_refresh), p.common(|c: CommonOpts| c.ech_refresh)),
        config::secs(DEFAULT_ECH_REFRESH_SECS),
    )
    &&& r.nat64_prefix == p.common(|c: CommonOpts| c.nat64_prefix)
    &&& r.address_family == or_default(p.common(|c: CommonOpts| c.address_family), AddressFamily::Dual)
    &&& r.require_ech == or_default(
        or(p.ech(|e: EchConfig| e.require_ech), p.common(|c: CommonOpts| c.require_ech)),
        true,
    )
    &&& r.connect_timeout == or_default(
        p.common(|c: CommonOpts| c.connect_timeout),
        config::secs(DEFAULT_CONNECT_TIMEOUT_SECS),
    )
    &&& r.idle_timeout == or_default(
        p.common(|c: CommonOpts| c.idle_timeout),
        config::secs(DEFAULT_IDLE_TIMEOUT_SECS),
    )
    &&& r.fail == p.fail()
}

/// Whether an ECH block is what a route comes to.
pub open spec fn is_effective_ech(p: Place, r: EffectiveEch) -> bool {
    &&& r.mode == or_default(p.ech(|e: EchConfig| e.mode), EchMode::Doh)
    &&& r.config == p.ech(|e: EchConfig| e.config)
    &&& r.ech_domain == p.ech(|e: EchConfig| e.ech_domain)
    &&& r.max_retries == or_default(p.ech(|e: EchConfig| e.max_retries), DEFAULT_MAX_RETRIES)
}

/// Whether an HTTP/2 block is what a route comes to.
pub open spec fn is_effective_http2(p: Place, r: EffectiveHttp2) -> bool {
    &&& r.enabled == (p.route_type() != Some(RouteType::Raw) && or_default(
        p.http2(|h: Http2Config| h.enabled),
        false,
    ))
    &&& r.probe == or_default(p.http2(|h: Http2Config| h.probe), H2Probe::Warn)
    &&& r.probe_timeout == or_default(
        p.http2(|h: Http2Config| h.probe_timeout),
        config::secs(DEFAULT_PROBE_TIMEOUT_SECS),
    )
}

fn pick<T: Copy>(a: Option<T>, b: Option<T>) -> (r: Option<T>)
    ensures
        r == or(a, b),
{
    match a {
        Some(v) => Some(v),
        None => b,
    }
}

fn pick_text(a: Option<String>, b: &Option<String>) -> (r: Option<String>)
    ensures
        r == or(a, *b),
{
    match a {
        Some(v) => Some(v),
        None => b.clone(),
    }
}

impl EchConfig {
    /// Nothing set.
    pub fn unset() -> (r: Self)
        ensures
            r.mode is None,
            r.config is None,
            r.ech_domain is None,
            r.require_ech is None,
            r.max_retries is None,
            r.ech_refresh is None,
            r.ech_resolver is None,
    {
        EchConfig {
            mode: None,
            config: None,
            ech_domain: None,
            require_ech: None,
            max_retries: None,
            ech_refresh: None,
            ech_resolver: None,
        }
    }
}

impl Http2Config {
    /// Nothing set.
    pub fn unset() -> (r: Self)
        ensures
            r.enabled is None,
            r.probe is None,
            r.probe_timeout is None,
    {
        Http2Config { enabled: None, probe: None, probe_timeout: None }
    }
}

fn common_or<'a>(t: Option<&'a Template>, unset: &'a CommonOpts) -> (r: &'a CommonOpts)
    ensures
        *r == (match t {
            Some(t) => t.common,
            None => *unset,
        }),
{
    match t {
        Some(t) => &t.common,
        None => unset,
    }
}

fn ech_or<'a>(e: &'a Option<EchConfig>, unset: &'a EchConfig) -> (r: &'a EchConfig)
    ensures
        *r == (match e {
            Some(e) => *e,
            None => *unset,
        }),
{
    match e {
        Some(e) => e,
        None => unset,
    }
}

fn template_ech_or<'a>(t: Option<&'a Template>, unset: &'a EchConfig) -> (r: &'a EchConfig)
    ensures
        *r == (match t {
            Some(t) => match t.ech {
                Some(e) => e,
                None => *unset,
            },
            None => *unset,
        }),
{
    match t {
        Some(t) => ech_or(&t.ech, unset),
        None => unset,
    }
}

fn http2_or<'a>(h: &'a Option<Http2Config>, unset: &'a Http2Config) -> (r: &'a Http2Config)
    ensures
        *r == (match h {
            Some(h) => *h,
            None => *unset,
        }),
{
    match h {
        Some(h) => h,
        None => unset,
    }
}

fn template_http2_or<'a>(t: Option<&'a Template>, unset: &'a Http2Config) -> (r: &'a Http2Config)
    ensures
        *r == (match t {
            Some(t) => match t.http2 {
                Some(h) => h,
                None => *unset,
            },
            None => *unset,
        }),
{
    match t {
        Some(t) => http2_or(&t.http2, unset),
        None => unset,
    }
}

impl Config {
    /// The effective settings of a route: each one is looked for in the ECH
    /// blocks first, where it has a counterpart there, then in the common options,
    /// from the route outward. A purpose-specific resolver beats the generic one
    /// of the same scope.
    pub fn effective(&self, listener: &Listener, route: &Route, rt_tpl: Option<&Template>, ln_tpl: Option<&Template>) -> (r:
        Effective)
        ensures
            is_effective(self.place(listener, route, rt_tpl, ln_tpl), r),
    {
        let none = CommonOpts::unset();
        let no_ech = EchConfig::unset();
        let g = &self.global.common;
        let l = &listener.common;
        let r = &route.common;
        let rt = common_or(rt_tpl, &none);
        let lt = common_or(ln_tpl, &none);
        let re = ech_or(&route.ech, &no_ech);
        let rte = template_ech_or(rt_tpl, &no_ech);
        let le = ech_or(&listener.ech, &no_ech);
        let lte = template_ech_or(ln_tpl, &no_ech);
        let ge = ech_or(&self.global.ech, &no_ech);

        let mut ech_resolver = re.ech_resolver.clone();
        ech_resolver = pick_text(ech_resolver, &rte.ech_resolver);
        ech_resolver = pick_text(ech_resolver, &le.ech_resolver);
        ech_resolver = pick_text(ech_resolver, &lte.ech_resolver);
        ech_resolver = pick_text(ech_resolver, &ge.ech_resolver);
        ech_resolver = pick_text(ech_resolver, &r.ech_resolver);
        ech_resolver = pick_text(ech_resolver, &r.resolver);
        ech_resolver = pick_text(ech_resolver, &rt.ech_resolver);
        ech_resolver = pick_text(ech_resolver, &rt.resolver);
        ech_resolver = pick_text(ech_resolver, &l.ech_resolver);
        ech_resolver = pick_text(ech_resolver, &l.resolver);
        ech_resolver = pick_text(ech_resolver, &lt.ech_resolver);
        ech_resolver = pick_text(ech_resolver, &lt.resolver);
        ech_resolver = pick_text(ech_resolver, &g.ech_resolver);
        ech_resolver = pick_text(ech_resolver, &g.resolver);

        let mut addr_resolver = r.addr_resolver.clone();
        addr_resolver = pick_text(addr_resolver, &r.resolver);
        addr_resolver = pick_text(addr_resolver, &rt.addr_resolver);
        addr_resolver = pick_text(addr_resolver, &rt.resolver);
        addr_resolver = pick_text(addr_resolver, &l.addr_resolver);
        addr_resolver = pick_text(addr_resolver, &l.resolver);
        addr_resolver = pick_text(addr_resolver, &lt.addr_resolver);
        addr_resolver = pick_text(addr_resolver, &lt.resolver);
        addr_resolver = pick_text(addr_resolver, &g.addr_resolver);
        addr_resolver = pick_text(addr_resolver, &g.resolver);

        let mut nat64_prefix = r.nat64_prefix.clone();
        nat64_prefix = pick_text(nat64_prefix, &rt.nat64_prefix);
        nat64_prefix = pick_text(nat64_prefix, &l.nat64_prefix);
        nat64_prefix = pick_text(nat64_prefix, &lt.nat64_prefix);
        nat64_prefix = pick_text(nat64_prefix, &g.nat64_prefix);

        let ech_refresh_ech = pick(
            re.ech_refresh,
            pick(rte.ech_refresh, pick(le.ech_refresh, pick(lte.ech_refresh, ge.ech_refresh))),
        );
        let ech_refresh_common = pick(
            r.ech_refresh,
            pick(rt.ech_refresh, pick(l.ech_refresh, pick(lt.ech_refresh, g.ech_refresh))),
        );
        let ech_refresh = match pick(ech_refresh_ech, ech_refresh_common) {
            Some(d) => d,
            None => Duration::from_secs(DEFAULT_ECH_REFRESH_SECS),
        };
        let address_family = match pick(
            r.address_family,
            pick(rt.address_family, pick(l.address_family, pick(lt.address_family, g.address_family))),
        ) {
            Some(f) => f,
            None => AddressFamily::Dual,
        };
        let require_ech_ech = pick(
            re.require_ech,
            pick(rte.require_ech, pick(le.require_ech, pick(lte.require_ech, ge.require_ech))),
        );
        let require_ech_common = pick(
            r.require_ech,
            pick(rt.require_ech, pick(l.require_ech, pick(lt.require_ech, g.require_ech))),
        );
        let require_ech = match pick(require_ech_ech, require_ech_common) {
            Some(b) => b,
            None => true,
        };
        let connect_timeout = match pick(
            r.connect_timeout,
            pick(rt.connect_timeout, pick(l.connect_timeout, pick(lt.connect_timeout, g.connect_timeout))),
        ) {
            Some(d) => d,
            None => Duration::from_secs(DEFAULT_CONNECT_TIMEOUT_SECS),
        };
        let idle_timeout = match pick(
            r.idle_timeout,
            pick(rt.idle_timeout, pick(l.idle_timeout, pick(lt.idle_timeout, g.idle_timeout))),
        ) {
            Some(d) => d,
            None => Duration::from_secs(DEFAULT_IDLE_TIMEOUT_SECS),
        };
        let template_fail = match rt_tpl {
            Some(t) => t.fail,
            None => None,
        };
        let fail = match pick(route.fail, template_fail) {
            Some(f) => f,
            None => self.global.unmatched,
        };

        Effective {
            ech_resolver,
            addr_resolver,
            ech_refresh,
            nat64_prefix,
            address_family,
            require_ech,
            connect_timeout,
            idle_timeout,
            fail,
        }
    }

    /// The effective ECH block of a route, each field looked for from the route
    /// outward.
    pub fn effective_ech(
        &self,
        listener: &Listener,
        route: &Route,
        rt_tpl: Option<&Template>,
        ln_tpl: Option<&Template>,
    ) -> (r: EffectiveEch)
        ensures
            is_effective_ech(self.place(listener, route, rt_tpl, ln_tpl), r),
    {
        let no_ech = EchConfig::unset();
        let re = ech_or(&route.ech, &no_ech);
        let rte = template_ech_or(rt_tpl, &no_ech);
        let le = ech_or(&listener.ech, &no_ech);
        let lte = template_ech_or(ln_tpl, &no_ech);
        let ge = ech_or(&self.global.ech, &no_ech);
        let mut config = re.config.clone();
        config = pick_text(config, &rte.config);
        config = pick_text(config, &le.config);
        config = pick_text(config, &lte.config);
        config = pick_text(config, &ge.config);
        let mut ech_domain = re.ech_domain.clone();
        ech_domain = pick_text(ech_domain, &rte.ech_domain);
        ech_domain = pick_text(ech_domain, &le.ech_domain);
        ech_domain = pick_text(ech_domain, &lte.ech_domain);
        ech_domain = pick_text(ech_domain, &ge.ech_domain);
        let mode = match pick(re.mode, pick(rte.mode, pick(le.mode, pick(lte.mode, ge.mode)))) {
            Some(m) => m,
            None => EchMode::Doh,
        };
        let max_retries = match pick(
            re.max_retries,
            pick(rte.max_retries, pick(le.max_retries, pick(lte.max_retries, ge.max_retries))),
        ) {
            Some(n) => n,
            None => DEFAULT_MAX_RETRIES,
        };
        EffectiveEch { mode, config, ech_domain, max_retries }
    }

    /// The effective HTTP/2 block of a route, each field looked for from the route
    /// outward. A `raw` route never has HTTP/2, whatever it inherits.
    pub fn effective_http2(
        &self,
        listener: &Listener,
        route: &Route,
        rt_tpl: Option<&Template>,
        ln_tpl: Option<&Template>,
    ) -> (r: EffectiveHttp2)
        ensures
            is_effective_http2(self.place(listener, route, rt_tpl, ln_tpl), r),
    {
        let none = Http2Config::unset();
        let r = http2_or(&route.http2, &none);
        let rt = template_http2_or(rt_tpl, &none);
        let l = http2_or(&listener.http2, &none);
        let lt = template_http2_or(ln_tpl, &none);
        let g = http2_or(&self.global.http2, &none);
        let is_raw = match Config::effective_route_type(route, rt_tpl) {
            Some(RouteType::Raw) => true,
            _ => false,
        };
        let allowed = match pick(r.enabled, pick(rt.enabled, pick(l.enabled, pick(lt.enabled, g.enabled)))) {
            Some(b) => b,
            None => false,
        };
        let probe = match pick(r.probe, pick(rt.probe, pick(l.probe, pick(lt.probe, g.probe)))) {
            Some(p) => p,
            None => H2Probe::Warn,
        };
        let probe_timeout = match pick(
            r.probe_timeout,
            pick(rt.probe_timeout, pick(l.probe_timeout, pick(lt.probe_timeout, g.probe_timeout))),
        ) {
            Some(d) => d,
            None => Duration::from_secs(DEFAULT_PROBE_TIMEOUT_SECS),
        };
        EffectiveHttp2 { enabled: !is_raw && allowed, probe, probe_timeout }
    }

    /// The protocol type of a route: its own, or its template's.
    pub fn effective_route_type(route: &Route, rt_tpl: Option<&Template>) -> (r: Option<RouteType>)
        ensures
            r == type_of(*route, deref_template(rt_tpl)),
    {
        let from_template = match rt_tpl {
            Some(t) => t.route_type,
            None => None,
        };
        pick(route.route_type, from_template)
    }
}

impl Route {
    /// The upstream value of the route.
    pub fn upstream_spec<'a>(&'a self, tpl: Option<&'a Template>) -> (r: Option<&'a str>)
        ensures
            text::opt_str(r) == upstream_spec_of(*self, deref_template(tpl)),
    {
        match &self.upstream {
            Some(s) => Some(s.as_str()),
            None => match tpl {
                Some(t) => text::as_slice(&t.upstream),
                None => None,
            },
        }
    }

    /// The upstream SNI policy of the route. The two scopes are told apart by
    /// presence, so a blank value on the route hides a name on its template.
    pub fn sni_policy(&self, tpl: Option<&Template>) -> (r: SniPolicy)
        ensures
            r@ == config::sni_policy_of(override_sni_of(*self, deref_template(tpl))),
    {
        match &self.override_sni {
            Some(s) => SniPolicy::resolve(Some(s.as_str())),
            None => match tpl {
                Some(t) => SniPolicy::resolve(text::as_slice(&t.override_sni)),
                None => SniPolicy::resolve(None),
            },
        }
    }
}

/// Whether `r` is what a resolver definition comes to under a name.
pub open spec fn is_effective_resolver(def: ResolverDef, name: Seq<char>, global: Global, r: EffectiveResolver) -> bool {
    &&& r.name@ == name
    &&& r.endpoint == def.endpoint
    &&& r.upstream == def.upstream
    &&& r.sni_policy@ == config::sni_policy_of(text::opt_text(def.override_sni))
    &&& r.bootstrap == def.bootstrap
    &&& r.address_family == or_default(or(def.address_family, global.common.address_family), AddressFamily::Dual)
    &&& r.nat64_prefix == or(def.nat64_prefix, global.common.nat64_prefix)
    &&& r.connect_timeout == or_default(
        or(def.connect_timeout, global.common.connect_timeout),
        config::secs(DEFAULT_CONNECT_TIMEOUT_SECS),
    )
    &&& r.ech is Some == (def.ech is Some)
    &&& def.ech matches Some(e) ==> {
        &&& (r.ech->0).mode == or_default(
            or(e.mode, from_ech(global.ech, |g: EchConfig| g.mode)),
            EchMode::Doh,
        )
        &&& (r.ech->0).config == or(e.config, from_ech(global.ech, |g: EchConfig| g.config))
        &&& (r.ech->0).ech_domain == or(e.ech_domain, from_ech(global.ech, |g: EchConfig| g.ech_domain))
        &&& (r.ech->0).max_retries == or_default(
            or(e.max_retries, from_ech(global.ech, |g: EchConfig| g.max_retries)),
            DEFAULT_MAX_RETRIES,
        )
        &&& r.require_ech == or_default(
            or(
                e.require_ech,
                or(from_ech(global.ech, |g: EchConfig| g.require_ech), global.common.require_ech),
            ),
            true,
        )
        &&& r.ech_refresh == or_default(
            or(
                e.ech_refresh,
                or(from_ech(global.ech, |g: EchConfig| g.ech_refresh), global.common.ech_refresh),
            ),
            config::secs(DEFAULT_ECH_REFRESH_SECS),
        )
        &&& r.ech_resolver == e.ech_resolver
    }
    &&& def.ech is None ==> r.require_ech && r.ech_refresh == config::secs(DEFAULT_ECH_REFRESH_SECS)
        && r.ech_resolver is None
}

impl ResolverDef {
    /// The effective settings of a named resolver: its own, or those of the global
    /// scope. Three things never inherit: `bootstrap`, the ECH resolver, and the
    /// presence of an ECH block, whose fields do.
    pub fn effective(&self, name: &str, global: &Global) -> (r: EffectiveResolver)
        ensures
            is_effective_resolver(*self, name@, *global, r),
    {
        let no_ech = EchConfig::unset();
        let g = &global.common;
        let ge = ech_or(&global.ech, &no_ech);
        let (ech, require_ech, ech_refresh, ech_resolver) = match &self.ech {
            Some(e) => {
                let mode = match pick(e.mode, ge.mode) {
                    Some(m) => m,
                    None => EchMode::Doh,
                };
                let max_retries = match pick(e.max_retries, ge.max_retries) {
                    Some(n) => n,
                    None => DEFAULT_MAX_RETRIES,
                };
                let block = EffectiveEch {
                    mode,
                    config: pick_text(e.config.clone(), &ge.config),
                    ech_domain: pick_text(e.ech_domain.clone(), &ge.ech_domain),
                    max_retries,
                };
                let require = match pick(e.require_ech, pick(ge.require_ech, g.require_ech)) {
                    Some(b) => b,
                    None => true,
                };
                let refresh = match pick(e.ech_refresh, pick(ge.ech_refresh, g.ech_refresh)) {
                    Some(d) => d,
                    None => Duration::from_secs(DEFAULT_ECH_REFRESH_SECS),
                };
                (Some(block), require, refresh, e.ech_resolver.clone())
            },
            None => (None, true, Duration::from_secs(DEFAULT_ECH_REFRESH_SECS), None),
        };
        let address_family = match pick(self.address_family, g.address_family) {
            Some(f) => f,
            None => AddressFamily::Dual,
        };
        let connect_timeout = match pick(self.connect_timeout, g.connect_timeout) {
            Some(d) => d,
            None => Duration::from_secs(DEFAULT_CONNECT_TIMEOUT_SECS),
        };
        EffectiveResolver {
            name: name.to_owned(),
            endpoint: self.endpoint.clone(),
            upstream: self.upstream.clone(),
            sni_policy: SniPolicy::resolve(text::as_slice(&self.override_sni)),
            bootstrap: self.bootstrap.clone(),
            address_family,
            nat64_prefix: pick_text(self.nat64_prefix.clone(), &g.nat64_prefix),
            connect_timeout,
            ech,
            require_ech,
            ech_refresh,
            ech_resolver,
        }
    }
}

// ---------------------------------------------------------------------------
// Laws
// ---------------------------------------------------------------------------

/// A value set on the route wins over every scope around it.
pub proof fn law_route_wins<T>(p: Place, f: spec_fn(CommonOpts) -> Option<T>)
    requires
        f(p.route.common) is Some,
    ensures
        p.common(f) == f(p.route.common),
{
}

/// A route's own value beats its template's, which beats the listener's, which
/// beats the listener's template's, which beats the global one.
pub proof fn law_nearest_scope_wins<T>(p: Place, f: spec_fn(CommonOpts) -> Option<T>)
    ensures
        f(p.route.common) is None && from_common(p.route_template, f) is Some ==> p.common(f) == from_common(
            p.route_template,
            f,
        ),
        f(p.route.common) is None && from_common(p.route_template, f) is None && f(p.listener.common) is Some
            ==> p.common(f) == f(p.listener.common),
        f(p.route.common) is None && from_common(p.route_template, f) is None && f(p.listener.common) is None
            && from_common(p.listener_template, f) is Some ==> p.common(f) == from_common(p.listener_template, f),
        f(p.route.common) is None && from_common(p.route_template, f) is None && f(p.listener.common) is None
            && from_common(p.listener_template, f) is None ==> p.common(f) == f(p.global.common),
{
}

/// The ECH block inherits field by field: setting one field near the route does
/// not hide another that only an outer scope sets.
pub proof fn law_ech_fields_inherit_alone<T, U>(
    p: Place,
    f: spec_fn(EchConfig) -> Option<T>,
    g: spec_fn(EchConfig) -> Option<U>,
)
    requires
        from_ech(p.route.ech, f) is Some,
        from_ech(p.route.ech, g) is None,
        from_ech(template_ech(p.route_template), g) is None,
        from_ech(p.listener.ech, g) is None,
        from_ech(template_ech(p.listener_template), g) is None,
    ensures
        p.ech(f) == from_ech(p.route.ech, f),
        p.ech(g) == from_ech(p.global.ech, g),
{
}

/// A listener's template supplies common options to the listener's routes, but
/// neither an upstream nor a type nor an SNI override.
pub proof fn law_listener_template_is_not_a_route_scope(p: Place, other: Option<Template>)
    ensures
        (Place { listener_template: other, ..p }).route_type() == p.route_type(),
        (Place { listener_template: other, ..p }).fail() == p.fail(),
{
}

/// A blank `override_sni` on a route is no unset value: it hides the template's.
pub proof fn law_blank_override_hides_the_template(route: Route, template: Option<Template>)
    requires
        route.override_sni is Some,
        text::trim(route.override_sni->0@).len() == 0,
    ensures
        config::sni_policy_of(override_sni_of(route, template)) == SniView::Omit,
{
}

/// The common options around a route, the nearest first.
pub open spec fn common_scopes(p: Place) -> Seq<CommonOpts> {
    seq![p.route.common] + (match p.route_template {
        Some(t) => seq![t.common],
        None => Seq::empty(),
    }) + seq![p.listener.common] + (match p.listener_template {
        Some(t) => seq![t.common],
        None => Seq::empty(),
    }) + seq![p.global.common]
}

/// The ECH blocks around a route, the nearest first.
pub open spec fn ech_scopes(p: Place) -> Seq<EchConfig> {
    block(p.route.ech) + (match p.route_template {
        Some(t) => block(t.ech),
        None => Seq::empty(),
    }) + block(p.listener.ech) + (match p.listener_template {
        Some(t) => block(t.ech),
        None => Seq::empty(),
    }) + block(p.global.ech)
}

/// The HTTP/2 blocks around a route, the nearest first.
pub open spec fn http2_scopes(p: Place) -> Seq<Http2Config> {
    block(p.route.http2) + (match p.route_template {
        Some(t) => block(t.http2),
        None => Seq::empty(),
    }) + block(p.listener.http2) + (match p.listener_template {
        Some(t) => block(t.http2),
        None => Seq::empty(),
    }) + block(p.global.http2)
}

/// A block, if there is one.
pub open spec fn block<T>(b: Option<T>) -> Seq<T> {
    match b {
        Some(b) => seq![b],
        None => Seq::empty(),
    }
}

/// Whether a place in a list of scopes is the first that sets a value.
pub open spec fn sets_first<S, T>(scopes: Seq<S>, f: spec_fn(S) -> Option<T>, k: int) -> bool {
    &&& 0 <= k < scopes.len()
    &&& f(scopes[k]) is Some
    &&& forall|j: int| 0 <= j < k ==> f(#[trigger] scopes[j]) is None
}

/// Whether no scope sets a value.
pub open spec fn unset_in<S, T>(scopes: Seq<S>, f: spec_fn(S) -> Option<T>) -> bool {
    forall|j: int| 0 <= j < scopes.len() ==> f(#[trigger] scopes[j]) is None
}

/// What a list of scopes sets first.
spec fn first_set<S, T>(scopes: Seq<S>, f: spec_fn(S) -> Option<T>) -> Option<T>
    decreases scopes.len(),
{
    if scopes.len() == 0 {
        None
    } else if f(scopes[0]) is Some {
        f(scopes[0])
    } else {
        first_set(scopes.skip(1), f)
    }
}

proof fn lemma_first_set<S, T>(scopes: Seq<S>, f: spec_fn(S) -> Option<T>)
    ensures
        forall|k: int| sets_first(scopes, f, k) ==> first_set(scopes, f) == f(scopes[k]),
        unset_in(scopes, f) ==> first_set(scopes, f) is None,
    decreases scopes.len(),
{
    if scopes.len() > 0 {
        let rest = scopes.skip(1);
        lemma_first_set(rest, f);
        if f(scopes[0]) is None {
            assert forall|k: int| sets_first(scopes, f, k) implies first_set(scopes, f) == f(scopes[k]) by {
                assert(rest[k - 1] == scopes[k]);
                assert forall|j: int| 0 <= j < k - 1 implies f(#[trigger] rest[j]) is None by {
                    assert(rest[j] == scopes[j + 1]);
                }
                assert(sets_first(rest, f, k - 1));
            }
            if unset_in(scopes, f) {
                assert forall|j: int| 0 <= j < rest.len() implies f(#[trigger] rest[j]) is None by {
                    assert(rest[j] == scopes[j + 1]);
                }
            }
        } else {
            assert forall|k: int| sets_first(scopes, f, k) implies k == 0 by {
                if k > 0 {
                    assert(f(scopes[0]) is None);
                }
            }
        }
    }
}

proof fn lemma_set_before<S, T>(a: Option<S>, b: Seq<S>, f: spec_fn(S) -> Option<T>)
    ensures
        first_set(block(a) + b, f) == or(
            (match a {
                Some(s) => f(s),
                None => None,
            }),
            first_set(b, f),
        ),
{
    match a {
        Some(s) => {
            let all = block(a) + b;
            assert(all[0] == s);
            assert(all.skip(1) =~= b);
        },
        None => {
            assert(block(a) + b =~= b);
        },
    }
}

proof fn lemma_common_walk<T>(p: Place, f: spec_fn(CommonOpts) -> Option<T>)
    ensures
        p.common(f) == first_set(common_scopes(p), f),
{
    let rt = match p.route_template {
        Some(t) => Some(t.common),
        None => None,
    };
    let lt = match p.listener_template {
        Some(t) => Some(t.common),
        None => None,
    };
    let g = block(Some(p.global.common));
    let none = Seq::<CommonOpts>::empty();
    lemma_set_before(Some(p.global.common), none, f);
    assert(g + none =~= g);
    lemma_set_before(lt, g, f);
    lemma_set_before(Some(p.listener.common), block(lt) + g, f);
    lemma_set_before(rt, block(Some(p.listener.common)) + (block(lt) + g), f);
    lemma_set_before(
        Some(p.route.common),
        block(rt) + (block(Some(p.listener.common)) + (block(lt) + g)),
        f,
    );
    assert(common_scopes(p) =~= block(Some(p.route.common)) + (block(rt) + (block(Some(p.listener.common)) + (
    block(lt) + g))));
}

proof fn lemma_ech_walk<T>(p: Place, f: spec_fn(EchConfig) -> Option<T>)
    ensures
        p.ech(f) == first_set(ech_scopes(p), f),
{
    let rt = template_ech(p.route_template);
    let lt = template_ech(p.listener_template);
    let none = Seq::<EchConfig>::empty();
    let g = block(p.global.ech);
    lemma_set_before(p.global.ech, none, f);
    assert(g + none =~= g);
    lemma_set_before(lt, g, f);
    lemma_set_before(p.listener.ech, block(lt) + g, f);
    lemma_set_before(rt, block(p.listener.ech) + (block(lt) + g), f);
    lemma_set_before(p.route.ech, block(rt) + (block(p.listener.ech) + (block(lt) + g)), f);
    assert(ech_scopes(p) =~= block(p.route.ech) + (block(rt) + (block(p.listener.ech) + (block(lt) + g))));
}

proof fn lemma_http2_walk<T>(p: Place, f: spec_fn(Http2Config) -> Option<T>)
    ensures
        p.http2(f) == first_set(http2_scopes(p), f),
{
    let rt = template_http2(p.route_template);
    let lt = template_http2(p.listener_template);
    let none = Seq::<Http2Config>::empty();
    let g = block(p.global.http2);
    lemma_set_before(p.global.http2, none, f);
    assert(g + none =~= g);
    lemma_set_before(lt, g, f);
    lemma_set_before(p.listener.http2, block(lt) + g, f);
    lemma_set_before(rt, block(p.listener.http2) + (block(lt) + g), f);
    lemma_set_before(p.route.http2, block(rt) + (block(p.listener.http2) + (block(lt) + g)), f);
    assert(http2_scopes(p) =~= block(p.route.http2) + (block(rt) + (block(p.listener.http2) + (block(lt) + g))));
}

/// Each plain option of a route is what the nearest scope that sets it says; where none
/// does, a connection is set up within 15 seconds and closed after 300 idle ones, both
/// address families are used, and nothing is projected.
pub proof fn law_options_come_from_the_nearest_scope(p: Place, r: Effective, k: int)
    requires
        is_effective(p, r),
    ensures
        ({
            let s = common_scopes(p);
            &&& sets_first(s, |c: CommonOpts| c.connect_timeout, k) ==> Some(r.connect_timeout) == s[k].connect_timeout
            &&& unset_in(s, |c: CommonOpts| c.connect_timeout) ==> r.connect_timeout.nanos == 15000000000
            &&& sets_first(s, |c: CommonOpts| c.idle_timeout, k) ==> Some(r.idle_timeout) == s[k].idle_timeout
            &&& unset_in(s, |c: CommonOpts| c.idle_timeout) ==> r.idle_timeout.nanos == 300000000000
            &&& sets_first(s, |c: CommonOpts| c.address_family, k) ==> Some(r.address_family) == s[k].address_family
            &&& unset_in(s, |c: CommonOpts| c.address_family) ==> r.address_family == AddressFamily::Dual
            &&& sets_first(s, |c: CommonOpts| c.nat64_prefix, k) ==> r.nat64_prefix == s[k].nat64_prefix
            &&& unset_in(s, |c: CommonOpts| c.nat64_prefix) ==> r.nat64_prefix is None
        }),
{
    let s = common_scopes(p);
    let a = |c: CommonOpts| c.connect_timeout;
    let b = |c: CommonOpts| c.idle_timeout;
    let d = |c: CommonOpts| c.address_family;
    let e = |c: CommonOpts| c.nat64_prefix;
    lemma_common_walk(p, a);
    lemma_first_set(s, a);
    lemma_common_walk(p, b);
    lemma_first_set(s, b);
    lemma_common_walk(p, d);
    lemma_first_set(s, d);
    lemma_common_walk(p, e);
    lemma_first_set(s, e);
}

/// The resolver of upstream addresses is what the nearest scope that names one says, its
/// `addr_resolver` before its `resolver`.
pub proof fn law_address_resolver_is_the_nearest(p: Place, r: Effective, k: int)
    requires
        is_effective(p, r),
        0 <= k < common_scopes(p).len(),
        forall|j: int|
            0 <= j < k ==> (#[trigger] common_scopes(p)[j]).addr_resolver is None && common_scopes(p)[j].resolver is None,
    ensures
        common_scopes(p)[k].addr_resolver is Some ==> r.addr_resolver == common_scopes(p)[k].addr_resolver,
        common_scopes(p)[k].addr_resolver is None && common_scopes(p)[k].resolver is Some ==> r.addr_resolver
            == common_scopes(p)[k].resolver,
{
    let s = common_scopes(p);
    let f = |c: CommonOpts| or(c.addr_resolver, c.resolver);
    lemma_common_walk(p, f);
    lemma_first_set(s, f);
    if f(s[k]) is Some {
        assert forall|j: int| 0 <= j < k implies f(#[trigger] s[j]) is None by {}
        assert(sets_first(s, f, k));
    }
}

/// The resolver of ECH configs is what the nearest ECH block that names one says; where
/// none does, what the nearest scope says, its `ech_resolver` before its `resolver`.
pub proof fn law_ech_resolver_is_the_nearest(p: Place, r: Effective, k: int)
    requires
        is_effective(p, r),
    ensures
        ({
            let blocks = ech_scopes(p);
            let s = common_scopes(p);
            &&& sets_first(blocks, |e: EchConfig| e.ech_resolver, k) ==> r.ech_resolver == blocks[k].ech_resolver
            &&& unset_in(blocks, |e: EchConfig| e.ech_resolver) && 0 <= k < s.len() && (forall|j: int|
                0 <= j < k ==> (#[trigger] s[j]).ech_resolver is None && s[j].resolver is None) ==> {
                &&& s[k].ech_resolver is Some ==> r.ech_resolver == s[k].ech_resolver
                &&& s[k].ech_resolver is None && s[k].resolver is Some ==> r.ech_resolver == s[k].resolver
            }
        }),
{
    let blocks = ech_scopes(p);
    let s = common_scopes(p);
    let e = |e: EchConfig| e.ech_resolver;
    let f = |c: CommonOpts| or(c.ech_resolver, c.resolver);
    lemma_ech_walk(p, e);
    lemma_first_set(blocks, e);
    lemma_common_walk(p, f);
    lemma_first_set(s, f);
    if 0 <= k < s.len() && f(s[k]) is Some && (forall|j: int|
        0 <= j < k ==> (#[trigger] s[j]).ech_resolver is None && s[j].resolver is None) {
        assert forall|j: int| 0 <= j < k implies f(#[trigger] s[j]) is None by {}
        assert(sets_first(s, f, k));
    }
}

/// Whether ECH is required, and how long a config is kept, is what the nearest ECH block
/// says, else what the nearest scope says, else that it is required and one hour.
pub proof fn law_ech_demands_come_from_the_nearest_block(p: Place, r: Effective, k: int)
    requires
        is_effective(p, r),
    ensures
        ({
            let blocks = ech_scopes(p);
            let s = common_scopes(p);
            &&& sets_first(blocks, |e: EchConfig| e.require_ech, k) ==> Some(r.require_ech) == blocks[k].require_ech
            &&& unset_in(blocks, |e: EchConfig| e.require_ech) && sets_first(s, |c: CommonOpts| c.require_ech, k)
                ==> Some(r.require_ech) == s[k].require_ech
            &&& unset_in(blocks, |e: EchConfig| e.require_ech) && unset_in(s, |c: CommonOpts| c.require_ech)
                ==> r.require_ech
            &&& sets_first(blocks, |e: EchConfig| e.ech_refresh, k) ==> Some(r.ech_refresh) == blocks[k].ech_refresh
            &&& unset_in(blocks, |e: EchConfig| e.ech_refresh) && sets_first(s, |c: CommonOpts| c.ech_refresh, k)
                ==> Some(r.ech_refresh) == s[k].ech_refresh
            &&& unset_in(blocks, |e: EchConfig| e.ech_refresh) && unset_in(s, |c: CommonOpts| c.ech_refresh)
                ==> r.ech_refresh.nanos == 3600000000000
        }),
{
    let blocks = ech_scopes(p);
    let s = common_scopes(p);
    let a = |e: EchConfig| e.require_ech;
    let b = |c: CommonOpts| c.require_ech;
    let d = |e: EchConfig| e.ech_refresh;
    let f = |c: CommonOpts| c.ech_refresh;
    lemma_ech_walk(p, a);
    lemma_first_set(blocks, a);
    lemma_common_walk(p, b);
    lemma_first_set(s, b);
    lemma_ech_walk(p, d);
    lemma_first_set(blocks, d);
    lemma_common_walk(p, f);
    lemma_first_set(s, f);
}

/// Each field of a route's ECH settings is what the nearest block that sets it says;
/// where none does, the config is looked up and a rejection is retried twice.
pub proof fn law_ech_fields_come_from_the_nearest_block(p: Place, r: EffectiveEch, k: int)
    requires
        is_effective_ech(p, r),
    ensures
        ({
            let s = ech_scopes(p);
            &&& sets_first(s, |e: EchConfig| e.mode, k) ==> Some(r.mode) == s[k].mode
            &&& unset_in(s, |e: EchConfig| e.mode) ==> r.mode == EchMode::Doh
            &&& sets_first(s, |e: EchConfig| e.config, k) ==> r.config == s[k].config
            &&& unset_in(s, |e: EchConfig| e.config) ==> r.config is None
            &&& sets_first(s, |e: EchConfig| e.ech_domain, k) ==> r.ech_domain == s[k].ech_domain
            &&& unset_in(s, |e: EchConfig| e.ech_domain) ==> r.ech_domain is None
            &&& sets_first(s, |e: EchConfig| e.max_retries, k) ==> Some(r.max_retries) == s[k].max_retries
            &&& unset_in(s, |e: EchConfig| e.max_retries) ==> r.max_retries == 2
        }),
{
    let s = ech_scopes(p);
    let a = |e: EchConfig| e.mode;
    let b = |e: EchConfig| e.config;
    let d = |e: EchConfig| e.ech_domain;
    let f = |e: EchConfig| e.max_retries;
    lemma_ech_walk(p, a);
    lemma_first_set(s, a);
    lemma_ech_walk(p, b);
    lemma_first_set(s, b);
    lemma_ech_walk(p, d);
    lemma_first_set(s, d);
    lemma_ech_walk(p, f);
    lemma_first_set(s, f);
}

/// Each field of a route's HTTP/2 settings is what the nearest block that sets it says,
/// except that a raw route never has HTTP/2; where no block says, it is off, and a probe
/// warns, after 3 seconds at most.
pub proof fn law_http2_fields_come_from_the_nearest_block(p: Place, r: EffectiveHttp2, k: int)
    requires
        is_effective_http2(p, r),
    ensures
        ({
            let s = http2_scopes(p);
            let raw = match p.route.route_type {
                Some(t) => t == RouteType::Raw,
                None => p.route_template matches Some(t) && t.route_type == Some(RouteType::Raw),
            };
            &&& raw ==> !r.enabled
            &&& !raw && sets_first(s, |h: Http2Config| h.enabled, k) ==> Some(r.enabled) == s[k].enabled
            &&& unset_in(s, |h: Http2Config| h.enabled) ==> !r.enabled
            &&& sets_first(s, |h: Http2Config| h.probe, k) ==> Some(r.probe) == s[k].probe
            &&& unset_in(s, |h: Http2Config| h.probe) ==> r.probe == H2Probe::Warn
            &&& sets_first(s, |h: Http2Config| h.probe_timeout, k) ==> Some(r.probe_timeout) == s[k].probe_timeout
            &&& unset_in(s, |h: Http2Config| h.probe_timeout) ==> r.probe_timeout.nanos == 3000000000
        }),
{
    let s = http2_scopes(p);
    let a = |h: Http2Config| h.enabled;
    let b = |h: Http2Config| h.probe;
    let d = |h: Http2Config| h.probe_timeout;
    lemma_http2_walk(p, a);
    lemma_first_set(s, a);
    lemma_http2_walk(p, b);
    lemma_first_set(s, b);
    lemma_http2_walk(p, d);
    lemma_first_set(s, d);
}

/// What a route says of its type, upstream, SNI and failure policy holds, else what its
/// template says; a failure policy that neither names is the global one.
pub proof fn law_route_says_itself(p: Place, t: Template)
    requires
        p.route_template == Some(t),
    ensures
        p.route.route_type is Some ==> p.route_type() == p.route.route_type,
        p.route.route_type is None ==> p.route_type() == t.route_type,
        p.route.fail is Some ==> Some(p.fail()) == p.route.fail,
        p.route.fail is None && t.fail is Some ==> Some(p.fail()) == t.fail,
        p.route.fail is None && t.fail is None ==> p.fail() == p.global.unmatched,
        p.route.upstream matches Some(u) ==> upstream_spec_of(p.route, Some(t)) == Some(u@),
        p.route.upstream is None ==> (t.upstream matches Some(u) ==> upstream_spec_of(p.route, Some(t)) == Some(u@)),
        p.route.upstream is None && t.upstream is None ==> upstream_spec_of(p.route, Some(t)) is None,
        p.route.override_sni matches Some(u) ==> override_sni_of(p.route, Some(t)) == Some(u@),
        p.route.override_sni is None ==> (t.override_sni matches Some(u) ==> override_sni_of(p.route, Some(t)) == Some(
            u@,
        )),
        p.route.override_sni is None && t.override_sni is None ==> override_sni_of(p.route, Some(t)) is None,
{
}

/// A resolver's own settings hold, else the global ones, else the same defaults as those
/// of routes; its name, endpoint, upstream and bootstrap are its own, and so is whether
/// it uses ECH at all.
pub proof fn law_resolver_says_itself(def: ResolverDef, name: Seq<char>, g: Global, r: EffectiveResolver)
    requires
        is_effective_resolver(def, name, g, r),
    ensures
        r.name@ == name,
        r.endpoint == def.endpoint,
        r.upstream == def.upstream,
        r.bootstrap == def.bootstrap,
        def.address_family is Some ==> Some(r.address_family) == def.address_family,
        def.address_family is None && g.common.address_family is Some ==> Some(r.address_family)
            == g.common.address_family,
        def.address_family is None && g.common.address_family is None ==> r.address_family == AddressFamily::Dual,
        def.nat64_prefix is Some ==> r.nat64_prefix == def.nat64_prefix,
        def.nat64_prefix is None ==> r.nat64_prefix == g.common.nat64_prefix,
        def.connect_timeout is Some ==> Some(r.connect_timeout) == def.connect_timeout,
        def.connect_timeout is None && g.common.connect_timeout is Some ==> Some(r.connect_timeout)
            == g.common.connect_timeout,
        def.connect_timeout is None && g.common.connect_timeout is None ==> r.connect_timeout.nanos == 15000000000,
        def.override_sni is None ==> r.sni_policy@ == SniView::Reflect,
        def.ech is None <==> r.ech is None,
        def.ech is None ==> r.ech_resolver is None,
        def.ech matches Some(e) ==> r.ech_resolver == e.ech_resolver,
        def.ech matches Some(e) ==> (e.require_ech is Some ==> Some(r.require_ech) == e.require_ech),
        def.ech matches Some(e) ==> (e.ech_refresh is Some ==> Some(r.ech_refresh) == e.ech_refresh),
        def.ech matches Some(e) ==> (e.mode is Some ==> Some((r.ech->0).mode) == e.mode),
        def.ech matches Some(e) ==> (e.config is Some ==> (r.ech->0).config == e.config),
        def.ech matches Some(e) ==> (e.ech_domain is Some ==> (r.ech->0).ech_domain == e.ech_domain),
        def.ech matches Some(e) ==> (e.max_retries is Some ==> Some((r.ech->0).max_retries) == e.max_retries),
{
}

/// The ECH fields that a resolver's own block leaves open are those of the global block;
/// where that says nothing either, the global options and the defaults stand.
pub proof fn law_resolver_inherits_ech_fields(def: ResolverDef, name: Seq<char>, g: Global, r: EffectiveResolver, e: EchConfig)
    requires
        is_effective_resolver(def, name, g, r),
        def.ech == Some(e),
    ensures
        g.ech matches Some(o) ==> {
            &&& e.mode is None && o.mode is Some ==> Some((r.ech->0).mode) == o.mode
            &&& e.config is None ==> (r.ech->0).config == o.config
            &&& e.ech_domain is None ==> (r.ech->0).ech_domain == o.ech_domain
            &&& e.max_retries is None && o.max_retries is Some ==> Some((r.ech->0).max_retries) == o.max_retries
            &&& e.require_ech is None && o.require_ech is Some ==> Some(r.require_ech) == o.require_ech
            &&& e.ech_refresh is None && o.ech_refresh is Some ==> Some(r.ech_refresh) == o.ech_refresh
        },
        g.ech is None ==> {
            &&& e.mode is None ==> (r.ech->0).mode == EchMode::Doh
            &&& e.config is None ==> (r.ech->0).config is None
            &&& e.ech_domain is None ==> (r.ech->0).ech_domain is None
            &&& e.max_retries is None ==> (r.ech->0).max_retries == 2
            &&& e.require_ech is None && g.common.require_ech is Some ==> Some(r.require_ech) == g.common.require_ech
            &&& e.require_ech is None && g.common.require_ech is None ==> r.require_ech
            &&& e.ech_refresh is None && g.common.ech_refresh is Some ==> Some(r.ech_refresh) == g.common.ech_refresh
            &&& e.ech_refresh is None && g.common.ech_refresh is None ==> r.ech_refresh.nanos == 3600000000000
        },
{
}

} // verus!
