//! References by name: templates, regexes and resolvers.

use super::ladder;
use super::{
    CommonOpts, Config, ConfigError, EchConfig, EffectiveResolver, Listener, RegexDef, ResolverDef, Route, RouteType,
    Template,
};
use crate::net;
use crate::text;
use vstd::prelude::*;
use vstd::slice::slice_subrange;

verus! {

// ---------------------------------------------------------------------------
// Tables
// ---------------------------------------------------------------------------

/// The first place at or behind `from` where a table declares `name`, or the
/// table's length.
pub open spec fn index_of<T>(table: Seq<(String, T)>, name: Seq<char>, from: int) -> int
    decreases table.len() - from,
{
    if from >= table.len() {
        table.len() as int
    } else if table[from].0@ == name {
        from
    } else {
        index_of(table, name, from + 1)
    }
}

/// Whether a table declares `name`.
pub open spec fn declares<T>(table: Seq<(String, T)>, name: Seq<char>) -> bool {
    index_of(table, name, 0) < table.len()
}

/// What a table declares under `name`.
pub open spec fn lookup<T>(table: Seq<(String, T)>, name: Seq<char>) -> Option<T> {
    if declares(table, name) {
        Some(table[index_of(table, name, 0)].1)
    } else {
        None
    }
}

/// The names of a table.
pub open spec fn names_of<T>(table: Seq<(String, T)>) -> Seq<Seq<char>> {
    table.map_values(|e: (String, T)| e.0@)
}

/// A name is found where it stands, and only where it stands.
pub proof fn lemma_index_of<T>(table: Seq<(String, T)>, name: Seq<char>, from: int)
    requires
        0 <= from,
    ensures
        index_of(table, name, from) < table.len() ==> from <= index_of(table, name, from) && table[index_of(
            table,
            name,
            from,
        )].0@ == name,
        index_of(table, name, from) < table.len() <==> exists|k: int|
            from <= k < table.len() && (#[trigger] table[k]).0@ == name,
    decreases table.len() - from,
{
    if from < table.len() {
        lemma_index_of(table, name, from + 1);
        if table[from].0@ != name {
            if exists|k: int| from <= k < table.len() && (#[trigger] table[k]).0@ == name {
                let k = choose|k: int| from <= k < table.len() && (#[trigger] table[k]).0@ == name;
                assert(from + 1 <= k);
            }
        }
    }
}

/// Find a name in a table.
pub(crate) fn find<'a, T>(table: &'a Vec<(String, T)>, name: &str) -> (r: Option<&'a T>)
    ensures
        match r {
            Some(v) => lookup(table@, name@) == Some(*v),
            None => lookup(table@, name@) is None,
        },
{
    let mut i: usize = 0;
    while i < table.len()
        invariant
            i <= table@.len(),
            index_of(table@, name@, 0) == index_of(table@, name@, i as int),
        decreases table@.len() - i,
    {
        if text::same_text(table[i].0.as_str(), name) {
            return Some(&table[i].1);
        }
        i = i + 1;
    }
    None
}

// ---------------------------------------------------------------------------
// References
// ---------------------------------------------------------------------------

/// Whether a text is a reference by name: an `@`, after leading white space.
pub open spec fn is_ref(s: Seq<char>) -> bool {
    text::trim(s).len() > 0 && text::trim(s)[0] == '@'
}

/// The name that a reference gives.
pub open spec fn ref_name(s: Seq<char>) -> Seq<char> {
    text::trim(s).drop_first()
}

/// That a name is not declared.
pub open spec fn unknown(kind: Seq<char>, name: Seq<char>, section: Seq<char>) -> Seq<char> {
    "unknown "@ + kind + " "@ + text::quoted(name) + " (no matching ["@ + section + "."@ + name + "])"@
}

fn unknown_message(kind: &str, name: &str, section: &str) -> (r: String)
    ensures
        r@ == unknown(kind@, name@, section@),
{
    let mut out = "unknown ".to_owned();
    text::push_text(&mut out, kind);
    text::push_text(&mut out, " ");
    text::push_text(&mut out, text::quote(name).as_str());
    text::push_text(&mut out, " (no matching [");
    text::push_text(&mut out, section);
    text::push_text(&mut out, ".");
    text::push_text(&mut out, name);
    text::push_text(&mut out, "])");
    out
}

fn reference_name(s: &str) -> (r: Option<String>)
    ensures
        match r {
            Some(name) => is_ref(s@) && name@ == ref_name(s@),
            None => !is_ref(s@),
        },
{
    let t = text::trimmed_chars(s);
    if t.len() > 0 && t[0] == '@' {
        let name = text::string_of(slice_subrange(t.as_slice(), 1, t.len()));
        assert(name@ =~= ref_name(s@));
        Some(name)
    } else {
        None
    }
}

/// Why a regex reference does not resolve.
pub open spec fn regex_ref_problem(regexes: Seq<(String, RegexDef)>, pattern: Seq<char>) -> Option<Seq<char>> {
    if !is_ref(pattern) {
        Some("invalid regex reference "@ + text::quoted(pattern) + " (must start with @)"@)
    } else if ref_name(pattern).len() == 0 {
        Some("regex reference cannot be bare '@' (expected @<name>)"@)
    } else if !declares(regexes, ref_name(pattern)) {
        Some(unknown("regex"@, ref_name(pattern), "regexes"@))
    } else {
        None
    }
}

/// Why a resolver reference does not resolve.
pub open spec fn resolver_ref_problem(resolvers: Seq<(String, ResolverDef)>, spec: Seq<char>) -> Option<Seq<char>> {
    if !is_ref(spec) {
        Some("invalid resolver reference "@ + text::quoted(spec) + " (must start with @)"@)
    } else if ref_name(spec).len() == 0 {
        Some("resolver reference cannot be bare '@' (expected @<name>)"@)
    } else if !declares(resolvers, ref_name(spec)) {
        Some(unknown("resolver"@, ref_name(spec), "resolvers"@))
    } else {
        None
    }
}

/// What a template reference means: nothing, a template, or a mistake.
pub open spec fn template_of(templates: Seq<(String, Template)>, name: Option<Seq<char>>) -> Result<
    Option<Template>,
    Seq<char>,
> {
    match name {
        None => Ok(None),
        Some(n) => match lookup(templates, n) {
            Some(t) => Ok(Some(t)),
            None => Err(unknown("template"@, n, "templates"@)),
        },
    }
}

impl Config {
    /// Resolve the name of a template. No name is no template; an unknown name is
    /// an error.
    pub fn template_for(&self, name: &Option<String>) -> (r: Result<Option<&Template>, ConfigError>)
        ensures
            match r {
                Ok(Some(t)) => template_of(self.templates@, text::opt_text(*name)) == Ok::<_, Seq<char>>(Some(*t)),
                Ok(None) => template_of(self.templates@, text::opt_text(*name)) == Ok::<Option<Template>, Seq<char>>(
                    None,
                ),
                Err(e) => template_of(self.templates@, text::opt_text(*name)) == Err::<Option<Template>, Seq<char>>(
                    e.text(),
                ),
            },
    {
        match name {
            None => Ok(None),
            Some(n) => match find(&self.templates, n.as_str()) {
                Some(t) => Ok(Some(t)),
                None => Err(ConfigError::Invalid(unknown_message("template", n.as_str(), "templates"))),
            },
        }
    }

    /// Whether a pattern refers to a declared regex. No domain name starts with
    /// `@`, so this is never ambiguous.
    pub fn is_regex_ref(pattern: &str) -> (r: bool)
        ensures
            r == is_ref(pattern@),
    {
        let t = text::trimmed_chars(pattern);
        t.len() > 0 && t[0] == '@'
    }

    /// Look up a regex by its bare name.
    pub fn regex_def(&self, name: &str) -> (r: Result<&RegexDef, ConfigError>)
        ensures
            match r {
                Ok(def) => lookup(self.regexes@, name@) == Some(*def),
                Err(e) => lookup(self.regexes@, name@) is None && e.text() == unknown("regex"@, name@, "regexes"@),
            },
    {
        match find(&self.regexes, name) {
            Some(def) => Ok(def),
            None => Err(ConfigError::Invalid(unknown_message("regex", name, "regexes"))),
        }
    }

    /// Look up a regex by a reference to it.
    pub fn resolve_regex_ref(&self, pattern: &str) -> (r: Result<&RegexDef, ConfigError>)
        ensures
            match r {
                Ok(def) => regex_ref_problem(self.regexes@, pattern@) is None && lookup(
                    self.regexes@,
                    ref_name(pattern@),
                ) == Some(*def),
                Err(e) => regex_ref_problem(self.regexes@, pattern@) == Some(e.text()),
            },
    {
        match reference_name(pattern) {
            None => Err(
                ConfigError::Invalid(
                    text::concat3("invalid regex reference ", text::quote(pattern).as_str(), " (must start with @)"),
                ),
            ),
            Some(name) => {
                if name.as_str().unicode_len() == 0 {
                    return Err(
                        ConfigError::Invalid("regex reference cannot be bare '@' (expected @<name>)".to_owned()),
                    );
                }
                self.regex_def(name.as_str())
            },
        }
    }

    /// Whether a resolver spec refers to a declared resolver. No inline endpoint
    /// starts with `@`, so this is never ambiguous.
    pub fn is_resolver_ref(spec: &str) -> (r: bool)
        ensures
            r == is_ref(spec@),
    {
        let t = text::trimmed_chars(spec);
        t.len() > 0 && t[0] == '@'
    }

    /// Look up a resolver by its bare name.
    pub fn resolver_def(&self, name: &str) -> (r: Result<&ResolverDef, ConfigError>)
        ensures
            match r {
                Ok(def) => lookup(self.resolvers@, name@) == Some(*def),
                Err(e) => lookup(self.resolvers@, name@) is None && e.text() == unknown(
                    "resolver"@,
                    name@,
                    "resolvers"@,
                ),
            },
    {
        match find(&self.resolvers, name) {
            Some(def) => Ok(def),
            None => Err(ConfigError::Invalid(unknown_message("resolver", name, "resolvers"))),
        }
    }

    /// Look up a resolver by a reference to it.
    pub fn resolve_resolver_ref(&self, spec: &str) -> (r: Result<&ResolverDef, ConfigError>)
        ensures
            match r {
                Ok(def) => resolver_ref_problem(self.resolvers@, spec@) is None && lookup(
                    self.resolvers@,
                    ref_name(spec@),
                ) == Some(*def),
                Err(e) => resolver_ref_problem(self.resolvers@, spec@) == Some(e.text()),
            },
    {
        match reference_name(spec) {
            None => Err(
                ConfigError::Invalid(
                    text::concat3("invalid resolver reference ", text::quote(spec).as_str(), " (must start with @)"),
                ),
            ),
            Some(name) => {
                if name.as_str().unicode_len() == 0 {
                    return Err(
                        ConfigError::Invalid("resolver reference cannot be bare '@' (expected @<name>)".to_owned()),
                    );
                }
                self.resolver_def(name.as_str())
            },
        }
    }

    /// The effective settings of a declared resolver.
    pub fn effective_resolver(&self, name: &str) -> (r: Result<EffectiveResolver, ConfigError>)
        ensures
            match r {
                Ok(eff) => match lookup(self.resolvers@, name@) {
                    Some(def) => ladder::is_effective_resolver(def, name@, self.global, eff),
                    None => false,
                },
                Err(e) => lookup(self.resolvers@, name@) is None && e.text() == unknown(
                    "resolver"@,
                    name@,
                    "resolvers"@,
                ),
            },
    {
        match self.resolver_def(name) {
            Ok(def) => Ok(def.effective(name, &self.global)),
            Err(e) => Err(e),
        }
    }
}

// ---------------------------------------------------------------------------
// Labels
// ---------------------------------------------------------------------------

/// The name of a protocol type in labels.
pub open spec fn type_label(t: RouteType) -> Seq<char> {
    match t {
        RouteType::Ech => "ech"@,
        RouteType::Tls => "tls"@,
        RouteType::Http => "http"@,
        RouteType::Raw => "raw"@,
        RouteType::H3 => "h3"@,
        RouteType::H3Ech => "h3ech"@,
    }
}

/// How a route is called: its name, its first pattern, its type, or `route`.
pub open spec fn label_of(r: Route) -> Seq<char> {
    if r.name is Some {
        r.name->0@
    } else if r.match_sni@.len() > 0 {
        r.match_sni@[0]@
    } else if r.route_type is Some {
        type_label(r.route_type->0)
    } else {
        "route"@
    }
}

impl Route {
    /// How the route is called in logs and messages.
    pub fn label(&self) -> (r: String)
        ensures
            r@ == label_of(*self),
    {
        match &self.name {
            Some(name) => name.clone(),
            None => {
                if self.match_sni.len() > 0 {
                    return self.match_sni[0].clone();
                }
                match self.route_type {
                    Some(RouteType::Ech) => "ech".to_owned(),
                    Some(RouteType::Tls) => "tls".to_owned(),
                    Some(RouteType::Http) => "http".to_owned(),
                    Some(RouteType::Raw) => "raw".to_owned(),
                    Some(RouteType::H3) => "h3".to_owned(),
                    Some(RouteType::H3Ech) => "h3ech".to_owned(),
                    None => "route".to_owned(),
                }
            },
        }
    }
}

// ---------------------------------------------------------------------------
// Every resolver spec of the document
// ---------------------------------------------------------------------------

/// Where resolver specs stand and what they say.
pub open spec fn ref_texts(list: Seq<(String, String)>) -> Seq<(Seq<char>, Seq<char>)> {
    list.map_values(|p: (String, String)| (p.0@, p.1@))
}

/// A spec, if it is set.
pub open spec fn opt_ref(origin: Seq<char>, s: Option<String>) -> Seq<(Seq<char>, Seq<char>)> {
    match s {
        Some(s) => seq![(origin, s@)],
        None => Seq::empty(),
    }
}

/// The specs among the common options.
pub open spec fn common_refs(origin: Seq<char>, c: CommonOpts) -> Seq<(Seq<char>, Seq<char>)> {
    opt_ref(origin, c.resolver) + opt_ref(origin, c.ech_resolver) + opt_ref(origin, c.addr_resolver)
}

/// The spec of an ECH block.
pub open spec fn ech_refs(origin: Seq<char>, e: Option<EchConfig>) -> Seq<(Seq<char>, Seq<char>)> {
    match e {
        Some(e) => opt_ref(origin, e.ech_resolver),
        None => Seq::empty(),
    }
}

/// The specs of the first `n` templates.
pub open spec fn template_refs(t: Seq<(String, Template)>, n: int) -> Seq<(Seq<char>, Seq<char>)>
    decreases n,
{
    if n <= 0 {
        Seq::empty()
    } else {
        template_refs(t, n - 1) + common_refs("[templates."@ + t[n - 1].0@ + "]"@, t[n - 1].1.common) + ech_refs(
            "[templates."@ + t[n - 1].0@ + ".ech]"@,
            t[n - 1].1.ech,
        )
    }
}

/// The specs of one route.
pub open spec fn route_refs(r: Route) -> Seq<(Seq<char>, Seq<char>)> {
    common_refs("route "@ + label_of(r), r.common) + ech_refs("route "@ + label_of(r) + " [ech]"@, r.ech)
}

/// The specs of the first `n` routes.
pub open spec fn routes_refs(routes: Seq<Route>, n: int) -> Seq<(Seq<char>, Seq<char>)>
    decreases n,
{
    if n <= 0 {
        Seq::empty()
    } else {
        routes_refs(routes, n - 1) + route_refs(routes[n - 1])
    }
}

/// The routes of a listener, its default route last.
pub open spec fn all_routes(l: Listener) -> Seq<Route> {
    match l.default_route {
        Some(d) => l.routes@.push(d),
        None => l.routes@,
    }
}

/// The specs of one listener.
pub open spec fn listener_own_refs(l: Listener) -> Seq<(Seq<char>, Seq<char>)> {
    common_refs("listener "@ + net::socket_text(l.addr), l.common) + ech_refs(
        "listener "@ + net::socket_text(l.addr) + " [ech]"@,
        l.ech,
    )
}

/// The specs of the first `n` listeners.
pub open spec fn listener_refs(ls: Seq<Listener>, n: int) -> Seq<(Seq<char>, Seq<char>)>
    decreases n,
{
    if n <= 0 {
        Seq::empty()
    } else {
        listener_refs(ls, n - 1) + listener_own_refs(ls[n - 1]) + routes_refs(
            all_routes(ls[n - 1]),
            all_routes(ls[n - 1]).len() as int,
        )
    }
}

/// The specs of the first `n` resolvers.
pub open spec fn resolver_own_refs(rs: Seq<(String, ResolverDef)>, n: int) -> Seq<(Seq<char>, Seq<char>)>
    decreases n,
{
    if n <= 0 {
        Seq::empty()
    } else {
        resolver_own_refs(rs, n - 1) + opt_ref("[resolvers."@ + rs[n - 1].0@ + "] bootstrap"@, rs[n - 1].1.bootstrap)
            + ech_refs("[resolvers."@ + rs[n - 1].0@ + "].ech ech_resolver"@, rs[n - 1].1.ech)
    }
}

/// Every resolver spec of the document, with where it stands.
pub open spec fn all_refs(c: Config) -> Seq<(Seq<char>, Seq<char>)> {
    common_refs("[global]"@, c.global.common) + ech_refs("[global.ech]"@, c.global.ech) + template_refs(
        c.templates@,
        c.templates@.len() as int,
    ) + listener_refs(c.listeners@, c.listeners@.len() as int) + resolver_own_refs(
        c.resolvers@,
        c.resolvers@.len() as int,
    )
}

fn push_opt(out: &mut Vec<(String, String)>, origin: &str, s: &Option<String>)
    ensures
        ref_texts(final(out)@) == ref_texts(old(out)@) + opt_ref(origin@, *s),
{
    match s {
        Some(s) => {
            out.push((origin.to_owned(), s.clone()));
        },
        None => {},
    }
    assert(ref_texts(out@) =~= ref_texts(old(out)@) + opt_ref(origin@, *s));
}

fn push_common(out: &mut Vec<(String, String)>, origin: &str, c: &CommonOpts)
    ensures
        ref_texts(final(out)@) == ref_texts(old(out)@) + common_refs(origin@, *c),
{
    push_opt(out, origin, &c.resolver);
    push_opt(out, origin, &c.ech_resolver);
    push_opt(out, origin, &c.addr_resolver);
    assert(ref_texts(out@) =~= ref_texts(old(out)@) + common_refs(origin@, *c));
}

fn push_ech(out: &mut Vec<(String, String)>, origin: &str, e: &Option<EchConfig>)
    ensures
        ref_texts(final(out)@) == ref_texts(old(out)@) + ech_refs(origin@, *e),
{
    match e {
        Some(e) => push_opt(out, origin, &e.ech_resolver),
        None => {},
    }
    assert(ref_texts(out@) =~= ref_texts(old(out)@) + ech_refs(origin@, *e));
}

fn push_route(out: &mut Vec<(String, String)>, r: &Route)
    ensures
        ref_texts(final(out)@) == ref_texts(old(out)@) + route_refs(*r),
{
    let label = r.label();
    let origin = text::concat3("route ", label.as_str(), "");
    assert(origin@ =~= "route "@ + label_of(*r)) by {
        reveal_strlit("");
    }
    push_common(out, origin.as_str(), &r.common);
    push_ech(out, text::concat3("route ", label.as_str(), " [ech]").as_str(), &r.ech);
    assert(ref_texts(out@) =~= ref_texts(old(out)@) + route_refs(*r));
}

fn push_listener(out: &mut Vec<(String, String)>, l: &Listener)
    ensures
        ref_texts(final(out)@) == ref_texts(old(out)@) + (listener_own_refs(*l) + routes_refs(
            all_routes(*l),
            all_routes(*l).len() as int,
        )),
{
    let ghost before = ref_texts(out@);
    let mut origin = "listener ".to_owned();
    net::push_socket(&mut origin, l.addr);
    push_common(out, origin.as_str(), &l.common);
    text::push_text(&mut origin, " [ech]");
    push_ech(out, origin.as_str(), &l.ech);
    let ghost own = ref_texts(out@);
    assert(own =~= before + listener_own_refs(*l));
    let mut k: usize = 0;
    assert(own + routes_refs(all_routes(*l), 0) =~= own);
    while k < l.routes.len()
        invariant
            k <= l.routes@.len(),
            ref_texts(out@) == own + routes_refs(all_routes(*l), k as int),
        decreases l.routes@.len() - k,
    {
        push_route(out, &l.routes[k]);
        assert(all_routes(*l)[k as int] == l.routes@[k as int]);
        k = k + 1;
        assert(ref_texts(out@) =~= own + routes_refs(all_routes(*l), k as int));
    }
    match &l.default_route {
        Some(d) => {
            push_route(out, d);
            assert(all_routes(*l)[k as int] == *d);
            assert(ref_texts(out@) =~= own + routes_refs(all_routes(*l), k + 1));
        },
        None => {},
    }
    assert(ref_texts(out@) =~= before + (listener_own_refs(*l) + routes_refs(
        all_routes(*l),
        all_routes(*l).len() as int,
    )));
}

impl Config {
    /// Every resolver spec written anywhere in the document, each with where it
    /// stands.
    pub fn resolver_refs(&self) -> (r: Vec<(String, String)>)
        ensures
            ref_texts(r@) == all_refs(*self),
    {
        let mut out: Vec<(String, String)> = Vec::new();
        assert(ref_texts(out@) =~= Seq::empty());
        push_common(&mut out, "[global]", &self.global.common);
        push_ech(&mut out, "[global.ech]", &self.global.ech);
        let ghost head = ref_texts(out@);
        assert(head =~= common_refs("[global]"@, self.global.common) + ech_refs("[global.ech]"@, self.global.ech));
        let mut i: usize = 0;
        assert(head + template_refs(self.templates@, 0) =~= head);
        while i < self.templates.len()
            invariant
                i <= self.templates@.len(),
                ref_texts(out@) == head + template_refs(self.templates@, i as int),
            decreases self.templates@.len() - i,
        {
            let name = self.templates[i].0.as_str();
            push_common(&mut out, text::concat3("[templates.", name, "]").as_str(), &self.templates[i].1.common);
            push_ech(&mut out, text::concat3("[templates.", name, ".ech]").as_str(), &self.templates[i].1.ech);
            i = i + 1;
            assert(ref_texts(out@) =~= head + template_refs(self.templates@, i as int));
        }
        let ghost head = ref_texts(out@);
        let mut i: usize = 0;
        assert(head + listener_refs(self.listeners@, 0) =~= head);
        while i < self.listeners.len()
            invariant
                i <= self.listeners@.len(),
                ref_texts(out@) == head + listener_refs(self.listeners@, i as int),
            decreases self.listeners@.len() - i,
        {
            push_listener(&mut out, &self.listeners[i]);
            i = i + 1;
            assert(ref_texts(out@) =~= head + listener_refs(self.listeners@, i as int));
        }
        let ghost head = ref_texts(out@);
        let mut i: usize = 0;
        assert(head + resolver_own_refs(self.resolvers@, 0) =~= head);
        while i < self.resolvers.len()
            invariant
                i <= self.resolvers@.len(),
                ref_texts(out@) == head + resolver_own_refs(self.resolvers@, i as int),
            decreases self.resolvers@.len() - i,
        {
            let name = self.resolvers[i].0.as_str();
            push_opt(
                &mut out,
                text::concat3("[resolvers.", name, "] bootstrap").as_str(),
                &self.resolvers[i].1.bootstrap,
            );
            push_ech(
                &mut out,
                text::concat3("[resolvers.", name, "].ech ech_resolver").as_str(),
                &self.resolvers[i].1.ech,
            );
            i = i + 1;
            assert(ref_texts(out@) =~= head + resolver_own_refs(self.resolvers@, i as int));
        }
        out
    }
}

// ---------------------------------------------------------------------------
// Laws
// ---------------------------------------------------------------------------

/// Whether a spec is among those of a document.
pub open spec fn lists(refs: Seq<(Seq<char>, Seq<char>)>, s: Seq<char>) -> bool {
    exists|k: int| 0 <= k < refs.len() && (#[trigger] refs[k]).1 == s
}

proof fn lemma_lists_sum(a: Seq<(Seq<char>, Seq<char>)>, b: Seq<(Seq<char>, Seq<char>)>, s: Seq<char>)
    ensures
        lists(a, s) ==> lists(a + b, s),
        lists(b, s) ==> lists(a + b, s),
{
    if lists(a, s) {
        let k = choose|k: int| 0 <= k < a.len() && (#[trigger] a[k]).1 == s;
        assert((a + b)[k] == a[k]);
    }
    if lists(b, s) {
        let k = choose|k: int| 0 <= k < b.len() && (#[trigger] b[k]).1 == s;
        assert((a + b)[a.len() + k] == b[k]);
    }
}

proof fn lemma_lists_common(origin: Seq<char>, c: CommonOpts, s: String)
    requires
        c.resolver == Some(s) || c.ech_resolver == Some(s) || c.addr_resolver == Some(s),
    ensures
        lists(common_refs(origin, c), s@),
{
    let a = opt_ref(origin, c.resolver);
    let b = opt_ref(origin, c.ech_resolver);
    let d = opt_ref(origin, c.addr_resolver);
    lemma_lists_sum(a, b, s@);
    lemma_lists_sum(a + b, d, s@);
    if c.resolver == Some(s) {
        assert(a[0].1 == s@);
    } else if c.ech_resolver == Some(s) {
        assert(b[0].1 == s@);
    } else {
        assert(d[0].1 == s@);
    }
}

/// Whether a spec is what common options or an ECH block name.
pub open spec fn names_resolver(c: CommonOpts, e: Option<EchConfig>, s: String) -> bool {
    ||| c.resolver == Some(s)
    ||| c.ech_resolver == Some(s)
    ||| c.addr_resolver == Some(s)
    ||| e matches Some(e) && e.ech_resolver == Some(s)
}

proof fn lemma_lists_block(o: Seq<char>, p: Seq<char>, c: CommonOpts, e: Option<EchConfig>, s: String)
    requires
        names_resolver(c, e, s),
    ensures
        lists(common_refs(o, c) + ech_refs(p, e), s@),
{
    lemma_lists_sum(common_refs(o, c), ech_refs(p, e), s@);
    if c.resolver == Some(s) || c.ech_resolver == Some(s) || c.addr_resolver == Some(s) {
        lemma_lists_common(o, c, s);
    } else {
        assert(ech_refs(p, e)[0].1 == s@);
    }
}

proof fn lemma_lists_template(t: Seq<(String, Template)>, i: int, n: int, s: String)
    requires
        0 <= i < n <= t.len(),
        names_resolver(t[i].1.common, t[i].1.ech, s),
    ensures
        lists(template_refs(t, n), s@),
    decreases n,
{
    let o = "[templates."@ + t[n - 1].0@ + "]"@;
    let p = "[templates."@ + t[n - 1].0@ + ".ech]"@;
    let c = common_refs(o, t[n - 1].1.common);
    let e = ech_refs(p, t[n - 1].1.ech);
    assert(template_refs(t, n) =~= template_refs(t, n - 1) + (c + e));
    lemma_lists_sum(template_refs(t, n - 1), c + e, s@);
    if i == n - 1 {
        lemma_lists_block(o, p, t[i].1.common, t[i].1.ech, s);
    } else {
        lemma_lists_template(t, i, n - 1, s);
    }
}

proof fn lemma_lists_routes(routes: Seq<Route>, i: int, n: int, s: String)
    requires
        0 <= i < n <= routes.len(),
        names_resolver(routes[i].common, routes[i].ech, s),
    ensures
        lists(routes_refs(routes, n), s@),
    decreases n,
{
    lemma_lists_sum(routes_refs(routes, n - 1), route_refs(routes[n - 1]), s@);
    if i == n - 1 {
        let r = routes[i];
        lemma_lists_block("route "@ + label_of(r), "route "@ + label_of(r) + " [ech]"@, r.common, r.ech, s);
    } else {
        lemma_lists_routes(routes, i, n - 1, s);
    }
}

proof fn lemma_lists_listener(ls: Seq<Listener>, i: int, n: int, s: Seq<char>)
    requires
        0 <= i < n <= ls.len(),
        lists(listener_own_refs(ls[i]), s) || lists(
            routes_refs(all_routes(ls[i]), all_routes(ls[i]).len() as int),
            s,
        ),
    ensures
        lists(listener_refs(ls, n), s),
    decreases n,
{
    let a = listener_refs(ls, n - 1);
    let b = listener_own_refs(ls[n - 1]);
    let d = routes_refs(all_routes(ls[n - 1]), all_routes(ls[n - 1]).len() as int);
    lemma_lists_sum(a, b, s);
    lemma_lists_sum(a + b, d, s);
    if i < n - 1 {
        lemma_lists_listener(ls, i, n - 1, s);
    }
}

proof fn lemma_lists_resolver(rs: Seq<(String, ResolverDef)>, i: int, n: int, s: String)
    requires
        0 <= i < n <= rs.len(),
        rs[i].1.bootstrap == Some(s) || (rs[i].1.ech matches Some(e) && e.ech_resolver == Some(s)),
    ensures
        lists(resolver_own_refs(rs, n), s@),
    decreases n,
{
    let a = resolver_own_refs(rs, n - 1);
    let b = opt_ref("[resolvers."@ + rs[n - 1].0@ + "] bootstrap"@, rs[n - 1].1.bootstrap);
    let d = ech_refs("[resolvers."@ + rs[n - 1].0@ + "].ech ech_resolver"@, rs[n - 1].1.ech);
    lemma_lists_sum(a, b, s@);
    lemma_lists_sum(a + b, d, s@);
    if i == n - 1 {
        if rs[i].1.bootstrap == Some(s) {
            assert(b[0].1 == s@);
        } else {
            assert(d[0].1 == s@);
        }
    } else {
        lemma_lists_resolver(rs, i, n - 1, s);
    }
}

/// Every resolver that a document names is listed, wherever it stands: in the global
/// scope, a template, a listener, a route, a default route, or another resolver.
#[verifier::rlimit(60)]
pub proof fn law_every_spec_is_listed(c: Config, i: int, k: int, s: String)
    ensures
        names_resolver(c.global.common, c.global.ech, s) ==> lists(all_refs(c), s@),
        0 <= i < c.templates@.len() && names_resolver(c.templates@[i].1.common, c.templates@[i].1.ech, s) ==> lists(
            all_refs(c),
            s@,
        ),
        0 <= i < c.listeners@.len() && names_resolver(c.listeners@[i].common, c.listeners@[i].ech, s) ==> lists(
            all_refs(c),
            s@,
        ),
        0 <= i < c.listeners@.len() && 0 <= k < c.listeners@[i].routes@.len() && names_resolver(
            c.listeners@[i].routes@[k].common,
            c.listeners@[i].routes@[k].ech,
            s,
        ) ==> lists(all_refs(c), s@),
        0 <= i < c.listeners@.len() ==> (c.listeners@[i].default_route matches Some(d) ==> (names_resolver(
            d.common,
            d.ech,
            s,
        ) ==> lists(all_refs(c), s@))),
        0 <= i < c.resolvers@.len() && c.resolvers@[i].1.bootstrap == Some(s) ==> lists(all_refs(c), s@),
        0 <= i < c.resolvers@.len() ==> (c.resolvers@[i].1.ech matches Some(e) ==> (e.ech_resolver == Some(s) ==> lists(
            all_refs(c),
            s@,
        ))),
{
    let g = common_refs("[global]"@, c.global.common) + ech_refs("[global.ech]"@, c.global.ech);
    let t = template_refs(c.templates@, c.templates@.len() as int);
    let l = listener_refs(c.listeners@, c.listeners@.len() as int);
    let r = resolver_own_refs(c.resolvers@, c.resolvers@.len() as int);
    lemma_lists_sum(g, t, s@);
    lemma_lists_sum(g + t, l, s@);
    lemma_lists_sum(g + t + l, r, s@);
    assert(all_refs(c) == g + t + l + r);
    if names_resolver(c.global.common, c.global.ech, s) {
        lemma_lists_block("[global]"@, "[global.ech]"@, c.global.common, c.global.ech, s);
    }
    if 0 <= i < c.templates@.len() && names_resolver(c.templates@[i].1.common, c.templates@[i].1.ech, s) {
        lemma_lists_template(c.templates@, i, c.templates@.len() as int, s);
    }
    if 0 <= i < c.listeners@.len() {
        let n = c.listeners@.len() as int;
        let one = c.listeners@[i];
        let all = all_routes(one);
        if names_resolver(one.common, one.ech, s) {
            lemma_lists_block(
                "listener "@ + net::socket_text(one.addr),
                "listener "@ + net::socket_text(one.addr) + " [ech]"@,
                one.common,
                one.ech,
                s,
            );
            lemma_lists_listener(c.listeners@, i, n, s@);
        }
        if 0 <= k < one.routes@.len() && names_resolver(one.routes@[k].common, one.routes@[k].ech, s) {
            assert(all[k] == one.routes@[k]);
            lemma_lists_routes(all, k, all.len() as int, s);
            lemma_lists_listener(c.listeners@, i, n, s@);
        }
        if let Some(d) = one.default_route {
            if names_resolver(d.common, d.ech, s) {
                assert(all[all.len() - 1] == d);
                lemma_lists_routes(all, all.len() - 1, all.len() as int, s);
                lemma_lists_listener(c.listeners@, i, n, s@);
            }
        }
    }
    if 0 <= i < c.resolvers@.len() {
        let def = c.resolvers@[i].1;
        if def.bootstrap == Some(s) || (def.ech matches Some(e) && e.ech_resolver == Some(s)) {
            lemma_lists_resolver(c.resolvers@, i, c.resolvers@.len() as int, s);
        }
    }
}

/// A name behind an `@` refers to what is declared under that name, and resolves exactly
/// where something is.
pub proof fn law_reference_is_by_name(
    resolvers: Seq<(String, ResolverDef)>,
    regexes: Seq<(String, RegexDef)>,
    name: Seq<char>,
)
    requires
        name.len() > 0,
        !text::is_space(name.last()),
    ensures
        is_ref(seq!['@'] + name),
        resolver_ref_problem(resolvers, seq!['@'] + name) is None <==> exists|i: int|
            0 <= i < resolvers.len() && (#[trigger] resolvers[i]).0@ == name,
        regex_ref_problem(regexes, seq!['@'] + name) is None <==> exists|i: int|
            0 <= i < regexes.len() && (#[trigger] regexes[i]).0@ == name,
        name[0] != '@' ==> resolver_ref_problem(resolvers, name) is Some || text::is_space(name[0]),
{
    let s = seq!['@'] + name;
    assert(s[0] == '@' && s.last() == name.last());
    text::lemma_trimmed_already(s);
    assert(ref_name(s) =~= name);
    if !text::is_space(name[0]) {
        text::lemma_trimmed_already(name);
    }
    lemma_declared(resolvers, name);
    lemma_declared(regexes, name);
}

proof fn lemma_declared<T>(table: Seq<(String, T)>, name: Seq<char>)
    ensures
        declares(table, name) <==> exists|i: int| 0 <= i < table.len() && (#[trigger] table[i]).0@ == name,
{
    lemma_index_of(table, name, 0);
    if exists|i: int| 0 <= i < table.len() && (#[trigger] table[i]).0@ == name {
        let i = choose|i: int| 0 <= i < table.len() && (#[trigger] table[i]).0@ == name;
        assert(table[i].0@ == name);
    }
}

/// A route that uses a template by the name of a declared one gets that one.
pub proof fn law_template_is_the_one_named(templates: Seq<(String, Template)>, i: int)
    requires
        0 <= i < templates.len(),
        forall|j: int| 0 <= j < i ==> (#[trigger] templates[j]).0@ != templates[i].0@,
    ensures
        template_of(templates, None) == Ok::<Option<Template>, Seq<char>>(None),
        template_of(templates, Some(templates[i].0@)) == Ok::<Option<Template>, Seq<char>>(Some(templates[i].1)),
{
    lemma_found_at(templates, 0, i);
}

proof fn lemma_found_at<T>(table: Seq<(String, T)>, from: int, i: int)
    requires
        0 <= from <= i < table.len(),
        forall|j: int| from <= j < i ==> (#[trigger] table[j]).0@ != table[i].0@,
    ensures
        index_of(table, table[i].0@, from) == i,
    decreases i - from,
{
    if from < i {
        lemma_found_at(table, from + 1, i);
    }
}

/// A route is called by its name, else by its first pattern, else by its type.
pub proof fn law_route_is_called_by_its_name(r: Route)
    ensures
        r.name matches Some(n) ==> label_of(r) == n@,
        r.name is None && r.match_sni@.len() > 0 ==> label_of(r) == r.match_sni@[0]@,
        r.name is None && r.match_sni@.len() == 0 && r.route_type == Some(RouteType::Ech) ==> label_of(r) == "ech"@,
        r.name is None && r.match_sni@.len() == 0 && r.route_type == Some(RouteType::Tls) ==> label_of(r) == "tls"@,
        r.name is None && r.match_sni@.len() == 0 && r.route_type == Some(RouteType::Http) ==> label_of(r)
            == "http"@,
        r.name is None && r.match_sni@.len() == 0 && r.route_type == Some(RouteType::Raw) ==> label_of(r) == "raw"@,
        r.name is None && r.match_sni@.len() == 0 && r.route_type == Some(RouteType::H3) ==> label_of(r) == "h3"@,
        r.name is None && r.match_sni@.len() == 0 && r.route_type == Some(RouteType::H3Ech) ==> label_of(r)
            == "h3ech"@,
        r.name is None && r.match_sni@.len() == 0 && r.route_type is None ==> label_of(r) == "route"@,
{
}

} // verus!
