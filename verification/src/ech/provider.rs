//! The ECH configurations of one route, kept by inner name.

use super::{EchError, HttpsRecord, Mode};
use crate::config::{EchMode, EffectiveEch};
use crate::ech;
use crate::octets;
use crate::table::TextMap;
use crate::time::{Duration, Instant};
use rustls::{ClientConfig, RootCertStore};
use std::sync::Arc;
use vstd::prelude::*;

verus! {

/// How long a stale entry serves on after a failed refresh: thirty seconds.
pub const RETRY_NANOS: u128 = 30000000000;

/// A resolved mode, when to resolve it again, and the client configurations made
/// from it so far, by the protocols they offer.
#[derive(Debug)]
pub struct Cached {
    pub mode: Mode,
    pub configs: Vec<(Vec<Vec<u8>>, Arc<ClientConfig>)>,
    pub refresh_at: Instant,
    /// Tells this resolution from every other.
    pub generation: u64,
}

/// A client configuration and the resolution it was made from.
#[derive(Debug)]
pub struct EchClient {
    pub client_config: Arc<ClientConfig>,
    pub generation: u64,
}

/// What a request for a client configuration comes to.
#[derive(Debug)]
pub enum Step {
    /// There is one.
    Serve(EchClient),
    /// The source has to be asked: look up the HTTPS record of this name, or
    /// nothing for an inline source, and report with [`EchProvider::on_acquired`].
    Acquire(Option<String>),
}

/// The configuration that offers the given protocols, if it has been made.
pub open spec fn config_at(configs: Seq<(Vec<Vec<u8>>, Arc<ClientConfig>)>, alpn: Seq<Seq<u8>>) -> Option<
    Arc<ClientConfig>,
>
    decreases configs.len(),
{
    if configs.len() == 0 {
        None
    } else if octets::lists(configs.last().0@) == alpn {
        Some(configs.last().1)
    } else {
        config_at(configs.drop_last(), alpn)
    }
}

/// The ECH state of a route.
#[derive(Debug)]
pub struct EchProvider {
    pub settings: EffectiveEch,
    /// The upstream port, which the looked-up name depends on.
    pub upstream_port: u16,
    /// Whether to fail where nothing is published.
    pub require_ech: bool,
    /// Whether the inner hello names the server.
    pub enable_sni: bool,
    pub roots: Arc<RootCertStore>,
    /// The longest time between two resolutions.
    pub refresh_bound: Duration,
    pub cache: TextMap<Cached>,
    /// The generation of the next resolution.
    pub next_generation: u64,
}

/// What every configuration of an entry was made from: a mode that works.
pub open spec fn made_from(entry: Cached, roots: RootCertStore, enable_sni: bool) -> bool {
    &&& ech::workable(entry.mode@)
    &&& forall|i: int|
        0 <= i < entry.configs@.len() ==> ech::config_parts(*(#[trigger] entry.configs@[i]).1) == (ech::ConfigParts {
            mode: Some(entry.mode@),
            roots,
            sends_sni: enable_sni,
            alpn: octets::lists(entry.configs@[i].0@),
        })
}

/// How an entry answers a request for the given protocols: with the configuration
/// that it holds for them, else with a new one, which it then holds. Everything
/// else about it stays.
pub open spec fn serves(
    mode: Mode,
    refresh_at: Instant,
    generation: u64,
    configs: Seq<(Vec<Vec<u8>>, Arc<ClientConfig>)>,
    after: Cached,
    alpn: Seq<Seq<u8>>,
    client: EchClient,
) -> bool {
    &&& after.mode == mode
    &&& after.refresh_at == refresh_at
    &&& after.generation == generation
    &&& client.generation == generation
    &&& config_at(after.configs@, alpn) == Some(client.client_config)
    &&& if config_at(configs, alpn) is Some {
        after.configs@ == configs
    } else {
        &&& after.configs@.len() > 0
        &&& after.configs@.drop_last() == configs
        &&& octets::lists(after.configs@.last().0@) == alpn
    }
}

/// Whether a rejection of a generation evicts the entry of a name: only if the
/// entry is still that generation.
pub open spec fn evicts(cache: Map<Seq<char>, Cached>, inner: Seq<char>, generation: u64) -> bool {
    cache.contains_key(inner) && cache[inner].generation == generation
}

/// The entries after the rejection of a generation.
pub open spec fn after_rejection(cache: Map<Seq<char>, Cached>, inner: Seq<char>, generation: u64) -> Map<
    Seq<char>,
    Cached,
> {
    if evicts(cache, inner, generation) {
        cache.remove(inner)
    } else {
        cache
    }
}

/// Why a resolution is refused whatever the placeholder key turns out to be.
pub open spec fn refusal(
    settings: EffectiveEch,
    require_ech: bool,
    name: Seq<char>,
    answer: Result<Seq<HttpsRecord>, Seq<char>>,
) -> Option<ech::ErrorView> {
    match ech::acquired(settings, name, answer) {
        Err(e) => Some(e),
        Ok((Some(list), _)) => if ech::usable_list(list) {
            None
        } else {
            Some(ech::ErrorView::NoCompatibleConfig)
        },
        Ok((None, _)) => if require_ech {
            Some(ech::ErrorView::NoRecord(name))
        } else {
            None
        },
    }
}

/// Whether a mode and a lifetime are what a source yields: the list that it gave,
/// or a placeholder where it gave none.
pub open spec fn resolves(
    settings: EffectiveEch,
    name: Seq<char>,
    answer: Result<Seq<HttpsRecord>, Seq<char>>,
    mode: Mode,
    ttl: Option<Duration>,
) -> bool {
    match ech::acquired(settings, name, answer) {
        Ok((Some(list), t)) => mode@ == ech::ModeView::Real(list) && ttl == t,
        Ok((None, t)) => mode is Grease && ttl == t,
        Err(_) => false,
    }
}

/// Whether a refused resolution is one where a placeholder was to be made.
pub open spec fn wants_placeholder(
    settings: EffectiveEch,
    require_ech: bool,
    name: Seq<char>,
    answer: Result<Seq<HttpsRecord>, Seq<char>>,
) -> bool {
    &&& !require_ech
    &&& ech::acquired(settings, name, answer) matches Ok((None, _))
}

/// Resolve the mode of a route from what its source brought.
pub fn build(settings: &EffectiveEch, require_ech: bool, name: &str, answer: &Result<Vec<HttpsRecord>, String>) -> (r:
    Result<(Mode, Option<Duration>), EchError>)
    ensures
        match r {
            Ok((mode, ttl)) => {
                &&& refusal(*settings, require_ech, name@, ech::answer_view(*answer)) is None
                &&& resolves(*settings, name@, ech::answer_view(*answer), mode, ttl)
                &&& ttl matches Some(t) ==> t.valid()
            },
            Err(e) => match refusal(*settings, require_ech, name@, ech::answer_view(*answer)) {
                Some(x) => e@ == x,
                None => e is Rustls && wants_placeholder(*settings, require_ech, name@, ech::answer_view(*answer)),
            },
        },
{
    match ech::acquire_config_list(settings, name, answer) {
        Err(e) => Err(e),
        Ok((Some(list), ttl)) => match ech::build_real_ech_mode(list) {
            Ok(mode) => Ok((mode, ttl)),
            Err(e) => Err(e),
        },
        Ok((None, ttl)) => {
            if require_ech {
                return Err(EchError::NoRecord(name.to_owned()));
            }
            match ech::grease_mode() {
                Ok(mode) => Ok((mode, ttl)),
                Err(e) => Err(e),
            }
        },
    }
}

fn find_config(configs: &Vec<(Vec<Vec<u8>>, Arc<ClientConfig>)>, alpn: &Vec<Vec<u8>>) -> (r: Option<Arc<ClientConfig>>)
    ensures
        r == config_at(configs@, octets::lists(alpn@)),
{
    let mut i: usize = configs.len();
    assert(configs@.take(i as int) =~= configs@);
    while i > 0
        invariant
            i <= configs@.len(),
            config_at(configs@, octets::lists(alpn@)) == config_at(configs@.take(i as int), octets::lists(alpn@)),
        decreases i,
    {
        assert(configs@.take(i as int).last() == configs@[i - 1]);
        assert(configs@.take(i as int).drop_last() =~= configs@.take(i - 1));
        i = i - 1;
        if octets::same_lists(&configs[i].0, alpn) {
            return Some(Arc::clone(&configs[i].1));
        }
    }
    None
}

proof fn lemma_config_at(configs: Seq<(Vec<Vec<u8>>, Arc<ClientConfig>)>, alpn: Seq<Seq<u8>>) -> (i: int)
    requires
        config_at(configs, alpn) is Some,
    ensures
        0 <= i < configs.len(),
        octets::lists(configs[i].0@) == alpn,
        config_at(configs, alpn) == Some(configs[i].1),
    decreases configs.len(),
{
    if octets::lists(configs.last().0@) == alpn {
        configs.len() - 1
    } else {
        lemma_config_at(configs.drop_last(), alpn)
    }
}

impl EchProvider {
    /// Whether the entries agree with the route: configurations made from their
    /// entry's mode, and generations below the next one.
    pub open spec fn valid(&self) -> bool {
        &&& self.cache.valid()
        &&& self.refresh_bound.valid()
        &&& forall|inner: Seq<char>| #[trigger]
            self.cache@.contains_key(inner) ==> made_from(self.cache@[inner], *self.roots, self.enable_sni)
                && self.cache@[inner].generation < self.next_generation
    }

    /// Whether another state belongs to the same route.
    pub open spec fn same_route(&self, other: &Self) -> bool {
        &&& self.settings == other.settings
        &&& self.upstream_port == other.upstream_port
        &&& self.require_ech == other.require_ech
        &&& self.enable_sni == other.enable_sni
        &&& self.roots == other.roots
        &&& self.refresh_bound == other.refresh_bound
    }

    /// The name that is looked up for an inner name: the configured one, if any,
    /// in its place.
    pub open spec fn name_for(&self, inner: Seq<char>) -> Seq<char> {
        ech::record_name(
            match self.settings.ech_domain {
                Some(d) => d@,
                None => inner,
            },
            self.upstream_port,
        )
    }

    /// Whether there is an entry for an inner name that need not be resolved again
    /// yet.
    pub open spec fn fresh(&self, inner: Seq<char>, now: Instant) -> bool {
        self.cache@.contains_key(inner) && now.nanos < self.cache@[inner].refresh_at.nanos
    }

    /// A route with nothing resolved.
    pub fn new(
        settings: EffectiveEch,
        upstream_port: u16,
        require_ech: bool,
        enable_sni: bool,
        roots: Arc<RootCertStore>,
        refresh_bound: Duration,
    ) -> (r: Self)
        requires
            refresh_bound.valid(),
        ensures
            r.valid(),
            r.settings == settings,
            r.upstream_port == upstream_port,
            r.require_ech == require_ech,
            r.enable_sni == enable_sni,
            r.roots == roots,
            r.refresh_bound == refresh_bound,
            r.cache@ == Map::<Seq<char>, Cached>::empty(),
            r.next_generation == 1,
    {
        EchProvider {
            settings,
            upstream_port,
            require_ech,
            enable_sni,
            roots,
            refresh_bound,
            cache: TextMap::new(),
            next_generation: 1,
        }
    }

    /// The name whose HTTPS record is looked up for an inner name.
    pub fn lookup_name(&self, inner: &str) -> (r: String)
        ensures
            r@ == self.name_for(inner@),
    {
        match &self.settings.ech_domain {
            Some(domain) => ech::https_lookup_name(domain.as_str(), self.upstream_port),
            None => ech::https_lookup_name(inner, self.upstream_port),
        }
    }

    /// Let an entry answer, and keep it.
    fn serve(&mut self, inner: &str, entry: Cached, alpn: &Vec<Vec<u8>>) -> (r: EchClient)
        requires
            old(self).valid(),
            made_from(entry, *old(self).roots, old(self).enable_sni),
            entry.generation < old(self).next_generation,
        ensures
            final(self).valid(),
            final(self).same_route(old(self)),
            final(self).next_generation == old(self).next_generation,
            final(self).cache@.contains_key(inner@),
            final(self).cache@ == old(self).cache@.insert(inner@, final(self).cache@[inner@]),
            serves(
                entry.mode,
                entry.refresh_at,
                entry.generation,
                entry.configs@,
                final(self).cache@[inner@],
                octets::lists(alpn@),
                r,
            ),
    {
        let mut entry = entry;
        let generation = entry.generation;
        let config = match find_config(&entry.configs, alpn) {
            Some(config) => config,
            None => {
                let made = ech::assemble_client_config(&entry.mode, &self.roots, self.enable_sni, alpn).unwrap();
                let config = Arc::new(made);
                let ghost before = entry.configs@;
                entry.configs.push((octets::copy_lists(alpn), Arc::clone(&config)));
                assert(entry.configs@.drop_last() =~= before);
                config
            },
        };
        self.cache.set(inner.to_owned(), entry);
        EchClient { client_config: config, generation }
    }

    /// Ask for a client configuration that offers the given protocols to the server
    /// behind an inner name. A fresh entry answers; without one the source has to
    /// be asked.
    pub fn client(&mut self, inner: &str, alpn: &Vec<Vec<u8>>, now: Instant) -> (r: Step)
        requires
            old(self).valid(),
        ensures
            final(self).valid(),
            final(self).same_route(old(self)),
            final(self).next_generation == old(self).next_generation,
            if old(self).fresh(inner@, now) {
                let entry = old(self).cache@[inner@];
                &&& final(self).cache@.contains_key(inner@)
                &&& final(self).cache@ == old(self).cache@.insert(inner@, final(self).cache@[inner@])
                &&& r matches Step::Serve(client) && serves(
                    entry.mode,
                    entry.refresh_at,
                    entry.generation,
                    entry.configs@,
                    final(self).cache@[inner@],
                    octets::lists(alpn@),
                    client,
                )
            } else {
                &&& final(self).cache@ == old(self).cache@
                &&& r matches Step::Acquire(name) && match name {
                    Some(n) => old(self).settings.mode != EchMode::Static && n@ == old(self).name_for(inner@),
                    None => old(self).settings.mode == EchMode::Static,
                }
            },
    {
        let fresh = match self.cache.get(inner) {
            Some(entry) => now.nanos < entry.refresh_at.nanos,
            None => false,
        };
        if fresh {
            let entry = self.cache.remove(inner).unwrap();
            assert(old(self).cache@.contains_key(inner@));
            assert(self.valid()) by {
                assert forall|n: Seq<char>| #[trigger] self.cache@.contains_key(n) implies made_from(
                    self.cache@[n],
                    *self.roots,
                    self.enable_sni,
                ) && self.cache@[n].generation < self.next_generation by {
                    assert(old(self).cache@.contains_key(n));
                }
            }
            let client = self.serve(inner, entry, alpn);
            assert(self.cache@ =~= old(self).cache@.insert(inner@, self.cache@[inner@]));
            return Step::Serve(client);
        }
        match self.settings.mode {
            EchMode::Static => Step::Acquire(None),
            _ => Step::Acquire(Some(self.lookup_name(inner))),
        }
    }

    /// Take what the source brought. A resolved mode replaces the entry, as a new
    /// generation. Where there is none, the stale entry serves on for thirty
    /// seconds, if there is one.
    pub fn on_acquired(
        &mut self,
        inner: &str,
        alpn: &Vec<Vec<u8>>,
        now: Instant,
        answer: &Result<Vec<HttpsRecord>, String>,
    ) -> (r: Result<EchClient, EchError>)
        requires
            old(self).valid(),
            now.valid(),
            old(self).next_generation < u64::MAX,
        ensures
            final(self).valid(),
            final(self).same_route(old(self)),
            final(self).on_answer(old(self), inner@, octets::lists(alpn@), now, ech::answer_view(*answer), r),
    {
        let name = self.lookup_name(inner);
        match build(&self.settings, self.require_ech, name.as_str(), answer) {
            Ok((mode, ttl)) => {
                let span = ech::refresh_after(ttl, self.refresh_bound);
                let generation = self.next_generation;
                self.next_generation = generation + 1;
                let entry = Cached {
                    mode,
                    configs: Vec::new(),
                    refresh_at: Instant { nanos: now.nanos + span.nanos },
                    generation,
                };
                Ok(self.serve(inner, entry, alpn))
            },
            Err(e) => match self.cache.remove(inner) {
                Some(mut entry) => {
                    assert(old(self).cache@.contains_key(inner@));
                    entry.refresh_at = Instant { nanos: now.nanos + RETRY_NANOS };
                    assert(self.valid()) by {
                        assert forall|n: Seq<char>| #[trigger] self.cache@.contains_key(n) implies made_from(
                            self.cache@[n],
                            *self.roots,
                            self.enable_sni,
                        ) && self.cache@[n].generation < self.next_generation by {
                            assert(old(self).cache@.contains_key(n));
                        }
                    }
                    let client = self.serve(inner, entry, alpn);
                    assert(self.cache@ =~= old(self).cache@.insert(inner@, self.cache@[inner@]));
                    Ok(client)
                },
                None => {
                    assert(self.cache@ =~= old(self).cache@);
                    Err(e)
                },
            },
        }
    }

    /// What follows on what the source brought, `self` being the state after it.
    pub open spec fn on_answer(
        &self,
        before: &Self,
        inner: Seq<char>,
        alpn: Seq<Seq<u8>>,
        now: Instant,
        answer: Result<Seq<HttpsRecord>, Seq<char>>,
        r: Result<EchClient, EchError>,
    ) -> bool {
        let why = refusal(before.settings, before.require_ech, before.name_for(inner), answer);
        let placeholder = wants_placeholder(before.settings, before.require_ech, before.name_for(inner), answer);
        ||| why is None && self.replaced(before, inner, alpn, now, answer, r)
        ||| (why is Some || placeholder) && self.kept(before, inner, alpn, now, why, r)
    }

    /// A new generation has replaced the entry of an inner name.
    pub open spec fn replaced(
        &self,
        before: &Self,
        inner: Seq<char>,
        alpn: Seq<Seq<u8>>,
        now: Instant,
        answer: Result<Seq<HttpsRecord>, Seq<char>>,
        r: Result<EchClient, EchError>,
    ) -> bool {
        &&& self.next_generation == before.next_generation + 1
        &&& self.cache@.contains_key(inner)
        &&& self.cache@ == before.cache@.insert(inner, self.cache@[inner])
        &&& exists|ttl: Option<Duration>|
            #![trigger ech::refresh_span(ttl, before.refresh_bound)]
            resolves(before.settings, before.name_for(inner), answer, self.cache@[inner].mode, ttl) && r is Ok && serves(
                self.cache@[inner].mode,
                (Instant { nanos: (now.nanos + ech::refresh_span(ttl, before.refresh_bound)) as u128 }),
                before.next_generation,
                Seq::empty(),
                self.cache@[inner],
                alpn,
                r->Ok_0,
            )
    }

    /// The entry of an inner name serves on, if there is one; else nothing happens,
    /// and the refusal is reported.
    pub open spec fn kept(
        &self,
        before: &Self,
        inner: Seq<char>,
        alpn: Seq<Seq<u8>>,
        now: Instant,
        why: Option<ech::ErrorView>,
        r: Result<EchClient, EchError>,
    ) -> bool {
        &&& self.next_generation == before.next_generation
        &&& if before.cache@.contains_key(inner) {
            let entry = before.cache@[inner];
            &&& self.cache@.contains_key(inner)
            &&& self.cache@ == before.cache@.insert(inner, self.cache@[inner])
            &&& r matches Ok(client) && serves(
                entry.mode,
                (Instant { nanos: (now.nanos + RETRY_NANOS) as u128 }),
                entry.generation,
                entry.configs@,
                self.cache@[inner],
                alpn,
                client,
            )
        } else {
            &&& self.cache@ == before.cache@
            &&& match (r, why) {
                (Err(e), Some(x)) => e@ == x,
                (Err(e), None) => e is Rustls,
                (Ok(_), _) => false,
            }
        }
    }

    /// Forget the entry of an inner name because the server rejected the given
    /// generation. False means that another connection has replaced or evicted that
    /// generation already, and nothing changes.
    pub fn invalidate_after_rejection(&mut self, inner: &str, generation: u64) -> (r: bool)
        requires
            old(self).valid(),
        ensures
            final(self).valid(),
            final(self).same_route(old(self)),
            final(self).next_generation == old(self).next_generation,
            final(self).cache@ == after_rejection(old(self).cache@, inner@, generation),
            r == evicts(old(self).cache@, inner@, generation),
    {
        let current = match self.cache.get(inner) {
            Some(entry) => entry.generation == generation,
            None => false,
        };
        if !current {
            return false;
        }
        self.cache.remove(inner);
        assert forall|n: Seq<char>| #[trigger] self.cache@.contains_key(n) implies made_from(
            self.cache@[n],
            *self.roots,
            self.enable_sni,
        ) && self.cache@[n].generation < self.next_generation by {
            assert(old(self).cache@.contains_key(n));
        }
        true
    }

    /// The name whose cached DNS answer has to go with an evicted entry, so that
    /// the next lookup reaches the server.
    pub fn lookup_to_forget(&self, inner: &str) -> (r: Option<String>)
        ensures
            match r {
                Some(n) => self.settings.mode != EchMode::Static && n@ == self.name_for(inner@),
                None => self.settings.mode == EchMode::Static,
            },
    {
        match self.settings.mode {
            EchMode::Static => None,
            _ => Some(self.lookup_name(inner)),
        }
    }

    /// Every client configuration that is served was made for the route and the
    /// request: from the current mode of the inner name, with the route's roots and
    /// choice of SNI, offering exactly the protocols asked for.
    pub proof fn law_clients_fit_the_request(&self, inner: Seq<char>, alpn: Seq<Seq<u8>>)
        requires
            self.valid(),
            self.cache@.contains_key(inner),
            config_at(self.cache@[inner].configs@, alpn) is Some,
        ensures
            ech::config_parts(*config_at(self.cache@[inner].configs@, alpn)->0) == (ech::ConfigParts {
                mode: Some(self.cache@[inner].mode@),
                roots: *self.roots,
                sends_sni: self.enable_sni,
                alpn,
            }),
    {
        let i = lemma_config_at(self.cache@[inner].configs@, alpn);
        assert(made_from(self.cache@[inner], *self.roots, self.enable_sni));
        assert(self.cache@[inner].configs@[i].0@.map_values(|v: Vec<u8>| v@) == alpn);
    }

    /// A rejection that comes late cannot evict a newer entry: after a resolution
    /// has replaced the entry, no generation handed out before it matches.
    pub proof fn law_late_rejection_spares_the_newer(
        &self,
        after: &Self,
        inner: Seq<char>,
        alpn: Seq<Seq<u8>>,
        now: Instant,
        answer: Result<Seq<HttpsRecord>, Seq<char>>,
        r: Result<EchClient, EchError>,
        generation: u64,
    )
        requires
            self.valid(),
            after.replaced(self, inner, alpn, now, answer, r),
            generation < self.next_generation,
        ensures
            !evicts(after.cache@, inner, generation),
            after_rejection(after.cache@, inner, generation) == after.cache@,
    {
    }
}

/// However many connections report the rejection of one generation, one of them
/// evicts it: once it has, the generation is gone.
pub proof fn law_one_eviction_per_generation(cache: Map<Seq<char>, Cached>, inner: Seq<char>, generation: u64)
    ensures
        !evicts(after_rejection(cache, inner, generation), inner, generation),
        after_rejection(after_rejection(cache, inner, generation), inner, generation) == after_rejection(
            cache,
            inner,
            generation,
        ),
{
}

/// A rejection concerns its own inner name: no other entry changes.
pub proof fn law_rejection_spares_other_names(
    cache: Map<Seq<char>, Cached>,
    inner: Seq<char>,
    generation: u64,
    other: Seq<char>,
)
    requires
        other != inner,
    ensures
        after_rejection(cache, inner, generation).contains_key(other) == cache.contains_key(other),
        cache.contains_key(other) ==> after_rejection(cache, inner, generation)[other] == cache[other],
{
}

/// What is looked up for an inner name is its own record, or that of the configured name
/// if there is one, at the upstream's port.
pub proof fn law_looked_up_name_is_the_configured_or_the_inner(p: EchProvider, inner: Seq<char>)
    ensures
        p.settings.ech_domain is None ==> p.name_for(inner) == ech::record_name(inner, p.upstream_port),
        p.settings.ech_domain matches Some(d) ==> p.name_for(inner) == ech::record_name(d@, p.upstream_port),
        p.settings.ech_domain is None && p.upstream_port == 443 ==> p.name_for(inner) == inner,
{
}

/// An entry serves until its time to be resolved again, and not from that moment on.
pub proof fn law_entry_is_fresh_until_its_time(p: EchProvider, inner: Seq<char>, now: Instant)
    ensures
        !p.cache@.contains_key(inner) ==> !p.fresh(inner, now),
        p.cache@.contains_key(inner) ==> (p.fresh(inner, now) <==> now.nanos < p.cache@[inner].refresh_at.nanos),
{
}

/// A route that requires ECH refuses where nothing is published, and one that does not is
/// never refused for that; a config list that cannot be used is refused either way.
pub proof fn law_required_ech_needs_a_record(
    settings: EffectiveEch,
    name: Seq<char>,
    records: Seq<HttpsRecord>,
    require_ech: bool,
)
    requires
        settings.mode == EchMode::Doh,
    ensures
        ech::published(records) is None ==> refusal(settings, true, name, Ok(records)) == Some(
            ech::ErrorView::NoRecord(name),
        ),
        ech::published(records) is None ==> refusal(settings, false, name, Ok(records)) is None,
        ech::published(records) matches Some(p) ==> (refusal(settings, require_ech, name, Ok(records)) is None
            <==> ech::usable_list(p.0)),
        wants_placeholder(settings, require_ech, name, Ok(records)) <==> !require_ech && ech::published(records) is None,
{
}

/// A new resolution is what the records publish; it is used from now on, for five seconds
/// at least, and no longer than the bound beyond that.
pub proof fn law_new_resolution_is_the_published_one(
    before: EchProvider,
    after: EchProvider,
    inner: Seq<char>,
    alpn: Seq<Seq<u8>>,
    now: Instant,
    records: Seq<HttpsRecord>,
    r: Result<EchClient, EchError>,
)
    requires
        before.valid(),
        now.valid(),
        before.settings.mode == EchMode::Doh,
        after.replaced(&before, inner, alpn, now, Ok(records), r),
    ensures
        after.cache@.contains_key(inner),
        ech::published(records) matches Some(p) ==> after.cache@[inner].mode@ == ech::ModeView::Real(p.0),
        ech::published(records) is None ==> after.cache@[inner].mode is Grease,
        after.cache@[inner].generation == before.next_generation,
        r matches Ok(client) && client.generation == before.next_generation,
        after.cache@[inner].refresh_at.nanos >= now.nanos + 5000000000,
        before.refresh_bound.nanos >= 5000000000 ==> after.cache@[inner].refresh_at.nanos <= now.nanos
            + before.refresh_bound.nanos,
{
}

/// After a failed resolution a stale entry serves on as it is, and is resolved again
/// thirty seconds later.
pub proof fn law_stale_entry_serves_on(
    before: EchProvider,
    after: EchProvider,
    inner: Seq<char>,
    alpn: Seq<Seq<u8>>,
    now: Instant,
    why: Option<ech::ErrorView>,
    r: Result<EchClient, EchError>,
)
    requires
        now.valid(),
        after.kept(&before, inner, alpn, now, why, r),
    ensures
        before.cache@.contains_key(inner) ==> {
            &&& after.cache@.contains_key(inner)
            &&& after.cache@[inner].mode == before.cache@[inner].mode
            &&& after.cache@[inner].generation == before.cache@[inner].generation
            &&& after.cache@[inner].refresh_at.nanos == now.nanos + 30000000000
            &&& r is Ok
        },
        !before.cache@.contains_key(inner) ==> r is Err && after.cache@ == before.cache@,
{
}

/// The rejection of a generation takes away that generation's entry, and no other one.
pub proof fn law_rejection_evicts_its_generation(cache: Map<Seq<char>, Cached>, inner: Seq<char>, generation: u64)
    ensures
        cache.contains_key(inner) && cache[inner].generation == generation ==> !after_rejection(
            cache,
            inner,
            generation,
        ).contains_key(inner),
        cache.contains_key(inner) && cache[inner].generation != generation ==> after_rejection(cache, inner, generation)
            == cache,
{
}

} // verus!
