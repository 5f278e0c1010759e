//! The probe cycle of a pool: which addresses are candidates, which are due, and
//! what the outcomes change.

use super::health::{holds, Health, HealthTable};
use super::ranking;
use super::ranking::{addrs_of, reorder_with_hysteresis, Candidate};
use super::target;
use super::target::{draw_sample, Network, Target, TargetSpec};
use crate::net::IpAddr;
use crate::text;
use crate::time::{Duration, Instant};
use vstd::prelude::*;

verus! {

/// The shortest pause between two cycles: fifty milliseconds.
pub const SHORTEST_PAUSE_NANOS: u128 = 50000000;

/// How many probes a pool runs at once.
pub const MAX_CONCURRENT_PROBES: usize = 16;

/// What a probe waits for.
#[derive(Debug, Clone, Copy, PartialEq, Eq, Structural)]
pub enum ProbeMode {
    /// The connection.
    Tcp,
    /// The TLS handshake.
    Tls,
    /// The first byte of a response.
    Http,
}

/// How a pool is probed.
#[derive(Debug, Clone)]
pub struct EffectiveProbe {
    pub mode: ProbeMode,
    pub port: u16,
    pub sni: Option<String>,
    pub path: Option<String>,
    /// The response statuses that count as success.
    pub status: Vec<u16>,
    pub timeout: Duration,
    /// How often a healthy endpoint is probed.
    pub interval: Duration,
    /// How soon a failing endpoint is probed again, to begin with.
    pub degraded_interval: Duration,
    /// How many failures in a row degrade an endpoint.
    pub fail_threshold: u32,
}

/// How IPv4 candidates are projected into IPv6.
#[derive(Debug, Clone)]
pub struct Nat64Projection {
    /// The targets that take part; all of them where none are named.
    pub from: Option<Vec<usize>>,
    /// How long a probe of a projected address may take: it has one more hop.
    pub timeout: Duration,
}

/// A pool as it is configured.
#[derive(Debug)]
pub struct PoolPlan {
    pub name: String,
    pub targets: Vec<Target>,
    pub probe: EffectiveProbe,
    pub nat64: Option<Nat64Projection>,
    /// The target of the safety net.
    pub fallback: Option<usize>,
}

impl PoolPlan {
    /// Networks are sound and spans are measurable.
    pub open spec fn valid(self) -> bool {
        &&& forall|i: int| 0 <= i < self.targets@.len() ==> (#[trigger] self.targets@[i]).valid()
        &&& self.probe.interval.valid()
        &&& self.probe.degraded_interval.valid()
    }

    /// Tell whether networks are sound and spans are measurable.
    pub fn is_valid(&self) -> (r: bool)
        ensures
            r == self.valid(),
    {
        let mut i: usize = 0;
        while i < self.targets.len()
            invariant
                i <= self.targets@.len(),
                forall|k: int| 0 <= k < i ==> (#[trigger] self.targets@[k]).valid(),
            decreases self.targets@.len() - i,
        {
            if !self.targets[i].is_valid() {
                return false;
            }
            i = i + 1;
        }
        self.probe.interval.is_valid() && self.probe.degraded_interval.is_valid()
    }
}

/// What the probe task of a pool knows.
#[derive(Debug)]
pub struct PoolState {
    /// Health by address, which outlives a change of the candidates.
    pub health: HealthTable,
    /// The previous order, from which the next one starts.
    pub order: Vec<IpAddr>,
    /// Sampled addresses that were replaced, as they never came up.
    pub resampled: Vec<IpAddr>,
    /// The addresses drawn instead, by target.
    pub replacements: Vec<Vec<IpAddr>>,
    /// The latest answer for each target that is a domain.
    pub resolved: Vec<Option<Vec<IpAddr>>>,
    /// When the domains were last resolved.
    pub resolved_at: Option<Instant>,
}

impl PoolState {
    /// The state fits a number of targets.
    pub open spec fn fits(self, targets: nat) -> bool {
        &&& self.health.valid()
        &&& ranking::measurable(self.health@)
        &&& self.replacements@.len() == targets
        &&& self.resolved@.len() == targets
    }

    /// Nothing known of a number of targets.
    pub fn new(targets: usize) -> (r: Self)
        ensures
            r.fits(targets as nat),
            r.health@ == Map::<IpAddr, Health>::empty(),
            r.order@.len() == 0,
            r.resampled@.len() == 0,
            forall|i: int| 0 <= i < targets ==> (#[trigger] r.replacements@[i])@.len() == 0,
            forall|i: int| 0 <= i < targets ==> #[trigger] r.resolved@[i] is None,
            r.resolved_at is None,
    {
        let mut replacements: Vec<Vec<IpAddr>> = Vec::new();
        let mut resolved: Vec<Option<Vec<IpAddr>>> = Vec::new();
        while resolved.len() < targets
            invariant
                resolved@.len() <= targets,
                replacements@.len() == resolved@.len(),
                forall|i: int| 0 <= i < replacements@.len() ==> (#[trigger] replacements@[i])@.len() == 0,
                forall|i: int| 0 <= i < resolved@.len() ==> #[trigger] resolved@[i] is None,
            decreases targets - resolved@.len(),
        {
            replacements.push(Vec::new());
            resolved.push(None);
        }
        PoolState {
            health: HealthTable::new(),
            order: Vec::new(),
            resampled: Vec::new(),
            replacements,
            resolved,
            resolved_at: None,
        }
    }
}

// ---------------------------------------------------------------------------
// Resolving domains
// ---------------------------------------------------------------------------

/// Whether a target is a domain.
pub open spec fn is_domain(t: Target) -> bool {
    t.spec is Domain
}

/// Whether some domain has no answer yet.
pub open spec fn unanswered(targets: Seq<Target>, resolved: Seq<Option<Vec<IpAddr>>>) -> bool {
    exists|i: int| 0 <= i < targets.len() && is_domain(#[trigger] targets[i]) && resolved[i] is None
}

/// How long to wait before domains are resolved again: the interval once every one
/// of them has an answer, and less while one has none.
pub fn dns_refresh(plan: &PoolPlan, state: &PoolState) -> (r: Duration)
    requires
        state.resolved@.len() == plan.targets@.len(),
    ensures
        r == (if unanswered(plan.targets@, state.resolved@) {
            plan.probe.degraded_interval
        } else {
            plan.probe.interval
        }),
{
    let mut i: usize = 0;
    while i < plan.targets.len()
        invariant
            i <= plan.targets@.len(),
            state.resolved@.len() == plan.targets@.len(),
            forall|k: int|
                0 <= k < i ==> !(is_domain(#[trigger] plan.targets@[k]) && state.resolved@[k] is None),
        decreases plan.targets@.len() - i,
    {
        let domain = match &plan.targets[i].spec {
            TargetSpec::Domain(_) => true,
            _ => false,
        };
        if domain && state.resolved[i].is_none() {
            assert(is_domain(plan.targets@[i as int]));
            return plan.probe.degraded_interval;
        }
        i = i + 1;
    }
    plan.probe.interval
}

/// How much time has passed.
pub open spec fn elapsed(since: Instant, now: Instant) -> nat {
    if now.nanos >= since.nanos {
        (now.nanos - since.nanos) as nat
    } else {
        0
    }
}

/// Whether domains are to be resolved.
pub open spec fn dns_is_due(at: Option<Instant>, refresh: Duration, now: Instant) -> bool {
    match at {
        None => true,
        Some(at) => elapsed(at, now) >= refresh.nanos,
    }
}

impl PoolState {
    /// Begin a cycle: whether domains are to be resolved. The cycle comes as often
    /// as a candidate is due, and resolving must not become more frequent because a
    /// part of the pool is unwell.
    pub fn begin_cycle(&mut self, plan: &PoolPlan, now: Instant) -> (r: bool)
        requires
            old(self).resolved@.len() == plan.targets@.len(),
        ensures
            r == dns_is_due(
                old(self).resolved_at,
                if unanswered(plan.targets@, old(self).resolved@) {
                    plan.probe.degraded_interval
                } else {
                    plan.probe.interval
                },
                now,
            ),
            *final(self) == (PoolState {
                resolved_at: if r {
                    Some(now)
                } else {
                    old(self).resolved_at
                },
                ..*old(self)
            }),
    {
        let refresh = dns_refresh(plan, self);
        let due = match self.resolved_at {
            None => true,
            Some(at) => {
                let passed = if now.nanos >= at.nanos {
                    now.nanos - at.nanos
                } else {
                    0
                };
                passed >= refresh.nanos
            },
        };
        if due {
            self.resolved_at = Some(now);
        }
        due
    }

    /// Take the answer for a domain. Where there is none the previous one stays.
    pub fn set_resolved(&mut self, index: usize, ips: Vec<IpAddr>)
        requires
            index < old(self).resolved@.len(),
        ensures
            final(self).resolved@ == old(self).resolved@.update(index as int, Some(ips)),
            final(self).health == old(self).health,
            final(self).order == old(self).order,
            final(self).resampled == old(self).resampled,
            final(self).replacements == old(self).replacements,
            final(self).resolved_at == old(self).resolved_at,
    {
        self.resolved.set(index, Some(ips));
    }
}

// ---------------------------------------------------------------------------
// Candidates
// ---------------------------------------------------------------------------

/// What a [`Candidate`] says.
#[verifier::ext_equal]
pub struct CandidateView {
    pub addr: IpAddr,
    pub target: usize,
    pub tags: Seq<Seq<char>>,
}

impl View for Candidate {
    type V = CandidateView;

    open spec fn view(&self) -> CandidateView {
        CandidateView { addr: self.addr, target: self.target, tags: text::texts(self.tags@) }
    }
}

/// What candidates say.
pub open spec fn views(list: Seq<Candidate>) -> Seq<CandidateView> {
    list.map_values(|c: Candidate| c@)
}

/// The tag of an address.
pub open spec fn family_tag(a: IpAddr) -> Seq<char> {
    match a {
        IpAddr::V4(_) => "ipv4"@,
        IpAddr::V6(_) => "ipv6"@,
    }
}

/// A target's own address as a candidate.
pub open spec fn native(target: usize, tags: Seq<String>, a: IpAddr) -> CandidateView {
    CandidateView { addr: a, target, tags: seq![family_tag(a)] + text::texts(tags) }
}

/// A projected address as a candidate.
pub open spec fn projected(target: usize, tags: Seq<String>, a: u128) -> CandidateView {
    CandidateView { addr: IpAddr::V6(a), target, tags: seq!["nat64"@, "ipv6"@] + text::texts(tags) }
}

/// Addresses without those of another list, among the first `n`.
pub open spec fn without(list: Seq<IpAddr>, gone: Seq<IpAddr>, n: int) -> Seq<IpAddr>
    decreases n,
{
    if n <= 0 {
        Seq::empty()
    } else if gone.contains(list[n - 1]) {
        without(list, gone, n - 1)
    } else {
        without(list, gone, n - 1).push(list[n - 1])
    }
}

/// The addresses that a target stands for: itself, what was drawn from it, at first
/// or instead, and not given up, or the latest answer.
pub open spec fn target_addrs(
    t: Target,
    resampled: Seq<IpAddr>,
    replacements: Seq<IpAddr>,
    resolved: Option<Vec<IpAddr>>,
) -> Seq<IpAddr> {
    match t.spec {
        TargetSpec::Ip(ip) => seq![ip],
        TargetSpec::Cidr { net, sample } => without(t.sampled@, resampled, t.sampled@.len() as int) + without(
            replacements,
            resampled,
            replacements.len() as int,
        ),
        TargetSpec::Domain(_) => match resolved {
            Some(ips) => ips@,
            None => Seq::empty(),
        },
    }
}

/// The candidates of the first `n` targets.
pub open spec fn natives(targets: Seq<Target>, s: PoolState, n: int) -> Seq<CandidateView>
    decreases n,
{
    if n <= 0 {
        Seq::empty()
    } else {
        natives(targets, s, n - 1) + target_addrs(
            targets[n - 1],
            s.resampled@,
            s.replacements@[n - 1]@,
            s.resolved@[n - 1],
        ).map_values(|a: IpAddr| native((n - 1) as usize, targets[n - 1].custom_tags@, a))
    }
}

fn push_candidate(out: &mut Vec<Candidate>, index: usize, tags: &Vec<String>, addr: IpAddr)
    ensures
        views(final(out)@) == views(old(out)@).push(native(index, tags@, addr)),
{
    let mut list: Vec<String> = Vec::new();
    list.push(
        match addr {
            IpAddr::V4(_) => "ipv4".to_owned(),
            IpAddr::V6(_) => "ipv6".to_owned(),
        },
    );
    push_tags(&mut list, tags);
    let c = Candidate { addr, target: index, tags: list };
    assert(c@ =~= native(index, tags@, addr)) by {
        assert(text::texts(list@) =~= seq![family_tag(addr)] + text::texts(tags@));
    }
    out.push(c);
    assert(views(out@) =~= views(old(out)@).push(native(index, tags@, addr)));
}

fn push_tags(list: &mut Vec<String>, tags: &Vec<String>)
    ensures
        text::texts(final(list)@) == text::texts(old(list)@) + text::texts(tags@),
{
    let ghost head = text::texts(list@);
    let ghost all = text::texts(tags@);
    let mut i: usize = 0;
    assert(text::texts(list@) =~= head + all.take(0));
    while i < tags.len()
        invariant
            i <= tags@.len(),
            all == text::texts(tags@),
            text::texts(list@) == head + all.take(i as int),
        decreases tags@.len() - i,
    {
        let ghost was = text::texts(list@);
        list.push(tags[i].clone());
        proof {
            assert(text::texts(list@) =~= was.push(tags@[i as int]@));
            assert(all.take(i + 1) =~= all.take(i as int).push(all[i as int]));
        }
        i = i + 1;
        assert(text::texts(list@) =~= head + all.take(i as int));
    }
    assert(all.take(i as int) =~= all);
}

fn push_all(out: &mut Vec<Candidate>, index: usize, tags: &Vec<String>, list: &Vec<IpAddr>)
    ensures
        views(final(out)@) == views(old(out)@) + list@.map_values(|a: IpAddr| native(index, tags@, a)),
{
    let ghost head = views(out@);
    let ghost all = list@.map_values(|a: IpAddr| native(index, tags@, a));
    let mut i: usize = 0;
    assert(views(out@) =~= head + all.take(0));
    while i < list.len()
        invariant
            i <= list@.len(),
            all == list@.map_values(|a: IpAddr| native(index, tags@, a)),
            views(out@) == head + all.take(i as int),
        decreases list@.len() - i,
    {
        push_candidate(out, index, tags, list[i]);
        i = i + 1;
        assert(views(out@) =~= head + all.take(i as int));
    }
    assert(all.take(i as int) =~= all);
}

fn left_over(list: &Vec<IpAddr>, gone: &Vec<IpAddr>) -> (r: Vec<IpAddr>)
    ensures
        r@ == without(list@, gone@, list@.len() as int),
{
    let mut out: Vec<IpAddr> = Vec::new();
    let mut i: usize = 0;
    while i < list.len()
        invariant
            i <= list@.len(),
            out@ == without(list@, gone@, i as int),
        decreases list@.len() - i,
    {
        if !holds(gone, list[i]) {
            out.push(list[i]);
        }
        i = i + 1;
    }
    out
}

/// Whether an IPv4 candidate is projected.
pub open spec fn takes_part(c: CandidateView, from: Option<Vec<usize>>) -> bool {
    c.addr is V4 && (from matches Some(list) ==> list@.contains(c.target))
}

/// How many of the first `n` candidates are projected.
pub open spec fn part_count(list: Seq<CandidateView>, from: Option<Vec<usize>>, n: int) -> nat
    decreases n,
{
    if n <= 0 {
        0
    } else {
        part_count(list, from, n - 1) + if takes_part(list[n - 1], from) {
            1nat
        } else {
            0nat
        }
    }
}

/// The IPv4 addresses among the first `n` candidates that are projected.
pub open spec fn sources(list: Seq<CandidateView>, from: Option<Vec<usize>>, n: int) -> Seq<u32>
    decreases n,
{
    if n <= 0 {
        Seq::empty()
    } else if takes_part(list[n - 1], from) {
        sources(list, from, n - 1).push(list[n - 1].addr->V4_0)
    } else {
        sources(list, from, n - 1)
    }
}

/// The projections of the first `n` candidates, given what each source is
/// synthesized to under every prefix.
pub open spec fn projections(
    list: Seq<CandidateView>,
    from: Option<Vec<usize>>,
    targets: Seq<Target>,
    synthesized: Seq<Vec<u128>>,
    n: int,
) -> Seq<CandidateView>
    decreases n,
{
    if n <= 0 {
        Seq::empty()
    } else {
        let rest = projections(list, from, targets, synthesized, n - 1);
        if takes_part(list[n - 1], from) {
            let t = list[n - 1].target;
            rest + synthesized[part_count(list, from, n - 1) as int]@.map_values(
                |a: u128| projected(t, targets[t as int].custom_tags@, a),
            )
        } else {
            rest
        }
    }
}

/// The first `n` candidates, without those whose address has come before.
pub open spec fn deduped(list: Seq<CandidateView>, n: int) -> Seq<CandidateView>
    decreases n,
{
    if n <= 0 {
        Seq::empty()
    } else if exists|i: int| 0 <= i < n - 1 && (#[trigger] list[i]).addr == list[n - 1].addr {
        deduped(list, n - 1)
    } else {
        deduped(list, n - 1).push(list[n - 1])
    }
}

fn is_source(c: &Candidate, from: &Option<Vec<usize>>) -> (r: bool)
    ensures
        r == takes_part(c@, *from),
{
    match c.addr {
        IpAddr::V6(_) => false,
        IpAddr::V4(_) => match from {
            None => true,
            Some(list) => {
                let mut i: usize = 0;
                while i < list.len()
                    invariant
                        c.addr is V4,
                        *from == Some(*list),
                        i <= list@.len(),
                        forall|k: int| 0 <= k < i ==> #[trigger] list@[k] != c.target,
                    decreases list@.len() - i,
                {
                    if list[i] == c.target {
                        return true;
                    }
                    i = i + 1;
                }
                false
            },
        },
    }
}

impl PoolState {
    /// The targets' own candidates.
    pub fn native_candidates(&self, plan: &PoolPlan) -> (r: Vec<Candidate>)
        requires
            self.fits(plan.targets@.len()),
        ensures
            views(r@) == natives(plan.targets@, *self, plan.targets@.len() as int),
    {
        let mut out: Vec<Candidate> = Vec::new();
        let mut i: usize = 0;
        assert(views(out@) =~= natives(plan.targets@, *self, 0));
        while i < plan.targets.len()
            invariant
                self.fits(plan.targets@.len()),
                i <= plan.targets.len(),
                views(out@) == natives(plan.targets@, *self, i as int),
            decreases plan.targets@.len() - i,
        {
            let t = &plan.targets[i];
            let ghost head = views(out@);
            let ghost f = |a: IpAddr| native(i, t.custom_tags@, a);
            match &t.spec {
                TargetSpec::Ip(ip) => {
                    push_candidate(&mut out, i, &t.custom_tags, *ip);
                    assert(seq![*ip].map_values(f) =~= seq![native(i, t.custom_tags@, *ip)]);
                    assert(views(out@) =~= head + seq![*ip].map_values(f));
                },
                TargetSpec::Cidr { net, sample } => {
                    let left = left_over(&t.sampled, &self.resampled);
                    push_all(&mut out, i, &t.custom_tags, &left);
                    let instead = left_over(&self.replacements[i], &self.resampled);
                    push_all(&mut out, i, &t.custom_tags, &instead);
                    assert((left@ + instead@).map_values(f) =~= left@.map_values(f) + instead@.map_values(f));
                    assert(views(out@) =~= head + (left@ + instead@).map_values(f));
                },
                TargetSpec::Domain(_) => {
                    match &self.resolved[i] {
                        Some(ips) => push_all(&mut out, i, &t.custom_tags, ips),
                        None => {},
                    }
                    assert(Seq::<IpAddr>::empty().map_values(f) =~= Seq::<CandidateView>::empty());
                    assert(views(out@) =~= head + target_addrs(
                        *t,
                        self.resampled@,
                        self.replacements@[i as int]@,
                        self.resolved@[i as int],
                    ).map_values(f));
                },
            }
            i = i + 1;
        }
        out
    }
}

/// The IPv4 addresses that are to be projected, in order.
pub fn nat64_sources(list: &Vec<Candidate>, from: &Option<Vec<usize>>) -> (r: Vec<u32>)
    ensures
        r@ == sources(views(list@), *from, list@.len() as int),
        r@.len() == part_count(views(list@), *from, list@.len() as int),
{
    let ghost all = views(list@);
    let mut out: Vec<u32> = Vec::new();
    let mut i: usize = 0;
    while i < list.len()
        invariant
            i <= list@.len(),
            all == views(list@),
            out@ == sources(all, *from, i as int),
            out@.len() == part_count(all, *from, i as int),
        decreases list@.len() - i,
    {
        assert(all[i as int] == list@[i as int]@);
        if is_source(&list[i], from) {
            match list[i].addr {
                IpAddr::V4(v) => out.push(v),
                IpAddr::V6(_) => {},
            }
        }
        i = i + 1;
    }
    out
}

/// Add the projections behind the targets' own candidates: a projected path is
/// ranked by itself, as a slow gateway says nothing of the native one.
pub fn with_nat64(
    list: Vec<Candidate>,
    from: &Option<Vec<usize>>,
    targets: &Vec<Target>,
    synthesized: &Vec<Vec<u128>>,
) -> (r: Vec<Candidate>)
    requires
        synthesized@.len() == part_count(views(list@), *from, list@.len() as int),
        forall|i: int| 0 <= i < list@.len() ==> (#[trigger] list@[i]).target < targets@.len(),
    ensures
        views(r@) == views(list@) + projections(
            views(list@),
            *from,
            targets@,
            synthesized@,
            list@.len() as int,
        ),
{
    let ghost all = views(list@);
    let n = list.len();
    let mut out = list;
    let mut taken: usize = 0;
    let mut i: usize = 0;
    assert(views(out@) =~= all + projections(all, *from, targets@, synthesized@, 0));
    while i < n
        invariant
            n == all.len(),
            i <= n,
            n <= out@.len(),
            synthesized.len() == part_count(all, *from, n as int),
            taken == part_count(all, *from, i as int),
            views(out@) == all + projections(all, *from, targets@, synthesized@, i as int),
            forall|k: int| 0 <= k < n ==> (#[trigger] all[k]).target < targets@.len(),
        decreases n - i,
    {
        assert(views(out@)[i as int] == all[i as int]);
        assert(out@[i as int]@ == all[i as int]);
        assert(all[i as int].target < targets@.len());
        proof {
            lemma_part_count(all, *from, i + 1, n as int);
        }
        if is_source(&out[i], from) {
            let t = out[i].target;
            let ghost f = |a: u128| projected(t, targets@[t as int].custom_tags@, a);
            let ghost head = views(out@);
            let fresh = &synthesized[taken];
            let ghost list = fresh@.map_values(f);
            let mut k: usize = 0;
            assert(views(out@) =~= head + list.take(0));
            while k < fresh.len()
                invariant
                    k <= fresh@.len(),
                    t < targets@.len(),
                    f == (|a: u128| projected(t, targets@[t as int].custom_tags@, a)),
                    list == fresh@.map_values(f),
                    views(out@) == head + list.take(k as int),
                    n <= out@.len(),
                decreases fresh@.len() - k,
            {
                let mut tags: Vec<String> = Vec::new();
                tags.push("nat64".to_owned());
                tags.push("ipv6".to_owned());
                push_tags(&mut tags, &targets[t].custom_tags);
                let c = Candidate { addr: IpAddr::V6(fresh[k]), target: t, tags };
                assert(c@ =~= projected(t, targets@[t as int].custom_tags@, fresh@[k as int])) by {
                    assert(text::texts(tags@) =~= seq!["nat64"@, "ipv6"@] + text::texts(
                        targets@[t as int].custom_tags@,
                    ));
                }
                let ghost was = views(out@);
                out.push(c);
                proof {
                    assert(views(out@) =~= was.push(list[k as int]));
                    assert(list.take(k + 1) =~= list.take(k as int).push(list[k as int]));
                }
                k = k + 1;
                assert(views(out@) =~= head + list.take(k as int));
            }
            assert(list.take(k as int) =~= list);
            taken = taken + 1;
            assert(views(out@) =~= all + projections(all, *from, targets@, synthesized@, i + 1));
        }
        i = i + 1;
    }
    out
}

proof fn lemma_part_count(list: Seq<CandidateView>, from: Option<Vec<usize>>, i: int, n: int)
    requires
        i <= n,
    ensures
        part_count(list, from, i) <= part_count(list, from, n),
    decreases n - i,
{
    if i < n {
        lemma_part_count(list, from, i, n - 1);
    }
}

/// Drop candidates whose address has come before: probing an address twice would
/// count it twice.
pub fn dedup(list: Vec<Candidate>) -> (r: Vec<Candidate>)
    ensures
        views(r@) == deduped(views(list@), list@.len() as int),
{
    let ghost all = views(list@);
    let mut out: Vec<Candidate> = Vec::new();
    let mut i: usize = 0;
    assert(views(out@) =~= deduped(all, 0));
    while i < list.len()
        invariant
            i <= list@.len(),
            all == views(list@),
            views(out@) == deduped(all, i as int),
        decreases list@.len() - i,
    {
        let mut seen = false;
        let mut k: usize = 0;
        while k < i && !seen
            invariant
                i < list@.len(),
                k <= i,
                all == views(list@),
                seen ==> exists|j: int| 0 <= j < i && (#[trigger] all[j]).addr == all[i as int].addr,
                !seen ==> forall|j: int| 0 <= j < k ==> (#[trigger] all[j]).addr != all[i as int].addr,
            decreases i - k,
        {
            assert(all[k as int].addr == list@[k as int].addr);
            assert(all[i as int].addr == list@[i as int].addr);
            if list[k].addr == list[i].addr {
                seen = true;
            }
            k = k + 1;
        }
        if !seen {
            let mut tags: Vec<String> = Vec::new();
            push_tags(&mut tags, &list[i].tags);
            let c = Candidate { addr: list[i].addr, target: list[i].target, tags };
            assert(c@ =~= all[i as int]) by {
                assert(text::texts(tags@) =~= text::texts(list@[i as int].tags@));
            }
            out.push(c);
            assert(views(out@) =~= deduped(all, i as int).push(all[i as int]));
        }
        i = i + 1;
    }
    out
}

/// The targets that a projection names although they have no IPv4 candidate. That
/// is no error, as the records of a name can change.
pub fn idle_nat64_targets(list: &Vec<Candidate>, from: &Vec<usize>) -> (r: Vec<usize>)
    ensures
        r@ == idle_targets(views(list@), from@, from@.len() as int),
{
    let ghost all = views(list@);
    let mut out: Vec<usize> = Vec::new();
    let mut i: usize = 0;
    while i < from.len()
        invariant
            i <= from@.len(),
            all == views(list@),
            out@ == idle_targets(all, from@, i as int),
        decreases from@.len() - i,
    {
        let mut found = false;
        let mut k: usize = 0;
        while k < list.len() && !found
            invariant
                i < from@.len(),
                k <= list@.len(),
                all == views(list@),
                found ==> has_v4(all, from@[i as int]),
                !found ==> forall|j: int|
                    0 <= j < k ==> !((#[trigger] all[j]).target == from@[i as int] && all[j].addr is V4),
            decreases list@.len() - k,
        {
            assert(all[k as int] == list@[k as int]@);
            let is_v4 = match list[k].addr {
                IpAddr::V4(_) => true,
                IpAddr::V6(_) => false,
            };
            if list[k].target == from[i] && is_v4 {
                found = true;
            }
            k = k + 1;
        }
        if !found {
            out.push(from[i]);
        }
        i = i + 1;
    }
    out
}

/// Whether a target has an IPv4 candidate.
pub open spec fn has_v4(list: Seq<CandidateView>, target: usize) -> bool {
    exists|j: int| 0 <= j < list.len() && (#[trigger] list[j]).target == target && list[j].addr is V4
}

/// The first `n` of a list of targets, as far as they have no IPv4 candidate.
pub open spec fn idle_targets(list: Seq<CandidateView>, from: Seq<usize>, n: int) -> Seq<usize>
    decreases n,
{
    if n <= 0 {
        Seq::empty()
    } else if has_v4(list, from[n - 1]) {
        idle_targets(list, from, n - 1)
    } else {
        idle_targets(list, from, n - 1).push(from[n - 1])
    }
}

// ---------------------------------------------------------------------------
// Health
// ---------------------------------------------------------------------------

/// The health of the candidates: what is known of them, and a fresh start for the
/// others. Addresses that are no longer candidates are forgotten.
pub open spec fn tended(m: Map<IpAddr, Health>, live: Seq<IpAddr>, now: Instant, base: Duration) -> Map<IpAddr, Health> {
    Map::new(
        |a: IpAddr| live.contains(a),
        |a: IpAddr| if m.contains_key(a) {
            m[a]
        } else {
            Health::fresh(now, base)
        },
    )
}

/// What an outcome has changed.
#[derive(Debug, Clone, Copy, PartialEq, Eq, Structural)]
pub enum Change {
    /// The address is no candidate any more.
    Unknown,
    /// It is back in the ranking.
    Recovered,
    /// It has just been taken out of the ranking.
    Degraded,
    Nothing,
}

/// The health of an endpoint after a probe.
pub open spec fn probed(h: Health, probe: EffectiveProbe, outcome: Option<Duration>, now: Instant) -> Health {
    match outcome {
        Some(rtt) => h.after_success(now, rtt, probe.interval, probe.degraded_interval),
        None => h.after_failure(now, probe.fail_threshold, probe.interval, probe.degraded_interval),
    }
}

/// The places of the first `n` candidates that are due.
pub open spec fn due_places(live: Seq<IpAddr>, m: Map<IpAddr, Health>, now: Instant, n: int) -> Seq<usize>
    decreases n,
{
    if n <= 0 {
        Seq::empty()
    } else if m.contains_key(live[n - 1]) && m[live[n - 1]].next_probe.nanos > now.nanos {
        due_places(live, m, now, n - 1)
    } else {
        due_places(live, m, now, n - 1).push((n - 1) as usize)
    }
}

/// How soon the first of the first `n` candidates is due.
pub open spec fn soonest(live: Seq<IpAddr>, m: Map<IpAddr, Health>, now: Instant, n: int) -> Option<nat>
    decreases n,
{
    if n <= 0 {
        None
    } else {
        let rest = soonest(live, m, now, n - 1);
        if m.contains_key(live[n - 1]) {
            let wait = elapsed(now, m[live[n - 1]].next_probe);
            match rest {
                Some(w) => Some(
                    if wait < w {
                        wait
                    } else {
                        w
                    },
                ),
                None => Some(wait),
            }
        } else {
            rest
        }
    }
}

/// How long until domains are to be resolved.
pub open spec fn dns_wait(at: Option<Instant>, refresh: Duration, now: Instant) -> nat {
    match at {
        None => 0,
        Some(at) => if elapsed(at, now) >= refresh.nanos {
            0
        } else {
            (refresh.nanos - elapsed(at, now)) as nat
        },
    }
}

/// How long a pool can rest: until the first candidate is due or, where there are
/// domains, until they are to be resolved; and never so short that it spins.
pub open spec fn rest_of(soonest: Option<nat>, has_domain: bool, dns: nat, interval: nat) -> nat {
    let wait = match soonest {
        Some(p) => if has_domain && dns < p {
            dns
        } else {
            p
        },
        None => if has_domain {
            dns
        } else {
            interval
        },
    };
    if wait < SHORTEST_PAUSE_NANOS {
        SHORTEST_PAUSE_NANOS as nat
    } else {
        wait
    }
}

/// Whether some target is a domain.
pub open spec fn any_domain(targets: Seq<Target>) -> bool {
    exists|i: int| 0 <= i < targets.len() && is_domain(#[trigger] targets[i])
}

/// Whether an endpoint of a sampled network has never answered, and has backed off
/// as far as it will.
pub open spec fn is_dead(plan: PoolPlan, m: Map<IpAddr, Health>, a: IpAddr, target: usize) -> bool {
    &&& m.contains_key(a)
    &&& m[a].degraded
    &&& m[a].rtt is None
    &&& m[a].backoff.nanos >= plan.probe.interval.nanos
    &&& target < plan.targets@.len()
    &&& (plan.targets@[target as int].spec matches TargetSpec::Cidr { net, sample } && sample is Some)
}

/// Whether a target is a network that holds an address.
pub open spec fn in_network(spec: TargetSpec, a: IpAddr) -> bool {
    spec matches TargetSpec::Cidr { net, sample } && net.contains(a)
}

/// Whether an address is that of a dead candidate.
pub open spec fn has_died(plan: PoolPlan, candidates: Seq<Candidate>, m: Map<IpAddr, Health>, a: IpAddr) -> bool {
    exists|i: int|
        0 <= i < candidates.len() && (#[trigger] candidates[i]).addr == a && is_dead(plan, m, a, candidates[i].target)
}

/// Whether one state follows on another by replacing dead samples: every address
/// that was given up is that of a dead candidate, its health is forgotten and it
/// leaves the order; every address drawn instead lies in the network of its
/// target. Nothing else changes.
pub open spec fn explored(plan: PoolPlan, candidates: Seq<Candidate>, before: PoolState, after: PoolState) -> bool {
    let gone = after.resampled@.skip(before.resampled@.len() as int);
    &&& after.resolved == before.resolved
    &&& after.resolved_at == before.resolved_at
    &&& before.resampled@.is_prefix_of(after.resampled@)
    &&& after.health@ == before.health@.remove_keys(gone.to_set())
    &&& after.order@ == without(before.order@, gone, before.order@.len() as int)
    &&& forall|k: int| 0 <= k < gone.len() ==> has_died(plan, candidates, before.health@, #[trigger] gone[k])
    &&& after.replacements@.len() == before.replacements@.len()
    &&& forall|t: int|
        0 <= t < after.replacements@.len() ==> before.replacements@[t]@.is_prefix_of(
            (#[trigger] after.replacements@[t])@,
        )
    &&& forall|t: int, k: int|
        #![trigger after.replacements@[t]@[k]]
        0 <= t < after.replacements@.len() && before.replacements@[t]@.len() <= k < after.replacements@[t]@.len()
            ==> in_network(plan.targets@[t].spec, after.replacements@[t]@[k])
}

/// What replacing samples changes of a pool's state.
#[verifier::ext_equal]
pub struct Explored {
    pub health: Map<IpAddr, Health>,
    pub order: Seq<IpAddr>,
    pub resampled: Seq<IpAddr>,
    pub replacements: Seq<Seq<IpAddr>>,
}

impl PoolState {
    /// What replacing samples can change.
    pub open spec fn explored_parts(self) -> Explored {
        Explored {
            health: self.health@,
            order: self.order@,
            resampled: self.resampled@,
            replacements: self.replacements@.map_values(|v: Vec<IpAddr>| v@),
        }
    }
}

/// One candidate, given an address drawn for it: a dead sample gives way to an
/// address that is neither known nor was given up before.
pub open spec fn explore_one(plan: PoolPlan, s: Explored, c: Candidate, draw: Option<IpAddr>) -> Explored {
    match draw {
        Some(fresh) => if is_dead(plan, s.health, c.addr, c.target) && !s.health.contains_key(fresh)
            && !s.resampled.contains(fresh) {
            Explored {
                health: s.health.remove(c.addr),
                order: without(s.order, seq![c.addr], s.order.len() as int),
                resampled: s.resampled.push(c.addr),
                replacements: s.replacements.update(c.target as int, s.replacements[c.target as int].push(fresh)),
            }
        } else {
            s
        },
        None => s,
    }
}

/// The first `n` candidates in turn, given an address drawn for each.
pub open spec fn explore(
    plan: PoolPlan,
    s: Explored,
    candidates: Seq<Candidate>,
    draws: Seq<Option<IpAddr>>,
    n: int,
) -> Explored
    decreases n,
{
    if n <= 0 {
        s
    } else {
        explore_one(plan, explore(plan, s, candidates, draws, n - 1), candidates[n - 1], draws[n - 1])
    }
}

/// Whether every address that was drawn lies in the network of its candidate.
pub open spec fn draws_fit(plan: PoolPlan, candidates: Seq<Candidate>, draws: Seq<Option<IpAddr>>) -> bool {
    forall|i: int|
        0 <= i < draws.len() ==> ((#[trigger] draws[i]) matches Some(fresh) ==> in_network(
            plan.targets@[candidates[i].target as int].spec,
            fresh,
        ))
}

/// Whether an address was drawn for a candidate if it is dead, and from its network.
pub open spec fn draw_suits(plan: PoolPlan, m: Map<IpAddr, Health>, c: Candidate, draw: Option<IpAddr>) -> bool {
    &&& draw is Some == is_dead(plan, m, c.addr, c.target)
    &&& draw matches Some(fresh) ==> in_network(plan.targets@[c.target as int].spec, fresh)
}

/// Whether an address was drawn for every dead candidate, and from its network.
pub open spec fn drawn_for(
    plan: PoolPlan,
    candidates: Seq<Candidate>,
    m: Map<IpAddr, Health>,
    draws: Seq<Option<IpAddr>>,
) -> bool {
    &&& draws.len() == candidates.len()
    &&& forall|i: int| 0 <= i < draws.len() ==> draw_suits(plan, m, candidates[i], #[trigger] draws[i])
}

proof fn lemma_without_nothing(list: Seq<IpAddr>, n: int)
    requires
        0 <= n <= list.len(),
    ensures
        without(list, Seq::empty(), n) == list.take(n),
    decreases n,
{
    if n > 0 {
        lemma_without_nothing(list, n - 1);
        assert(list.take(n) =~= list.take(n - 1).push(list[n - 1]));
    } else {
        assert(list.take(n) =~= Seq::<IpAddr>::empty());
    }
}

proof fn lemma_without_front(list: Seq<IpAddr>, x: IpAddr, gone: Seq<IpAddr>, n: int)
    requires
        0 <= n <= list.len(),
    ensures
        without(list.push(x), gone, n) == without(list, gone, n),
    decreases n,
{
    if n > 0 {
        lemma_without_front(list, x, gone, n - 1);
    }
}

proof fn lemma_without_one_more(list: Seq<IpAddr>, gone: Seq<IpAddr>, dead: IpAddr, n: int)
    requires
        0 <= n <= list.len(),
    ensures
        without(without(list, gone, n), seq![dead], without(list, gone, n).len() as int) == without(
            list,
            gone.push(dead),
            n,
        ),
    decreases n,
{
    if n > 0 {
        lemma_without_one_more(list, gone, dead, n - 1);
        let x = list[n - 1];
        let rest = without(list, gone, n - 1);
        assert(gone.push(dead).contains(x) == (gone.contains(x) || x == dead)) by {
            if gone.contains(x) {
                let k = choose|k: int| 0 <= k < gone.len() && gone[k] == x;
                assert(gone.push(dead)[k] == x);
            }
            assert(gone.push(dead)[gone.len() as int] == dead);
        }
        assert(seq![dead].contains(x) == (x == dead)) by {
            assert(seq![dead][0] == dead);
        }
        if !gone.contains(x) {
            lemma_without_front(rest, x, seq![dead], rest.len() as int);
        }
    }
}

proof fn lemma_explored_step(
    plan: PoolPlan,
    candidates: Seq<Candidate>,
    first: PoolState,
    before: PoolState,
    after: PoolState,
    i: int,
    fresh: IpAddr,
)
    requires
        explored(plan, candidates, first, before),
        0 <= i < candidates.len(),
        is_dead(plan, before.health@, candidates[i].addr, candidates[i].target),
        in_network(plan.targets@[candidates[i].target as int].spec, fresh),
        candidates[i].target < before.replacements@.len(),
        after.resolved == before.resolved,
        after.resolved_at == before.resolved_at,
        after.health@ == before.health@.remove(candidates[i].addr),
        after.resampled@ == before.resampled@.push(candidates[i].addr),
        after.replacements@.len() == before.replacements@.len(),
        after.replacements@[candidates[i].target as int]@ == before.replacements@[candidates[i].target as int]@.push(
            fresh,
        ),
        forall|t: int|
            0 <= t < before.replacements@.len() && t != candidates[i].target ==> #[trigger] after.replacements@[t]
                == before.replacements@[t],
        after.order@ == without(before.order@, seq![candidates[i].addr], before.order@.len() as int),
    ensures
        explored(plan, candidates, first, after),
{
    let n = first.resampled@.len() as int;
    let dead = candidates[i].addr;
    let gone = before.resampled@.skip(n);
    let more = after.resampled@.skip(n);
    assert(more =~= gone.push(dead));
    lemma_without_one_more(first.order@, gone, dead, first.order@.len() as int);
    assert(after.health@ =~= first.health@.remove_keys(more.to_set())) by {
        assert forall|a: IpAddr| more.to_set().contains(a) == (gone.to_set().contains(a) || a == dead) by {
            if gone.contains(a) {
                let k = choose|k: int| 0 <= k < gone.len() && gone[k] == a;
                assert(more[k] == a);
            }
            assert(more[gone.len() as int] == dead);
        }
    }
    assert(has_died(plan, candidates, first.health@, dead));
    assert forall|k: int| 0 <= k < more.len() implies has_died(plan, candidates, first.health@, #[trigger] more[k]) by {
        if k < gone.len() {
            assert(more[k] == gone[k]);
        }
    }
    assert forall|t: int| 0 <= t < after.replacements@.len() implies first.replacements@[t]@.is_prefix_of(
        (#[trigger] after.replacements@[t])@,
    ) by {
        assert(first.replacements@[t]@.is_prefix_of(before.replacements@[t]@));
    }
    assert forall|t: int, k: int|
        #![trigger after.replacements@[t]@[k]]
        0 <= t < after.replacements@.len() && first.replacements@[t]@.len() <= k < after.replacements@[t]@.len() implies in_network(
        plan.targets@[t].spec,
        after.replacements@[t]@[k],
    ) by {
        if k < before.replacements@[t]@.len() {
            assert(after.replacements@[t]@[k] == before.replacements@[t]@[k]);
        }
    }
}

/// The IPv4 addresses of a pool that are projected, in order.
pub open spec fn sources_of(plan: PoolPlan, s: PoolState, p: Nat64Projection) -> Seq<u32> {
    let own = natives(plan.targets@, s, plan.targets@.len() as int);
    sources(own, p.from, own.len() as int)
}

/// The candidates of a cycle, given what each projected address is synthesized to.
pub open spec fn candidates_of(plan: PoolPlan, s: PoolState, synthesized: Seq<Vec<u128>>) -> Seq<CandidateView> {
    let own = natives(plan.targets@, s, plan.targets@.len() as int);
    let all = match plan.nat64 {
        Some(p) => own + projections(own, p.from, plan.targets@, synthesized, own.len() as int),
        None => own,
    };
    deduped(all, all.len() as int)
}

proof fn lemma_natives_in_range(targets: Seq<Target>, s: PoolState, n: int)
    requires
        0 <= n <= usize::MAX,
    ensures
        forall|k: int| 0 <= k < natives(targets, s, n).len() ==> (#[trigger] natives(targets, s, n)[k]).target < n,
    decreases n,
{
    if n > 0 {
        lemma_natives_in_range(targets, s, n - 1);
        let rest = natives(targets, s, n - 1);
        assert forall|k: int| 0 <= k < natives(targets, s, n).len() implies (#[trigger] natives(targets, s, n)[k]).target
            < n by {
            if k < rest.len() {
                assert(natives(targets, s, n)[k] == rest[k]);
            }
        }
    }
}

proof fn lemma_sources_len(list: Seq<CandidateView>, from: Option<Vec<usize>>, n: int)
    ensures
        sources(list, from, n).len() == part_count(list, from, n),
    decreases n,
{
    if n > 0 {
        lemma_sources_len(list, from, n - 1);
    }
}

impl PoolState {
    /// Give every candidate a health entry, due at once if it is new, and forget
    /// the others.
    pub fn tend(&mut self, plan: &PoolPlan, candidates: &Vec<Candidate>, now: Instant)
        requires
            old(self).fits(plan.targets@.len()),
            plan.valid(),
        ensures
            final(self).fits(plan.targets@.len()),
            final(self).health@ == tended(
                old(self).health@,
                ranking::addrs(candidates@),
                now,
                plan.probe.degraded_interval,
            ),
            final(self).order == old(self).order,
            final(self).resampled == old(self).resampled,
            final(self).replacements == old(self).replacements,
            final(self).resolved == old(self).resolved,
            final(self).resolved_at == old(self).resolved_at,
    {
        let live = addrs_of(candidates);
        let ghost before = self.health@;
        let base = plan.probe.degraded_interval;
        let mut i: usize = 0;
        while i < live.len()
            invariant
                plan.valid(),
                self.fits(plan.targets@.len()),
                self.order == old(self).order,
                self.resampled == old(self).resampled,
                self.replacements == old(self).replacements,
                self.resolved == old(self).resolved,
                self.resolved_at == old(self).resolved_at,
                base == plan.probe.degraded_interval,
                i <= live@.len(),
                forall|a: IpAddr| #[trigger]
                    self.health@.contains_key(a) <==> before.contains_key(a) || exists|k: int|
                        0 <= k < i && #[trigger] live@[k] == a,
                forall|a: IpAddr| #[trigger]
                    self.health@.contains_key(a) ==> self.health@[a] == (if before.contains_key(a) {
                        before[a]
                    } else {
                        Health::fresh(now, base)
                    }),
            decreases live@.len() - i,
        {
            let ghost mid = self.health@;
            if self.health.get(live[i]).is_none() {
                self.health.set(live[i], Health::new(now, base));
            }
            proof {
                assert forall|a: IpAddr| #[trigger] self.health@.contains_key(a) <==> before.contains_key(a)
                    || exists|k: int| 0 <= k < i + 1 && #[trigger] live@[k] == a by {
                    assert(mid.contains_key(a) || !mid.contains_key(a));
                    assert(live@[i as int] == live@[i as int]);
                }
            }
            i = i + 1;
        }
        let ghost full = self.health@;
        self.health.retain(&live);
        assert(self.health@ =~= tended(before, live@, now, base)) by {
            assert forall|a: IpAddr| live@.contains(a) implies full.contains_key(a) by {
                let k = choose|k: int| 0 <= k < live@.len() && live@[k] == a;
                assert(live@[k] == a);
            }
            assert forall|a: IpAddr| live@.to_set().contains(a) == live@.contains(a) by {}
        }
        assert(ranking::measurable(self.health@)) by {
            assert forall|a: IpAddr| #[trigger] self.health@.contains_key(a) implies self.health@[a].valid() by {
                assert(full.contains_key(a));
            }
        }
    }

    /// The candidates of a cycle: the targets' own, then their projections, each
    /// address once. Every one of them has a health entry, and only they do.
    /// `synthesized` holds, for each address that is projected, what it becomes
    /// under every prefix.
    pub fn build_candidates(&mut self, plan: &PoolPlan, synthesized: &Vec<Vec<u128>>, now: Instant) -> (r: Vec<
        Candidate,
    >)
        requires
            old(self).fits(plan.targets@.len()),
            plan.valid(),
            plan.nat64 matches Some(p) ==> synthesized@.len() == sources_of(*plan, *old(self), p).len(),
        ensures
            views(r@) == candidates_of(*plan, *old(self), synthesized@),
            final(self).fits(plan.targets@.len()),
            final(self).health@ == tended(
                old(self).health@,
                ranking::addrs(r@),
                now,
                plan.probe.degraded_interval,
            ),
            final(self).order == old(self).order,
            final(self).resampled == old(self).resampled,
            final(self).replacements == old(self).replacements,
            final(self).resolved == old(self).resolved,
            final(self).resolved_at == old(self).resolved_at,
    {
        let own = self.native_candidates(plan);
        proof {
            lemma_natives_in_range(plan.targets@, *self, plan.targets.len() as int);
            assert forall|i: int| 0 <= i < own@.len() implies (#[trigger] own@[i]).target < plan.targets@.len() by {
                assert(views(own@)[i] == own@[i]@);
            }
        }
        let all = match &plan.nat64 {
            Some(p) => {
                proof {
                    lemma_sources_len(views(own@), p.from, own@.len() as int);
                }
                with_nat64(own, &p.from, &plan.targets, synthesized)
            },
            None => own,
        };
        let candidates = dedup(all);
        self.tend(plan, &candidates, now);
        candidates
    }

    /// Which candidates are due.
    pub fn due(&self, candidates: &Vec<Candidate>, now: Instant) -> (r: Vec<usize>)
        requires
            self.health.valid(),
        ensures
            r@ == due_places(ranking::addrs(candidates@), self.health@, now, candidates@.len() as int),
    {
        let ghost live = ranking::addrs(candidates@);
        let mut out: Vec<usize> = Vec::new();
        let mut i: usize = 0;
        while i < candidates.len()
            invariant
                self.health.valid(),
                live == ranking::addrs(candidates@),
                i <= candidates@.len(),
                out@ == due_places(live, self.health@, now, i as int),
            decreases candidates@.len() - i,
        {
            assert(live[i as int] == candidates@[i as int].addr);
            let waits = match self.health.get(candidates[i].addr) {
                Some(h) => h.next_probe.nanos > now.nanos,
                None => false,
            };
            if !waits {
                out.push(i);
            }
            i = i + 1;
        }
        out
    }

    /// Take the outcome of a probe: the round-trip time, or none if it failed.
    pub fn on_outcome(&mut self, plan: &PoolPlan, addr: IpAddr, outcome: Option<Duration>, now: Instant) -> (r: Change)
        requires
            old(self).fits(plan.targets@.len()),
            plan.valid(),
            now.valid(),
            outcome matches Some(d) ==> d.valid(),
        ensures
            final(self).fits(plan.targets@.len()),
            final(self).order == old(self).order,
            final(self).resampled == old(self).resampled,
            final(self).replacements == old(self).replacements,
            final(self).resolved == old(self).resolved,
            final(self).resolved_at == old(self).resolved_at,
            if old(self).health@.contains_key(addr) {
                let before = old(self).health@[addr];
                let after = probed(before, plan.probe, outcome, now);
                &&& final(self).health@ == old(self).health@.insert(addr, after)
                &&& r == (if before.degraded && !after.degraded {
                    Change::Recovered
                } else if !before.degraded && after.degraded {
                    Change::Degraded
                } else {
                    Change::Nothing
                })
            } else {
                final(self).health@ == old(self).health@ && r == Change::Unknown
            },
    {
        let mut h = match self.health.get(addr) {
            Some(h) => h,
            None => return Change::Unknown,
        };
        let was_degraded = h.degraded;
        assert(self.health@.contains_key(addr));
        match outcome {
            Some(rtt) => h.record_success(now, rtt, plan.probe.interval, plan.probe.degraded_interval),
            None => h.record_failure(
                now,
                plan.probe.fail_threshold,
                plan.probe.interval,
                plan.probe.degraded_interval,
            ),
        }
        self.health.set(addr, h);
        if was_degraded && !h.degraded {
            Change::Recovered
        } else if !was_degraded && h.degraded {
            Change::Degraded
        } else {
            Change::Nothing
        }
    }

    /// Whether a candidate is a sample that never answered.
    pub fn is_dead_sample(&self, plan: &PoolPlan, c: &Candidate) -> (r: Option<Network>)
        requires
            self.health.valid(),
            plan.valid(),
        ensures
            r is Some == is_dead(*plan, self.health@, c.addr, c.target),
            r matches Some(n) ==> n.valid() && (plan.targets@[c.target as int].spec matches TargetSpec::Cidr {
                net,
                sample,
            } && n == net),
    {
        let h = match self.health.get(c.addr) {
            Some(h) => h,
            None => return None,
        };
        if !h.degraded || h.rtt.is_some() || h.backoff.nanos < plan.probe.interval.nanos || c.target
            >= plan.targets.len() {
            return None;
        }
        assert(plan.targets@[c.target as int].valid());
        match &plan.targets[c.target].spec {
            TargetSpec::Cidr { net, sample } => if sample.is_some() {
                Some(*net)
            } else {
                None
            },
            _ => None,
        }
    }

    /// Replace an address of a target by another that was drawn, unless that one is
    /// known or was replaced before.
    pub fn replace(&mut self, target: usize, dead: IpAddr, fresh: IpAddr) -> (r: bool)
        requires
            old(self).health.valid(),
            target < old(self).replacements@.len(),
        ensures
            final(self).health.valid(),
            r == !(old(self).health@.contains_key(fresh) || old(self).resampled@.contains(fresh)),
            r ==> {
                &&& final(self).health@ == old(self).health@.remove(dead)
                &&& final(self).resampled@ == old(self).resampled@.push(dead)
                &&& final(self).replacements@.len() == old(self).replacements@.len()
                &&& final(self).replacements@[target as int]@ == old(self).replacements@[target as int]@.push(fresh)
                &&& forall|i: int|
                    0 <= i < old(self).replacements@.len() && i != target ==> #[trigger] final(self).replacements@[i]
                        == old(self).replacements@[i]
                &&& final(self).order@ == without(old(self).order@, seq![dead], old(self).order@.len() as int)
            },
            !r ==> *final(self) == *old(self),
            final(self).resolved == old(self).resolved,
            final(self).resolved_at == old(self).resolved_at,
    {
        if self.health.get(fresh).is_some() || holds(&self.resampled, fresh) {
            return false;
        }
        let mut gone: Vec<IpAddr> = Vec::new();
        gone.push(dead);
        assert(gone@ =~= seq![dead]);
        self.order = left_over(&self.order, &gone);
        self.resampled.push(dead);
        self.health.remove(dead);
        let mut list: Vec<IpAddr> = Vec::new();
        let ghost known = self.replacements@[target as int]@;
        let mut i: usize = 0;
        while i < self.replacements[target].len()
            invariant
                target < self.replacements@.len(),
                known == self.replacements@[target as int]@,
                i <= known.len(),
                list@ == known.take(i as int),
            decreases known.len() - i,
        {
            list.push(self.replacements[target][i]);
            i = i + 1;
            assert(list@ =~= known.take(i as int));
        }
        assert(list@ =~= known);
        list.push(fresh);
        self.replacements.set(target, list);
        true
    }

    /// Replace the samples that never answered by addresses that were drawn, one
    /// for each candidate that may need it. One that has answered before may have an
    /// outage, and what has been measured of it is kept. A sample stays where the
    /// address drawn for it is known already.
    pub fn resample_with(&mut self, plan: &PoolPlan, candidates: &Vec<Candidate>, draws: &Vec<Option<IpAddr>>)
        requires
            old(self).fits(plan.targets@.len()),
            plan.valid(),
            draws@.len() == candidates@.len(),
        ensures
            final(self).fits(plan.targets@.len()),
            final(self).explored_parts() == explore(
                *plan,
                old(self).explored_parts(),
                candidates@,
                draws@,
                candidates@.len() as int,
            ),
            final(self).resolved == old(self).resolved,
            final(self).resolved_at == old(self).resolved_at,
            draws_fit(*plan, candidates@, draws@) ==> explored(*plan, candidates@, *old(self), *final(self)),
    {
        let mut i: usize = 0;
        proof {
            assert(self.resampled@.skip(self.resampled@.len() as int) =~= Seq::<IpAddr>::empty());
            lemma_without_nothing(self.order@, self.order@.len() as int);
            assert(self.order@.take(self.order@.len() as int) =~= self.order@);
            assert(self.health@.remove_keys(Seq::<IpAddr>::empty().to_set()) =~= self.health@);
        }
        while i < candidates.len()
            invariant
                plan.valid(),
                self.fits(plan.targets@.len()),
                i <= candidates@.len(),
                draws@.len() == candidates@.len(),
                self.explored_parts() == explore(
                    *plan,
                    old(self).explored_parts(),
                    candidates@,
                    draws@,
                    i as int,
                ),
                self.resolved == old(self).resolved,
                self.resolved_at == old(self).resolved_at,
                draws_fit(*plan, candidates@, draws@) ==> explored(*plan, candidates@, *old(self), *self),
            decreases candidates@.len() - i,
        {
            let c = &candidates[i];
            let ghost before = *self;
            match (self.is_dead_sample(plan, c), draws[i]) {
                (Some(_), Some(fresh)) => {
                    let done = self.replace(c.target, c.addr, fresh);
                    proof {
                        assert(candidates@[i as int].addr == c.addr);
                        if done {
                            assert(self.explored_parts().replacements =~= before.explored_parts().replacements.update(
                                c.target as int,
                                before.explored_parts().replacements[c.target as int].push(fresh),
                            ));
                            if draws_fit(*plan, candidates@, draws@) {
                                assert(draws@[i as int] == Some(fresh));
                                lemma_explored_step(
                                    *plan,
                                    candidates@,
                                    *old(self),
                                    before,
                                    *self,
                                    i as int,
                                    fresh,
                                );
                            }
                        }
                    }
                },
                _ => {},
            }
            i = i + 1;
        }
    }

    /// Replace the samples that never answered, by chance: an address is drawn for
    /// each of them, and [`PoolState::resample_with`] takes them.
    pub fn resample_dead(&mut self, plan: &PoolPlan, candidates: &Vec<Candidate>)
        requires
            old(self).fits(plan.targets@.len()),
            plan.valid(),
        ensures
            final(self).fits(plan.targets@.len()),
            explored(*plan, candidates@, *old(self), *final(self)),
            exists|draws: Seq<Option<IpAddr>>| #[trigger]
                drawn_for(*plan, candidates@, old(self).health@, draws) && final(self).explored_parts() == explore(
                    *plan,
                    old(self).explored_parts(),
                    candidates@,
                    draws,
                    candidates@.len() as int,
                ),
    {
        let mut draws: Vec<Option<IpAddr>> = Vec::new();
        let mut i: usize = 0;
        while i < candidates.len()
            invariant
                plan.valid(),
                self.fits(plan.targets@.len()),
                i <= candidates@.len(),
                draws@.len() == i,
                forall|k: int|
                    0 <= k < i ==> draw_suits(*plan, self.health@, candidates@[k], #[trigger] draws@[k]),
            decreases candidates@.len() - i,
        {
            let draw = match self.is_dead_sample(plan, &candidates[i]) {
                Some(net) => {
                    let fresh = draw_sample(&net, Some(1));
                    assert(net.contains(fresh@[0]));
                    Some(fresh[0])
                },
                None => None,
            };
            draws.push(draw);
            i = i + 1;
        }
        assert(drawn_for(*plan, candidates@, self.health@, draws@));
        assert(draws_fit(*plan, candidates@, draws@));
        self.resample_with(plan, candidates, &draws);
    }

    /// Recompute the order and keep it: the margin is relative to the previous
    /// order, and without that every cycle would start from scratch.
    pub fn recompute_order(&mut self, candidates: &Vec<Candidate>)
        requires
            old(self).health.valid(),
            ranking::measurable(old(self).health@),
        ensures
            final(self).order@ == ranking::reordered(
                old(self).order@,
                ranking::addrs(candidates@),
                old(self).health@,
            ),
            final(self).health == old(self).health,
            final(self).resampled == old(self).resampled,
            final(self).replacements == old(self).replacements,
            final(self).resolved == old(self).resolved,
            final(self).resolved_at == old(self).resolved_at,
    {
        self.order = reorder_with_hysteresis(&self.order, &self.health, candidates);
    }

    /// How long the pool can rest.
    pub fn next_due(&self, plan: &PoolPlan, candidates: &Vec<Candidate>, now: Instant) -> (r: Duration)
        requires
            self.fits(plan.targets@.len()),
        ensures
            r.nanos == rest_of(
                soonest(ranking::addrs(candidates@), self.health@, now, candidates@.len() as int),
                any_domain(plan.targets@),
                dns_wait(
                    self.resolved_at,
                    if unanswered(plan.targets@, self.resolved@) {
                        plan.probe.degraded_interval
                    } else {
                        plan.probe.interval
                    },
                    now,
                ),
                plan.probe.interval.nanos as nat,
            ),
    {
        let ghost live = ranking::addrs(candidates@);
        let mut first: Option<u128> = None;
        let mut i: usize = 0;
        while i < candidates.len()
            invariant
                self.health.valid(),
                live == ranking::addrs(candidates@),
                i <= candidates@.len(),
                match first {
                    Some(w) => soonest(live, self.health@, now, i as int) == Some(w as nat),
                    None => soonest(live, self.health@, now, i as int) is None,
                },
            decreases candidates@.len() - i,
        {
            assert(live[i as int] == candidates@[i as int].addr);
            match self.health.get(candidates[i].addr) {
                Some(h) => {
                    let wait = if h.next_probe.nanos >= now.nanos {
                        h.next_probe.nanos - now.nanos
                    } else {
                        0
                    };
                    first = match first {
                        Some(w) => if wait < w {
                            Some(wait)
                        } else {
                            Some(w)
                        },
                        None => Some(wait),
                    };
                },
                None => {},
            }
            i = i + 1;
        }
        let refresh = dns_refresh(plan, self);
        let dns: u128 = match self.resolved_at {
            None => 0,
            Some(at) => {
                let passed = if now.nanos >= at.nanos {
                    now.nanos - at.nanos
                } else {
                    0
                };
                if passed >= refresh.nanos {
                    0
                } else {
                    refresh.nanos - passed
                }
            },
        };
        let mut has_domain = false;
        let mut i: usize = 0;
        while i < plan.targets.len() && !has_domain
            invariant
                i <= plan.targets@.len(),
                has_domain ==> any_domain(plan.targets@),
                !has_domain ==> forall|k: int| 0 <= k < i ==> !is_domain(#[trigger] plan.targets@[k]),
            decreases plan.targets@.len() - i,
        {
            match &plan.targets[i].spec {
                TargetSpec::Domain(_) => {
                    assert(is_domain(plan.targets@[i as int]));
                    has_domain = true;
                },
                _ => {},
            }
            i = i + 1;
        }
        let wait = match first {
            Some(p) => if has_domain && dns < p {
                dns
            } else {
                p
            },
            None => if has_domain {
                dns
            } else {
                plan.probe.interval.nanos
            },
        };
        if wait < SHORTEST_PAUSE_NANOS {
            Duration { nanos: SHORTEST_PAUSE_NANOS }
        } else {
            Duration { nanos: wait }
        }
    }
}

impl PoolPlan {
    /// How long a probe of a candidate may take.
    pub fn budget(&self, c: &Candidate) -> (r: Duration)
        ensures
            r == (match self.nat64 {
                Some(n) => if text::texts(c.tags@).contains("nat64"@) {
                    n.timeout
                } else {
                    self.probe.timeout
                },
                None => self.probe.timeout,
            }),
    {
        match &self.nat64 {
            Some(n) => if c.tagged("nat64") {
                n.timeout
            } else {
                self.probe.timeout
            },
            None => self.probe.timeout,
        }
    }
}

// ---------------------------------------------------------------------------
// Laws
// ---------------------------------------------------------------------------

spec fn from_list(list: Seq<CandidateView>, n: int, c: CandidateView) -> bool {
    exists|k: int| 0 <= k < n && #[trigger] list[k] == c
}

/// Whether a list has an address.
pub open spec fn lists(list: Seq<CandidateView>, a: IpAddr) -> bool {
    exists|i: int| 0 <= i < list.len() && (#[trigger] list[i]).addr == a
}

/// Whether no two of a list have the same address.
pub open spec fn all_apart(list: Seq<CandidateView>) -> bool {
    forall|i: int, j: int| #![trigger list[i], list[j]] 0 <= i < j < list.len() ==> list[i].addr != list[j].addr
}

proof fn lemma_lists_push(list: Seq<CandidateView>, c: CandidateView, a: IpAddr)
    ensures
        lists(list.push(c), a) == (lists(list, a) || c.addr == a),
{
    let all = list.push(c);
    if lists(list, a) {
        let i = choose|i: int| 0 <= i < list.len() && (#[trigger] list[i]).addr == a;
        assert(all[i].addr == a);
    }
    assert(all[list.len() as int] == c);
    if lists(all, a) && c.addr != a {
        let i = choose|i: int| 0 <= i < all.len() && (#[trigger] all[i]).addr == a;
        assert(list[i].addr == a);
    }
}

proof fn lemma_deduped(list: Seq<CandidateView>, n: int)
    requires
        0 <= n <= list.len(),
    ensures
        forall|i: int| 0 <= i < deduped(list, n).len() ==> from_list(list, n, #[trigger] deduped(list, n)[i]),
        all_apart(deduped(list, n)),
        forall|k: int| 0 <= k < n ==> lists(deduped(list, n), (#[trigger] list[k]).addr),
    decreases n,
{
    if n > 0 {
        lemma_deduped(list, n - 1);
        let rest = deduped(list, n - 1);
        let all = deduped(list, n);
        let x = list[n - 1];
        let seen = exists|i: int| 0 <= i < n - 1 && (#[trigger] list[i]).addr == x.addr;
        assert forall|i: int| 0 <= i < all.len() implies from_list(list, n, #[trigger] all[i]) by {
            if i < rest.len() {
                assert(all[i] == rest[i]);
                assert(from_list(list, n - 1, rest[i]));
            } else {
                assert(list[n - 1] == all[i]);
            }
        }
        if seen {
            let w = choose|i: int| 0 <= i < n - 1 && (#[trigger] list[i]).addr == x.addr;
            assert(lists(rest, list[w].addr));
        } else {
            assert forall|i: int, j: int| #![trigger all[i], all[j]] 0 <= i < j < all.len() implies all[i].addr
                != all[j].addr by {
                assert(all[i] == rest[i]);
                if j == rest.len() {
                    assert(from_list(list, n - 1, rest[i]));
                } else {
                    assert(all[j] == rest[j]);
                }
            }
            assert forall|k: int| 0 <= k < n implies lists(all, (#[trigger] list[k]).addr) by {
                lemma_lists_push(rest, x, list[k].addr);
            }
        }
    }
}

/// No address is probed twice, and none is lost: the candidates hold every address
/// that the targets stand for exactly once.
pub proof fn law_candidates_are_distinct(list: Seq<CandidateView>)
    ensures
        all_apart(deduped(list, list.len() as int)),
        forall|k: int| 0 <= k < list.len() ==> lists(deduped(list, list.len() as int), (#[trigger] list[k]).addr),
{
    lemma_deduped(list, list.len() as int);
}

proof fn lemma_without(list: Seq<IpAddr>, gone: Seq<IpAddr>, n: int, a: IpAddr)
    requires
        0 <= n <= list.len(),
        gone.contains(a),
    ensures
        !without(list, gone, n).contains(a),
    decreases n,
{
    if n > 0 {
        lemma_without(list, gone, n - 1, a);
    }
}

/// An address that was given up is not tried again: no network stands for it any
/// more, neither for what was drawn from it at first nor for what was drawn instead.
pub proof fn law_what_was_given_up_is_not_retried(
    t: Target,
    resampled: Seq<IpAddr>,
    replacements: Seq<IpAddr>,
    resolved: Option<Vec<IpAddr>>,
    a: IpAddr,
)
    requires
        t.spec is Cidr,
        resampled.contains(a),
    ensures
        !target_addrs(t, resampled, replacements, resolved).contains(a),
{
    lemma_without(t.sampled@, resampled, t.sampled@.len() as int, a);
    lemma_without(replacements, resampled, replacements.len() as int, a);
    let first = without(t.sampled@, resampled, t.sampled@.len() as int);
    let instead = without(replacements, resampled, replacements.len() as int);
    assert forall|i: int| 0 <= i < (first + instead).len() implies (first + instead)[i] != a by {
        if i < first.len() {
            assert(first.contains(first[i]));
        } else {
            assert(instead.contains(instead[i - first.len()]));
        }
    }
}

/// A change of the candidates keeps what has been measured of those that stay.
pub proof fn law_measurements_survive(
    m: Map<IpAddr, Health>,
    live: Seq<IpAddr>,
    now: Instant,
    base: Duration,
    a: IpAddr,
)
    requires
        m.contains_key(a),
        live.contains(a),
    ensures
        tended(m, live, now, base).contains_key(a),
        tended(m, live, now, base)[a] == m[a],
{
}

/// A pool never spins, however many deadlines have passed.
pub proof fn law_pool_never_spins(soonest: Option<nat>, has_domain: bool, dns: nat, interval: nat)
    ensures
        rest_of(soonest, has_domain, dns, interval) >= 50000000,
{
}

proof fn lemma_keeps(list: Seq<IpAddr>, gone: Seq<IpAddr>, n: int, a: IpAddr)
    requires
        0 <= n <= list.len(),
        !gone.contains(a),
        exists|i: int| 0 <= i < n && list[i] == a,
    ensures
        without(list, gone, n).contains(a),
    decreases n,
{
    let before = without(list, gone, n - 1);
    let all = without(list, gone, n);
    if list[n - 1] == a {
        assert(all[before.len() as int] == a);
    } else {
        lemma_keeps(list, gone, n - 1, a);
        let k = choose|k: int| 0 <= k < before.len() && before[k] == a;
        assert(all[k] == before[k]);
    }
}

/// An address stands for itself, a domain for all that it was last resolved to, and a
/// network for what was drawn from it, at first and instead, without what was given up.
pub proof fn law_target_stands_for_its_addresses(
    t: Target,
    resampled: Seq<IpAddr>,
    replacements: Seq<IpAddr>,
    resolved: Option<Vec<IpAddr>>,
    a: IpAddr,
)
    ensures
        t.spec matches TargetSpec::Ip(ip) ==> target_addrs(t, resampled, replacements, resolved) == seq![ip],
        t.spec is Domain ==> (resolved matches Some(ips) ==> target_addrs(t, resampled, replacements, resolved) == ips@),
        t.spec is Domain && resolved is None ==> target_addrs(t, resampled, replacements, resolved).len() == 0,
        t.spec is Cidr && !resampled.contains(a) && (t.sampled@.contains(a) || replacements.contains(a))
            ==> target_addrs(t, resampled, replacements, resolved).contains(a),
{
    if t.spec is Cidr && !resampled.contains(a) {
        let x = without(t.sampled@, resampled, t.sampled@.len() as int);
        let y = without(replacements, resampled, replacements.len() as int);
        if t.sampled@.contains(a) {
            let i = choose|i: int| 0 <= i < t.sampled@.len() && t.sampled@[i] == a;
            assert(t.sampled@[i] == a);
            lemma_keeps(t.sampled@, resampled, t.sampled@.len() as int, a);
            let k = choose|k: int| 0 <= k < x.len() && x[k] == a;
            assert((x + y)[k] == a);
        } else if replacements.contains(a) {
            let i = choose|i: int| 0 <= i < replacements.len() && replacements[i] == a;
            assert(replacements[i] == a);
            lemma_keeps(replacements, resampled, replacements.len() as int, a);
            let k = choose|k: int| 0 <= k < y.len() && y[k] == a;
            assert((x + y)[x.len() + k] == a);
        }
    }
}

/// A candidate is tagged by its family, and as a projection if it is one, before the tags
/// of its target.
pub proof fn law_candidates_are_tagged(target: usize, tags: Seq<String>, v4: u32, v6: u128)
    ensures
        native(target, tags, IpAddr::V4(v4)) == (CandidateView {
            addr: IpAddr::V4(v4),
            target,
            tags: seq!["ipv4"@] + text::texts(tags),
        }),
        native(target, tags, IpAddr::V6(v6)) == (CandidateView {
            addr: IpAddr::V6(v6),
            target,
            tags: seq!["ipv6"@] + text::texts(tags),
        }),
        projected(target, tags, v6) == (CandidateView {
            addr: IpAddr::V6(v6),
            target,
            tags: seq!["nat64"@, "ipv6"@] + text::texts(tags),
        }),
{
}

/// Every address that a target stands for is among the candidates, under that target's
/// place and tags.
pub proof fn law_every_target_is_represented(targets: Seq<Target>, s: PoolState, n: int, t: int, a: IpAddr)
    requires
        0 <= t < n <= usize::MAX,
        target_addrs(targets[t], s.resampled@, s.replacements@[t]@, s.resolved@[t]).contains(a),
    ensures
        natives(targets, s, n).contains(native(t as usize, targets[t].custom_tags@, a)),
    decreases n,
{
    let before = natives(targets, s, n - 1);
    let own = target_addrs(targets[n - 1], s.resampled@, s.replacements@[n - 1]@, s.resolved@[n - 1]);
    let more = own.map_values(|x: IpAddr| native((n - 1) as usize, targets[n - 1].custom_tags@, x));
    let c = native(t as usize, targets[t].custom_tags@, a);
    if t == n - 1 {
        let i = choose|i: int| 0 <= i < own.len() && own[i] == a;
        assert(more[i] == c);
        assert((before + more)[before.len() + i] == c);
    } else {
        law_every_target_is_represented(targets, s, n - 1, t, a);
        let i = choose|i: int| 0 <= i < before.len() && before[i] == c;
        assert((before + more)[i] == c);
    }
}

/// Of candidates with one address the first is kept.
pub proof fn law_first_of_an_address_is_kept(list: Seq<CandidateView>, n: int, k: int)
    requires
        0 <= k < n <= list.len(),
        forall|i: int| 0 <= i < k ==> (#[trigger] list[i]).addr != list[k].addr,
    ensures
        deduped(list, n).contains(list[k]),
    decreases n,
{
    let before = deduped(list, n - 1);
    let all = deduped(list, n);
    if k == n - 1 {
        assert(all[before.len() as int] == list[k]);
    } else {
        law_first_of_an_address_is_kept(list, n - 1, k);
        let i = choose|i: int| 0 <= i < before.len() && before[i] == list[k];
        assert(all[i] == before[i]);
    }
}

/// The IPv4 candidates are projected, all of them or those of the targets that were
/// named; no other is.
pub proof fn law_ipv4_candidates_are_projected(c: CandidateView, from: Option<Vec<usize>>)
    ensures
        c.addr is V6 ==> !takes_part(c, from),
        c.addr is V4 && from is None ==> takes_part(c, from),
        c.addr is V4 ==> (from matches Some(list) ==> (takes_part(c, from) <==> list@.contains(c.target))),
{
}

/// Each projected candidate is handed out for projection in its turn, and what comes back
/// for it joins the candidates, under its own target.
pub proof fn law_projections_join_the_candidates(
    list: Seq<CandidateView>,
    from: Option<Vec<usize>>,
    targets: Seq<Target>,
    synthesized: Seq<Vec<u128>>,
    n: int,
    k: int,
    j: int,
)
    requires
        0 <= k < n <= list.len(),
        takes_part(list[k], from),
        0 <= j < synthesized[part_count(list, from, k) as int]@.len(),
    ensures
        projections(list, from, targets, synthesized, n).contains(
            projected(
                list[k].target,
                targets[list[k].target as int].custom_tags@,
                synthesized[part_count(list, from, k) as int]@[j],
            ),
        ),
        part_count(list, from, k) < sources(list, from, n).len(),
        IpAddr::V4(sources(list, from, n)[part_count(list, from, k) as int]) == list[k].addr,
        sources(list, from, n).len() == part_count(list, from, n),
    decreases n,
{
    let before = projections(list, from, targets, synthesized, n - 1);
    let t = list[n - 1].target;
    let c = projected(
        list[k].target,
        targets[list[k].target as int].custom_tags@,
        synthesized[part_count(list, from, k) as int]@[j],
    );
    lemma_sources_count(list, from, n);
    lemma_sources_count(list, from, n - 1);
    let more = synthesized[part_count(list, from, n - 1) as int]@.map_values(
        |a: u128| projected(t, targets[t as int].custom_tags@, a),
    );
    if k == n - 1 {
        assert(more[j] == c);
        assert((before + more)[before.len() + j] == c);
    } else {
        law_projections_join_the_candidates(list, from, targets, synthesized, n - 1, k, j);
        let i = choose|i: int| 0 <= i < before.len() && before[i] == c;
        assert((before + more)[i] == c);
    }
}

proof fn lemma_sources_count(list: Seq<CandidateView>, from: Option<Vec<usize>>, n: int)
    requires
        0 <= n <= list.len(),
    ensures
        sources(list, from, n).len() == part_count(list, from, n),
    decreases n,
{
    if n > 0 {
        lemma_sources_count(list, from, n - 1);
    }
}

/// A target that was named for projection is idle exactly where it has no IPv4 candidate.
pub proof fn law_idle_targets_have_nothing_to_project(list: Seq<CandidateView>, from: Seq<usize>, n: int, t: usize)
    requires
        0 <= n <= from.len(),
    ensures
        idle_targets(list, from, n).contains(t) <==> from.take(n).contains(t) && forall|j: int|
            0 <= j < list.len() && (#[trigger] list[j]).target == t ==> list[j].addr is V6,
    decreases n,
{
    let idle = idle_targets(list, from, n);
    let front = from.take(n);
    let v4 = has_v4(list, t);
    if v4 {
        let j = choose|j: int| 0 <= j < list.len() && (#[trigger] list[j]).target == t && list[j].addr is V4;
        assert(list[j].target == t);
    }
    if n > 0 {
        let less = idle_targets(list, from, n - 1);
        let part = from.take(n - 1);
        law_idle_targets_have_nothing_to_project(list, from, n - 1, t);
        assert(front =~= part.push(from[n - 1]));
        if part.contains(t) {
            let i = choose|i: int| 0 <= i < part.len() && part[i] == t;
            assert(front[i] == t);
        }
        if from[n - 1] == t {
            assert(front[n - 1] == t);
        }
        if less.contains(t) {
            let i = choose|i: int| 0 <= i < less.len() && less[i] == t;
            assert(idle[i] == t);
        }
        if from[n - 1] == t && !v4 {
            assert(idle[less.len() as int] == t);
        }
        if idle.contains(t) {
            let i = choose|i: int| 0 <= i < idle.len() && idle[i] == t;
            if i < less.len() {
                assert(less[i] == t);
            }
        }
    }
}

/// A candidate is probed as soon as its time has come, or if nothing is known of it; one
/// whose time is yet to come is left alone.
pub proof fn law_due_candidates_are_probed(live: Seq<IpAddr>, m: Map<IpAddr, Health>, now: Instant, n: int, i: usize)
    requires
        0 <= n <= live.len(),
        n <= usize::MAX,
    ensures
        due_places(live, m, now, n).contains(i) <==> {
            &&& i < n
            &&& m.contains_key(live[i as int]) ==> m[live[i as int]].next_probe.nanos <= now.nanos
        },
    decreases n,
{
    if n > 0 {
        let less = due_places(live, m, now, n - 1);
        let all = due_places(live, m, now, n);
        law_due_candidates_are_probed(live, m, now, n - 1, i);
        if less.contains(i) {
            let k = choose|k: int| 0 <= k < less.len() && less[k] == i;
            assert(all[k] == i);
        }
        if i == n - 1 && all.len() > less.len() {
            assert(all[less.len() as int] == i);
        }
        if all.contains(i) {
            let k = choose|k: int| 0 <= k < all.len() && all[k] == i;
            if k < less.len() {
                assert(less[k] == i);
            }
        }
    }
}

/// The soonest wait is that of some candidate, and no candidate's is shorter.
pub proof fn law_soonest_is_the_shortest_wait(live: Seq<IpAddr>, m: Map<IpAddr, Health>, now: Instant, n: int)
    requires
        0 <= n <= live.len(),
    ensures
        forall|i: int|
            0 <= i < n && m.contains_key(#[trigger] live[i]) ==> (soonest(live, m, now, n) matches Some(w) && now.nanos + w
                <= (if m[live[i]].next_probe.nanos > now.nanos {
                m[live[i]].next_probe.nanos
            } else {
                now.nanos
            })),
        soonest(live, m, now, n) matches Some(w) ==> exists|i: int|
            0 <= i < n && m.contains_key(#[trigger] live[i]) && (now.nanos + w == m[live[i]].next_probe.nanos || (w == 0
                && m[live[i]].next_probe.nanos <= now.nanos)),
    decreases n,
{
    if n > 0 {
        law_soonest_is_the_shortest_wait(live, m, now, n - 1);
        if m.contains_key(live[n - 1]) {
            assert(live[n - 1] == live[n - 1]);
        }
    }
}

/// Domains are resolved at once if they never were, and again as soon as the interval
/// has passed; until that is how long to wait.
pub proof fn law_domains_are_resolved_on_time(at: Instant, refresh: Duration, now: Instant)
    ensures
        dns_is_due(None, refresh, now),
        dns_wait(None, refresh, now) == 0,
        now.nanos >= at.nanos + refresh.nanos ==> dns_is_due(Some(at), refresh, now) && dns_wait(Some(at), refresh, now)
            == 0,
        at.nanos <= now.nanos < at.nanos + refresh.nanos ==> !dns_is_due(Some(at), refresh, now) && now.nanos + dns_wait(
            Some(at),
            refresh,
            now,
        ) == at.nanos + refresh.nanos,
{
}

/// A pool rests until the first of its deadlines, a domain's if it has any among them,
/// and for its interval if it has none; 50 milliseconds at least.
pub proof fn law_pool_rests_until_its_first_deadline(probe: nat, dns: nat, interval: nat)
    requires
        probe >= 50000000,
        dns >= 50000000,
        interval >= 50000000,
    ensures
        rest_of(Some(probe), false, dns, interval) == probe,
        dns <= probe ==> rest_of(Some(probe), true, dns, interval) == dns,
        probe <= dns ==> rest_of(Some(probe), true, dns, interval) == probe,
        rest_of(None, true, dns, interval) == dns,
        rest_of(None, false, dns, interval) == interval,
        forall|b: bool, d: nat| #[trigger] rest_of(Some(0), b, d, interval) == 50000000,
{
}

/// A sample is dead exactly where it is out of the ranking, has never answered, has backed
/// off to the probe interval, and comes of a network with a sample count.
pub proof fn law_dead_samples(plan: PoolPlan, m: Map<IpAddr, Health>, a: IpAddr, target: usize)
    requires
        m.contains_key(a),
        target < plan.targets@.len(),
    ensures
        m[a].rtt is Some ==> !is_dead(plan, m, a, target),
        !m[a].degraded ==> !is_dead(plan, m, a, target),
        m[a].backoff.nanos < plan.probe.interval.nanos ==> !is_dead(plan, m, a, target),
        plan.targets@[target as int].spec !is Cidr ==> !is_dead(plan, m, a, target),
        plan.targets@[target as int].spec matches TargetSpec::Cidr { net, sample } ==> (sample is Some && m[a].degraded
            && m[a].rtt is None && m[a].backoff.nanos >= plan.probe.interval.nanos ==> is_dead(plan, m, a, target)),
{
}

/// A dead sample gives way to an address that is new to the pool: it is given up and
/// forgotten, and the other takes its place in its target; a living one stays.
pub proof fn law_dead_sample_gives_way(plan: PoolPlan, s: Explored, c: Candidate, fresh: IpAddr)
    requires
        c.target < s.replacements.len(),
    ensures
        is_dead(plan, s.health, c.addr, c.target) && !s.health.contains_key(fresh) && !s.resampled.contains(fresh) ==> {
            let after = explore_one(plan, s, c, Some(fresh));
            &&& after.resampled == s.resampled.push(c.addr)
            &&& !after.health.contains_key(c.addr)
            &&& !after.order.contains(c.addr)
            &&& after.replacements[c.target as int] == s.replacements[c.target as int].push(fresh)
        },
        !is_dead(plan, s.health, c.addr, c.target) ==> explore_one(plan, s, c, Some(fresh)) == s,
        s.health.contains_key(fresh) || s.resampled.contains(fresh) ==> explore_one(plan, s, c, Some(fresh)) == s,
        explore_one(plan, s, c, None) == s,
{
    assert(seq![c.addr].contains(c.addr)) by {
        assert(seq![c.addr][0] == c.addr);
    }
    lemma_without(s.order, seq![c.addr], s.order.len() as int, c.addr);
}

/// What is not a candidate any more is forgotten, and a new candidate starts out due and
/// unmeasured.
pub proof fn law_newcomers_start_afresh(m: Map<IpAddr, Health>, live: Seq<IpAddr>, now: Instant, base: Duration, a: IpAddr)
    ensures
        !live.contains(a) ==> !tended(m, live, now, base).contains_key(a),
        live.contains(a) && !m.contains_key(a) ==> {
            let h = tended(m, live, now, base)[a];
            &&& h.next_probe == now
            &&& h.rtt is None
            &&& !h.degraded
            &&& h.backoff == base
        },
{
}

/// Replacing dead samples keeps what was drawn before, draws from the right networks only,
/// gives up dead candidates only, and leaves the answers for domains alone.
pub proof fn law_replacing_keeps_to_the_networks(
    plan: PoolPlan,
    candidates: Seq<Candidate>,
    before: PoolState,
    after: PoolState,
    t: int,
    k: int,
    a: IpAddr,
)
    requires
        explored(plan, candidates, before, after),
        0 <= t < after.replacements@.len(),
        0 <= k < after.replacements@[t]@.len(),
    ensures
        k < before.replacements@[t]@.len() ==> after.replacements@[t]@[k] == before.replacements@[t]@[k],
        k >= before.replacements@[t]@.len() ==> (plan.targets@[t].spec matches TargetSpec::Cidr { net, sample }
            && net.contains(after.replacements@[t]@[k])),
        after.resolved == before.resolved,
        after.resampled@.contains(a) && !before.resampled@.contains(a) ==> exists|i: int|
            0 <= i < candidates.len() && (#[trigger] candidates[i]).addr == a && is_dead(
                plan,
                before.health@,
                a,
                candidates[i].target,
            ),
{
    assert(before.replacements@[t]@.is_prefix_of(after.replacements@[t]@));
    let x = after.replacements@[t]@[k];
    if k >= before.replacements@[t]@.len() {
        assert(in_network(plan.targets@[t].spec, x));
    }
    if after.resampled@.contains(a) && !before.resampled@.contains(a) {
        let n = before.resampled@.len() as int;
        let gone = after.resampled@.skip(n);
        let i = choose|i: int| 0 <= i < after.resampled@.len() && after.resampled@[i] == a;
        if i < n {
            assert(before.resampled@[i] == after.resampled@.subrange(0, n)[i]);
        }
        assert(gone[i - n] == a);
        assert(has_died(plan, candidates, before.health@, gone[i - n]));
    }
}

} // verus!
