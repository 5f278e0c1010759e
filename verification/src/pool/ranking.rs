//! Which endpoint comes first, and what each consumer gets to see.

use super::health;
use super::health::{beats, holds, Health, HealthTable};
use crate::net;
use crate::net::{IpAddr, SocketAddr};
use crate::text;
use crate::time::Duration;
use vstd::prelude::*;

verus! {

// ---------------------------------------------------------------------------
// Candidates and selections
// ---------------------------------------------------------------------------

/// One probed endpoint.
#[derive(Debug, Clone)]
pub struct Candidate {
    pub addr: IpAddr,
    /// Which target it comes from.
    pub target: usize,
    /// The automatic tags and those of the target.
    pub tags: Vec<String>,
}

/// What a consumer asks for: a target, or everything with a tag.
#[derive(Debug, Clone, PartialEq, Eq)]
pub enum Selector {
    Index(usize),
    Tag(String),
}

/// What a [`Selector`] says.
pub enum SelectorView {
    Index(usize),
    Tag(Seq<char>),
}

impl View for Selector {
    type V = SelectorView;

    open spec fn view(&self) -> SelectorView {
        match self {
            Selector::Index(i) => SelectorView::Index(*i),
            Selector::Tag(t) => SelectorView::Tag(t@),
        }
    }
}

/// What selectors say.
pub open spec fn selector_views(list: Seq<Selector>) -> Seq<SelectorView> {
    list.map_values(|s: Selector| s@)
}

/// Whether one selector takes a candidate.
pub open spec fn takes(s: SelectorView, target: usize, tags: Seq<Seq<char>>) -> bool {
    match s {
        SelectorView::Index(i) => i == target,
        SelectorView::Tag(t) => tags.contains(t),
    }
}

/// Whether a selection takes a candidate: one of the selectors does, or there is
/// none.
pub open spec fn selected(sel: Seq<SelectorView>, target: usize, tags: Seq<Seq<char>>) -> bool {
    sel.len() == 0 || exists|i: int| 0 <= i < sel.len() && takes(#[trigger] sel[i], target, tags)
}

fn has_tag(tags: &Vec<String>, t: &str) -> (r: bool)
    ensures
        r == text::texts(tags@).contains(t@),
{
    let mut i: usize = 0;
    while i < tags.len()
        invariant
            i <= tags@.len(),
            forall|k: int| 0 <= k < i ==> #[trigger] text::texts(tags@)[k] != t@,
        decreases tags@.len() - i,
    {
        if text::same_text(tags[i].as_str(), t) {
            assert(text::texts(tags@)[i as int] == t@);
            return true;
        }
        i = i + 1;
    }
    false
}

impl Candidate {
    /// Whether a selection takes this candidate.
    pub open spec fn chosen(self, sel: Seq<SelectorView>) -> bool {
        selected(sel, self.target, text::texts(self.tags@))
    }

    /// Whether a selection takes this candidate. Without selectors everything is
    /// taken.
    pub fn matches(&self, sel: &Vec<Selector>) -> (r: bool)
        ensures
            r == self.chosen(selector_views(sel@)),
    {
        if sel.len() == 0 {
            return true;
        }
        let mut i: usize = 0;
        while i < sel.len()
            invariant
                i <= sel@.len(),
                sel@.len() > 0,
                forall|k: int|
                    0 <= k < i ==> !takes(
                        #[trigger] selector_views(sel@)[k],
                        self.target,
                        text::texts(self.tags@),
                    ),
            decreases sel@.len() - i,
        {
            let taken = match &sel[i] {
                Selector::Index(n) => *n == self.target,
                Selector::Tag(t) => has_tag(&self.tags, t.as_str()),
            };
            assert(selector_views(sel@)[i as int] == sel@[i as int]@);
            if taken {
                assert(takes(selector_views(sel@)[i as int], self.target, text::texts(self.tags@)));
                return true;
            }
            i = i + 1;
        }
        false
    }

    /// Whether the candidate carries a tag.
    pub fn tagged(&self, t: &str) -> (r: bool)
        ensures
            r == text::texts(self.tags@).contains(t@),
    {
        has_tag(&self.tags, t)
    }
}

/// The addresses of candidates.
pub open spec fn addrs(list: Seq<Candidate>) -> Seq<IpAddr> {
    list.map_values(|c: Candidate| c.addr)
}

/// The addresses of candidates.
pub fn addrs_of(list: &Vec<Candidate>) -> (r: Vec<IpAddr>)
    ensures
        r@ == addrs(list@),
{
    let mut out: Vec<IpAddr> = Vec::new();
    let mut i: usize = 0;
    while i < list.len()
        invariant
            i <= list@.len(),
            out@.len() == i,
            forall|k: int| 0 <= k < i ==> #[trigger] out@[k] == list@[k].addr,
        decreases list@.len() - i,
    {
        out.push(list[i].addr);
        i = i + 1;
    }
    assert(out@ =~= addrs(list@));
    out
}

// ---------------------------------------------------------------------------
// The order
// ---------------------------------------------------------------------------

/// The round-trip time of a healthy, measured endpoint.
pub open spec fn rtt_of(m: Map<IpAddr, Health>, a: IpAddr) -> Option<nat> {
    if m.contains_key(a) && !m[a].degraded {
        match m[a].rtt {
            Some(d) => Some(d.nanos as nat),
            None => None,
        }
    } else {
        None
    }
}

/// Whether measured times are spans that a clock can measure.
pub open spec fn measurable(m: Map<IpAddr, Health>) -> bool {
    forall|a: IpAddr| #[trigger] m.contains_key(a) ==> m[a].valid()
}

fn healthy(table: &HealthTable, a: IpAddr) -> (r: Option<Duration>)
    requires
        table.valid(),
        measurable(table@),
    ensures
        match r {
            Some(d) => rtt_of(table@, a) == Some(d.nanos as nat) && d.valid(),
            None => rtt_of(table@, a) is None,
        },
{
    match table.get(a) {
        Some(h) => {
            if h.degraded {
                None
            } else {
                h.rtt
            }
        },
        None => None,
    }
}

/// What is left of the first `n` of an order: those still present and healthy.
pub open spec fn still_healthy(prev: Seq<IpAddr>, live: Seq<IpAddr>, m: Map<IpAddr, Health>, n: int) -> Seq<IpAddr>
    decreases n,
{
    if n <= 0 {
        Seq::empty()
    } else if live.contains(prev[n - 1]) && rtt_of(m, prev[n - 1]) is Some {
        still_healthy(prev, live, m, n - 1).push(prev[n - 1])
    } else {
        still_healthy(prev, live, m, n - 1)
    }
}

/// Where a newcomer goes among the first `n`: behind those that are no slower.
pub open spec fn slot(list: Seq<IpAddr>, m: Map<IpAddr, Health>, rtt: nat, n: int) -> int
    decreases n,
{
    if n <= 0 {
        0
    } else if rtt_of(m, list[n - 1]) matches Some(r) && r <= rtt {
        n
    } else {
        slot(list, m, rtt, n - 1)
    }
}

/// The healthy endpoints among the first `n` that the order does not have yet, the
/// fastest first, and among equals the one that is listed first.
pub open spec fn newcomers(live: Seq<IpAddr>, kept: Seq<IpAddr>, m: Map<IpAddr, Health>, n: int) -> Seq<IpAddr>
    decreases n,
{
    if n <= 0 {
        Seq::empty()
    } else {
        let list = newcomers(live, kept, m, n - 1);
        if kept.contains(live[n - 1]) {
            list
        } else {
            match rtt_of(m, live[n - 1]) {
                Some(rtt) => list.insert(slot(list, m, rtt, list.len() as int), live[n - 1]),
                None => list,
            }
        }
    }
}

/// An order after the entry at `j` has moved forward as long as it beats the one
/// ahead of it.
pub open spec fn bubbled(order: Seq<IpAddr>, m: Map<IpAddr, Health>, j: int) -> Seq<IpAddr>
    decreases j,
{
    if j <= 0 {
        order
    } else {
        match (rtt_of(m, order[j]), rtt_of(m, order[j - 1])) {
            (Some(cur), Some(ahead)) => if health::is_faster(cur, ahead) {
                bubbled(order.update(j, order[j - 1]).update(j - 1, order[j]), m, j - 1)
            } else {
                order
            },
            _ => order,
        }
    }
}

/// An order after each of its first `n` entries, one by one, has moved forward.
pub open spec fn settled(order: Seq<IpAddr>, m: Map<IpAddr, Health>, n: int) -> Seq<IpAddr>
    decreases n,
{
    if n <= 1 {
        order
    } else {
        bubbled(settled(order, m, n - 1), m, n - 1)
    }
}

/// The order before anything moves: what is left of the previous one, and the
/// newcomers behind it.
pub open spec fn lineup(prev: Seq<IpAddr>, live: Seq<IpAddr>, m: Map<IpAddr, Health>) -> Seq<IpAddr> {
    let kept = still_healthy(prev, live, m, prev.len() as int);
    kept + newcomers(live, kept, m, live.len() as int)
}

/// The order after a cycle.
pub open spec fn reordered(prev: Seq<IpAddr>, live: Seq<IpAddr>, m: Map<IpAddr, Health>) -> Seq<IpAddr> {
    settled(lineup(prev, live, m), m, lineup(prev, live, m).len() as int)
}

fn lineup_of(prev: &Vec<IpAddr>, live: &Vec<IpAddr>, table: &HealthTable) -> (r: Vec<IpAddr>)
    requires
        table.valid(),
        measurable(table@),
    ensures
        r@ == lineup(prev@, live@, table@),
{
    let ghost m = table@;
    let mut kept: Vec<IpAddr> = Vec::new();
    let mut i: usize = 0;
    while i < prev.len()
        invariant
            table.valid(),
            measurable(table@),
            m == table@,
            i <= prev@.len(),
            kept@ == still_healthy(prev@, live@, m, i as int),
        decreases prev@.len() - i,
    {
        if holds(live, prev[i]) && healthy(table, prev[i]).is_some() {
            kept.push(prev[i]);
        }
        i = i + 1;
    }
    let mut fresh: Vec<IpAddr> = Vec::new();
    let mut i: usize = 0;
    while i < live.len()
        invariant
            table.valid(),
            measurable(table@),
            m == table@,
            i <= live@.len(),
            fresh@ == newcomers(live@, kept@, m, i as int),
        decreases live@.len() - i,
    {
        if !holds(&kept, live[i]) {
            match healthy(table, live[i]) {
                Some(rtt) => {
                    let mut at: usize = fresh.len();
                    let ghost list = fresh@;
                    while at > 0 && !no_slower(table, fresh[at - 1], rtt)
                        invariant
                            table.valid(),
                            measurable(table@),
                            m == table@,
                            at <= fresh@.len(),
                            list == fresh@,
                            slot(list, m, rtt.nanos as nat, list.len() as int) == slot(
                                list,
                                m,
                                rtt.nanos as nat,
                                at as int,
                            ),
                        decreases at,
                    {
                        at = at - 1;
                    }
                    fresh.insert(at, live[i]);
                },
                None => {},
            }
        }
        i = i + 1;
    }
    let mut k: usize = 0;
    let ghost head = kept@;
    assert(head + fresh@.take(0) =~= head);
    while k < fresh.len()
        invariant
            k <= fresh@.len(),
            kept@ == head + fresh@.take(k as int),
        decreases fresh@.len() - k,
    {
        kept.push(fresh[k]);
        k = k + 1;
        assert(kept@ =~= head + fresh@.take(k as int));
    }
    assert(fresh@.take(k as int) =~= fresh@);
    kept
}

fn no_slower(table: &HealthTable, a: IpAddr, rtt: Duration) -> (r: bool)
    requires
        table.valid(),
        measurable(table@),
    ensures
        r == (rtt_of(table@, a) matches Some(n) && n <= rtt.nanos),
{
    match healthy(table, a) {
        Some(d) => d.nanos <= rtt.nanos,
        None => false,
    }
}

/// Rebuild the order from the previous one, moving an endpoint forward only when
/// it beats the one ahead of it by a margin. Starting from the previous order is
/// what gives stability: two endpoints a millisecond apart would otherwise trade
/// places every cycle.
pub fn reorder_with_hysteresis(prev: &Vec<IpAddr>, table: &HealthTable, candidates: &Vec<Candidate>) -> (r: Vec<IpAddr>)
    requires
        table.valid(),
        measurable(table@),
    ensures
        r@ == reordered(prev@, addrs(candidates@), table@),
{
    let ghost m = table@;
    let live = addrs_of(candidates);
    let mut order = lineup_of(prev, &live, table);
    let ghost start = order@;
    let mut i: usize = 1;
    while i < order.len()
        invariant
            table.valid(),
            measurable(table@),
            m == table@,
            1 <= i,
            i <= order@.len() || order@.len() == 0,
            order@.len() == start.len(),
            order@ == settled(start, m, i as int),
        decreases order@.len() - i,
    {
        let ghost target = settled(start, m, i + 1);
        let mut j: usize = i;
        while j > 0
            invariant_except_break
                bubbled(order@, m, j as int) == target,
            invariant
                table.valid(),
                measurable(table@),
                m == table@,
                j <= i < order@.len(),
                order@.len() == start.len(),
            ensures
                order@ == target,
            decreases j,
        {
            let ahead = order[j - 1];
            let cur = order[j];
            let faster = match (healthy(table, cur), healthy(table, ahead)) {
                (Some(c), Some(a)) => beats(c, a),
                _ => false,
            };
            if !faster {
                break;
            }
            order.set(j, ahead);
            order.set(j - 1, cur);
            j = j - 1;
        }
        i = i + 1;
    }
    proof {
        if start.len() <= 1 {
            assert(settled(start, m, start.len() as int) == start);
        }
    }
    order
}

// ---------------------------------------------------------------------------
// Views
// ---------------------------------------------------------------------------

/// The finished answer for one selection.
#[derive(Debug, Clone)]
pub struct ViewRanking {
    /// Healthy addresses, best first.
    pub ordered: Vec<IpAddr>,
    /// The safety net, used only while there is no healthy address.
    pub fallback: Option<IpAddr>,
}

/// The first candidate at or behind `from` with an address, or the list's length.
pub open spec fn candidate_at(list: Seq<Candidate>, a: IpAddr, from: int) -> int
    decreases list.len() - from,
{
    if from >= list.len() {
        list.len() as int
    } else if list[from].addr == a {
        from
    } else {
        candidate_at(list, a, from + 1)
    }
}

/// Whether a selection takes the endpoint of an address.
pub open spec fn shows(list: Seq<Candidate>, sel: Seq<SelectorView>, a: IpAddr) -> bool {
    let i = candidate_at(list, a, 0);
    i < list.len() && list[i].chosen(sel)
}

/// The first `n` of an order, as far as a selection takes them.
pub open spec fn shown(order: Seq<IpAddr>, list: Seq<Candidate>, sel: Seq<SelectorView>, n: int) -> Seq<IpAddr>
    decreases n,
{
    if n <= 0 {
        Seq::empty()
    } else if shows(list, sel, order[n - 1]) {
        shown(order, list, sel, n - 1).push(order[n - 1])
    } else {
        shown(order, list, sel, n - 1)
    }
}

/// The first candidate of a target that a selection takes.
pub open spec fn net_under(list: Seq<Candidate>, sel: Seq<SelectorView>, target: usize, from: int) -> Option<IpAddr>
    decreases list.len() - from,
{
    if from >= list.len() {
        None
    } else if list[from].target == target && list[from].chosen(sel) {
        Some(list[from].addr)
    } else {
        net_under(list, sel, target, from + 1)
    }
}

/// The answer for one selection. The fallback is taken from the fallback target
/// under the same selection, so that a consumer never falls back to a kind of
/// address that it has not asked for.
pub fn view_ranking(
    order: &Vec<IpAddr>,
    candidates: &Vec<Candidate>,
    selectors: &Vec<Selector>,
    fallback: Option<usize>,
) -> (r: ViewRanking)
    ensures
        r.ordered@ == shown(order@, candidates@, selector_views(selectors@), order@.len() as int),
        r.fallback == (match fallback {
            Some(t) => net_under(candidates@, selector_views(selectors@), t, 0),
            None => None,
        }),
{
    let ghost sel = selector_views(selectors@);
    let mut ordered: Vec<IpAddr> = Vec::new();
    let mut i: usize = 0;
    while i < order.len()
        invariant
            i <= order@.len(),
            sel == selector_views(selectors@),
            ordered@ == shown(order@, candidates@, sel, i as int),
        decreases order@.len() - i,
    {
        let mut k: usize = 0;
        while k < candidates.len() && candidates[k].addr != order[i]
            invariant
                i < order@.len(),
                k <= candidates@.len(),
                candidate_at(candidates@, order@[i as int], 0) == candidate_at(
                    candidates@,
                    order@[i as int],
                    k as int,
                ),
            decreases candidates@.len() - k,
        {
            k = k + 1;
        }
        if k < candidates.len() && candidates[k].matches(selectors) {
            ordered.push(order[i]);
        }
        i = i + 1;
    }
    let fallback = match fallback {
        None => None,
        Some(t) => {
            let mut k: usize = 0;
            while k < candidates.len() && !(candidates[k].target == t && candidates[k].matches(selectors))
                invariant
                    k <= candidates@.len(),
                    sel == selector_views(selectors@),
                    net_under(candidates@, sel, t, 0) == net_under(candidates@, sel, t, k as int),
                decreases candidates@.len() - k,
            {
                k = k + 1;
            }
            if k < candidates.len() {
                Some(candidates[k].addr)
            } else {
                None
            }
        },
    };
    ViewRanking { ordered, fallback }
}

/// Whether two selections are the same, letter for letter.
pub fn same_selection(a: &Vec<Selector>, b: &Vec<Selector>) -> (r: bool)
    ensures
        r == (selector_views(a@) == selector_views(b@)),
{
    let ghost x = selector_views(a@);
    let ghost y = selector_views(b@);
    if a.len() != b.len() {
        assert(x.len() != y.len());
        return false;
    }
    let mut i: usize = 0;
    while i < a.len()
        invariant
            x == selector_views(a@),
            y == selector_views(b@),
            a@.len() == b@.len(),
            i <= a@.len(),
            forall|k: int| 0 <= k < i ==> #[trigger] x[k] == y[k],
        decreases a@.len() - i,
    {
        let same = match (&a[i], &b[i]) {
            (Selector::Index(m), Selector::Index(n)) => *m == *n,
            (Selector::Tag(s), Selector::Tag(t)) => text::same_text(s.as_str(), t.as_str()),
            _ => false,
        };
        assert(x[i as int] == a@[i as int]@ && y[i as int] == b@[i as int]@);
        if !same {
            assert(x[i as int] != y[i as int]);
            return false;
        }
        i = i + 1;
    }
    assert(x =~= y);
    true
}

/// The selections that the consumers of a pool have registered.
#[derive(Debug)]
pub struct Views {
    list: Vec<Vec<Selector>>,
}

/// What selections say.
pub open spec fn selections(list: Seq<Vec<Selector>>) -> Seq<Seq<SelectorView>> {
    list.map_values(|v: Vec<Selector>| selector_views(v@))
}

/// The first place of a selection in a list, at or behind `from`.
pub open spec fn place_of(list: Seq<Seq<SelectorView>>, sel: Seq<SelectorView>, from: int) -> Option<int>
    decreases list.len() - from,
{
    if from >= list.len() {
        None
    } else if list[from] == sel {
        Some(from)
    } else {
        place_of(list, sel, from + 1)
    }
}

impl View for Views {
    type V = Seq<Seq<SelectorView>>;

    closed spec fn view(&self) -> Seq<Seq<SelectorView>> {
        selections(self.list@)
    }
}

impl Views {
    /// No selections.
    pub fn new() -> (r: Self)
        ensures
            r@ == Seq::<Seq<SelectorView>>::empty(),
    {
        let r = Views { list: Vec::new() };
        assert(r@ =~= Seq::<Seq<SelectorView>>::empty());
        r
    }

    /// How many selections there are.
    pub fn len(&self) -> (r: usize)
        ensures
            r == self@.len(),
    {
        self.list.len()
    }

    /// Whether any consumer reads the pool.
    pub fn is_used(&self) -> (r: bool)
        ensures
            r == (self@.len() > 0),
    {
        self.list.len() > 0
    }

    /// A selection.
    pub fn selectors(&self, i: usize) -> (r: &Vec<Selector>)
        requires
            i < self@.len(),
        ensures
            selector_views(r@) == self@[i as int],
    {
        &self.list[i]
    }

    /// Where a selection is registered. None at all is the empty selection.
    pub fn view_for(&self, wanted: &Vec<Selector>) -> (r: Option<usize>)
        ensures
            match r {
                Some(i) => place_of(self@, selector_views(wanted@), 0) == Some(i as int) && i < self@.len(),
                None => place_of(self@, selector_views(wanted@), 0) is None,
            },
    {
        let ghost all = self@;
        let ghost sel = selector_views(wanted@);
        let mut i: usize = 0;
        while i < self.list.len()
            invariant
                all == self@,
                sel == selector_views(wanted@),
                i <= self.list@.len(),
                place_of(all, sel, 0) == place_of(all, sel, i as int),
            decreases self.list@.len() - i,
        {
            assert(all[i as int] == selector_views(self.list@[i as int]@));
            if same_selection(&self.list[i], wanted) {
                return Some(i);
            }
            i = i + 1;
        }
        None
    }

    /// Register a selection. One that is there already is shared.
    pub fn register_view(&mut self, wanted: Vec<Selector>) -> (r: usize)
        ensures
            match place_of(old(self)@, selector_views(wanted@), 0) {
                Some(i) => r == i && final(self)@ == old(self)@,
                None => r == old(self)@.len() && final(self)@ == old(self)@.push(selector_views(wanted@)),
            },
    {
        match self.view_for(&wanted) {
            Some(i) => i,
            None => {
                let ghost sel = selector_views(wanted@);
                let i = self.list.len();
                self.list.push(wanted);
                assert(self@ =~= old(self)@.push(sel));
                i
            },
        }
    }
}

/// A finished answer for every selection, which the data path reads.
#[derive(Debug)]
pub struct Ranking {
    pub per_view: Vec<ViewRanking>,
}

/// Why there is no address to dial.
pub open spec fn pick_problem(name: Seq<char>, view: nat, views: nat) -> Seq<char> {
    if view >= views {
        "pool "@ + name + ": unregistered view "@ + text::dec(view)
    } else {
        "pool "@ + name + ": no healthy candidate and no usable fallback"@
    }
}

impl Ranking {
    /// A ranking without answers, so that the data path has something to read
    /// before the first cycle is through.
    pub fn empty(views: usize) -> (r: Self)
        ensures
            r.per_view@.len() == views,
            forall|i: int|
                0 <= i < views ==> (#[trigger] r.per_view@[i]).ordered@.len() == 0 && r.per_view@[i].fallback is None,
    {
        let mut per_view: Vec<ViewRanking> = Vec::new();
        while per_view.len() < views
            invariant
                per_view@.len() <= views,
                forall|i: int|
                    0 <= i < per_view@.len() ==> (#[trigger] per_view@[i]).ordered@.len() == 0
                        && per_view@[i].fallback is None,
            decreases views - per_view@.len(),
        {
            per_view.push(ViewRanking { ordered: Vec::new(), fallback: None });
        }
        Ranking { per_view }
    }

    /// The answer for every selection.
    pub fn publish(order: &Vec<IpAddr>, candidates: &Vec<Candidate>, views: &Views, fallback: Option<usize>) -> (r: Self)
        ensures
            r.per_view@.len() == views@.len(),
            forall|i: int|
                0 <= i < views@.len() ==> (#[trigger] r.per_view@[i]).ordered@ == shown(
                    order@,
                    candidates@,
                    views@[i],
                    order@.len() as int,
                ) && r.per_view@[i].fallback == (match fallback {
                    Some(t) => net_under(candidates@, views@[i], t, 0),
                    None => None,
                }),
    {
        let mut per_view: Vec<ViewRanking> = Vec::new();
        while per_view.len() < views.len()
            invariant
                per_view@.len() <= views@.len(),
                forall|i: int|
                    0 <= i < per_view@.len() ==> (#[trigger] per_view@[i]).ordered@ == shown(
                        order@,
                        candidates@,
                        views@[i],
                        order@.len() as int,
                    ) && per_view@[i].fallback == (match fallback {
                        Some(t) => net_under(candidates@, views@[i], t, 0),
                        None => None,
                    }),
            decreases views@.len() - per_view@.len(),
        {
            let answer = view_ranking(order, candidates, views.selectors(per_view.len()), fallback);
            per_view.push(answer);
        }
        Ranking { per_view }
    }

    /// The address to dial: the best, or the fallback. Without either it is an
    /// error, as the route's own failure policy is the place to decide.
    pub fn pick(&self, name: &str, view: usize, port: u16) -> (r: Result<SocketAddr, String>)
        ensures
            match r {
                Ok(a) => view < self.per_view@.len() && {
                    let v = self.per_view@[view as int];
                    if v.ordered@.len() > 0 {
                        a == net::socket(v.ordered@[0], port)
                    } else {
                        v.fallback is Some && a == net::socket(v.fallback->0, port)
                    }
                },
                Err(m) => m@ == pick_problem(name@, view as nat, self.per_view@.len()) && (view >= self.per_view@.len()
                    || (self.per_view@[view as int].ordered@.len() == 0
                    && self.per_view@[view as int].fallback is None)),
            },
    {
        if view >= self.per_view.len() {
            let mut m = text::concat3("pool ", name, ": unregistered view ");
            text::push_dec(&mut m, view as u64);
            return Err(m);
        }
        let v = &self.per_view[view];
        if v.ordered.len() > 0 {
            return Ok(SocketAddr::new(v.ordered[0], port));
        }
        match v.fallback {
            Some(ip) => Ok(SocketAddr::new(ip, port)),
            None => Err(text::concat3("pool ", name, ": no healthy candidate and no usable fallback")),
        }
    }
}

// ---------------------------------------------------------------------------
// Laws
// ---------------------------------------------------------------------------

/// Whether nobody in an order is enough faster than a given time.
pub open spec fn unbeaten(order: Seq<IpAddr>, m: Map<IpAddr, Health>, rtt: nat) -> bool {
    forall|i: int|
        0 <= i < order.len() ==> !(rtt_of(m, #[trigger] order[i]) matches Some(r) && health::is_faster(r, rtt))
}

proof fn lemma_bubbled_keeps_leader(order: Seq<IpAddr>, m: Map<IpAddr, Health>, j: int, rtt: nat)
    requires
        0 <= j < order.len(),
        rtt_of(m, order[0]) == Some(rtt),
        unbeaten(order, m, rtt),
    ensures
        bubbled(order, m, j).len() == order.len(),
        bubbled(order, m, j)[0] == order[0],
        unbeaten(bubbled(order, m, j), m, rtt),
    decreases j,
{
    if j > 0 {
        match (rtt_of(m, order[j]), rtt_of(m, order[j - 1])) {
            (Some(cur), Some(ahead)) => if health::is_faster(cur, ahead) {
                let next = order.update(j, order[j - 1]).update(j - 1, order[j]);
                assert(j > 1);
                assert forall|i: int| 0 <= i < next.len() implies !(rtt_of(m, #[trigger] next[i]) matches Some(r)
                    && health::is_faster(r, rtt)) by {
                    if i == j {
                        assert(next[i] == order[j - 1]);
                    } else if i == j - 1 {
                        assert(next[i] == order[j]);
                    } else {
                        assert(next[i] == order[i]);
                    }
                }
                lemma_bubbled_keeps_leader(next, m, j - 1, rtt);
            },
            _ => {},
        }
    }
}

/// The leader stays the leader unless somebody is faster by more than the margin:
/// noise does not move traffic.
pub proof fn law_noise_does_not_move_the_leader(order: Seq<IpAddr>, m: Map<IpAddr, Health>, n: int, rtt: nat)
    requires
        0 <= n <= order.len(),
        order.len() > 0,
        rtt_of(m, order[0]) == Some(rtt),
        unbeaten(order, m, rtt),
    ensures
        settled(order, m, n).len() == order.len(),
        settled(order, m, n)[0] == order[0],
        unbeaten(settled(order, m, n), m, rtt),
    decreases n,
{
    if n > 1 {
        law_noise_does_not_move_the_leader(order, m, n - 1, rtt);
        lemma_bubbled_keeps_leader(settled(order, m, n - 1), m, n - 1, rtt);
    }
}

/// Whether an endpoint beats everybody else in an order.
pub open spec fn outruns(order: Seq<IpAddr>, m: Map<IpAddr, Health>, x: IpAddr, rtt: nat) -> bool {
    rtt_of(m, x) == Some(rtt) && forall|i: int|
        0 <= i < order.len() && #[trigger] order[i] != x ==> (rtt_of(m, order[i]) matches Some(r) && health::is_faster(
            rtt,
            r,
        ))
}

proof fn lemma_bubbled_winner(order: Seq<IpAddr>, m: Map<IpAddr, Health>, j: int, x: IpAddr, rtt: nat)
    requires
        0 <= j < order.len(),
        outruns(order, m, x, rtt),
        order[0] == x || order[j] == x || (forall|i: int| 0 <= i <= j ==> #[trigger] order[i] != x),
        order.no_duplicates(),
    ensures
        bubbled(order, m, j).len() == order.len(),
        bubbled(order, m, j).no_duplicates(),
        outruns(bubbled(order, m, j), m, x, rtt),
        order[0] == x || order[j] == x ==> bubbled(order, m, j)[0] == x,
        forall|i: int| j < i < order.len() ==> #[trigger] bubbled(order, m, j)[i] == order[i],
        order[0] != x && order[j] != x ==> forall|i: int|
            0 <= i <= j ==> #[trigger] bubbled(order, m, j)[i] != x,
    decreases j,
{
    if j > 0 {
        match (rtt_of(m, order[j]), rtt_of(m, order[j - 1])) {
            (Some(cur), Some(ahead)) => if health::is_faster(cur, ahead) {
                let next = order.update(j, order[j - 1]).update(j - 1, order[j]);
                assert forall|i: int| 0 <= i < next.len() && #[trigger] next[i] != x implies (rtt_of(
                    m,
                    next[i],
                ) matches Some(r) && health::is_faster(rtt, r)) by {
                    if i == j {
                        assert(next[i] == order[j - 1]);
                    } else if i == j - 1 {
                        assert(next[i] == order[j]);
                    } else {
                        assert(next[i] == order[i]);
                    }
                }
                assert(order[j - 1] != x) by {
                    if order[j - 1] == x {
                        assert(order[j] != x);
                        health::law_overtaking_is_one_way(rtt, cur);
                    }
                }
                assert(next.no_duplicates());
                if order[0] != x && order[j] != x {
                    assert forall|i: int| 0 <= i <= j - 1 implies #[trigger] next[i] != x by {
                        if i == j - 1 {
                            assert(next[i] == order[j]);
                        } else {
                            assert(next[i] == order[i]);
                        }
                    }
                }
                lemma_bubbled_winner(next, m, j - 1, x, rtt);
                if order[0] != x && order[j] != x {
                    assert(bubbled(next, m, j - 1)[j] == next[j]);
                    assert(next[j] == order[j - 1]);
                }
            } else {
                if order[j] == x && order[0] != x {
                    assert(order[j - 1] != x);
                }
            },
            _ => {
                if order[j] == x && order[0] != x {
                    assert(order[j - 1] != x);
                    assert(rtt_of(m, order[j - 1]) is Some);
                }
            },
        }
    }
}

/// An endpoint that beats everybody else takes the lead in one cycle, wherever it
/// stood.
pub proof fn law_decisive_gain_takes_the_lead(
    order: Seq<IpAddr>,
    m: Map<IpAddr, Health>,
    at: int,
    n: int,
    x: IpAddr,
    rtt: nat,
)
    requires
        0 <= at < order.len(),
        0 <= n <= order.len(),
        order[at] == x,
        order.no_duplicates(),
        outruns(order, m, x, rtt),
    ensures
        settled(order, m, n).len() == order.len(),
        settled(order, m, n).no_duplicates(),
        outruns(settled(order, m, n), m, x, rtt),
        at < n ==> settled(order, m, n)[0] == x,
        at >= n ==> settled(order, m, n)[at] == x,
        at >= n ==> forall|i: int| 0 <= i < n ==> #[trigger] settled(order, m, n)[i] != x,
        forall|i: int| n <= i < order.len() ==> #[trigger] settled(order, m, n)[i] == order[i],
    decreases n,
{
    if n > 1 {
        law_decisive_gain_takes_the_lead(order, m, at, n - 1, x, rtt);
        let s = settled(order, m, n - 1);
        assert(s[n - 1] == order[n - 1]);
        lemma_bubbled_winner(s, m, n - 1, x, rtt);
    } else if n == 1 && at >= 1 {
        assert(order[0] != x);
    }
}

proof fn lemma_bubbled_same_members(order: Seq<IpAddr>, m: Map<IpAddr, Health>, j: int, a: IpAddr)
    requires
        0 <= j < order.len() || j == 0,
    ensures
        bubbled(order, m, j).contains(a) == order.contains(a),
        bubbled(order, m, j).len() == order.len(),
        order.no_duplicates() ==> bubbled(order, m, j).no_duplicates(),
    decreases j,
{
    if j > 0 {
        match (rtt_of(m, order[j]), rtt_of(m, order[j - 1])) {
            (Some(cur), Some(ahead)) => if health::is_faster(cur, ahead) {
                let next = order.update(j, order[j - 1]).update(j - 1, order[j]);
                assert(next[j] == order[j - 1] && next[j - 1] == order[j]);
                if order.contains(a) {
                    let k = choose|k: int| 0 <= k < order.len() && order[k] == a;
                    if k == j {
                        assert(next[j - 1] == a);
                    } else if k == j - 1 {
                        assert(next[j] == a);
                    } else {
                        assert(next[k] == a);
                    }
                }
                if next.contains(a) {
                    let k = choose|k: int| 0 <= k < next.len() && next[k] == a;
                    if k == j {
                        assert(order[j - 1] == a);
                    } else if k == j - 1 {
                        assert(order[j] == a);
                    } else {
                        assert(order[k] == a);
                    }
                }
                lemma_bubbled_same_members(next, m, j - 1, a);
            },
            _ => {},
        }
    }
}

proof fn lemma_settled_same_members(order: Seq<IpAddr>, m: Map<IpAddr, Health>, n: int, a: IpAddr)
    requires
        0 <= n <= order.len(),
    ensures
        settled(order, m, n).contains(a) == order.contains(a),
        settled(order, m, n).len() == order.len(),
        order.no_duplicates() ==> settled(order, m, n).no_duplicates(),
    decreases n,
{
    if n > 1 {
        lemma_settled_same_members(order, m, n - 1, a);
        lemma_bubbled_same_members(settled(order, m, n - 1), m, n - 1, a);
    }
}

proof fn lemma_still_healthy(prev: Seq<IpAddr>, live: Seq<IpAddr>, m: Map<IpAddr, Health>, n: int, a: IpAddr)
    requires
        0 <= n <= prev.len(),
        prev.no_duplicates(),
    ensures
        still_healthy(prev, live, m, n).contains(a) <==> live.contains(a) && rtt_of(m, a) is Some && exists|i: int|
            0 <= i < n && #[trigger] prev[i] == a,
        still_healthy(prev, live, m, n).no_duplicates(),
    decreases n,
{
    if n > 0 {
        lemma_still_healthy(prev, live, m, n - 1, a);
        lemma_still_healthy(prev, live, m, n - 1, prev[n - 1]);
        let rest = still_healthy(prev, live, m, n - 1);
        let all = still_healthy(prev, live, m, n);
        if live.contains(prev[n - 1]) && rtt_of(m, prev[n - 1]) is Some {
            assert(all[rest.len() as int] == prev[n - 1]);
            if rest.contains(a) {
                let k = choose|k: int| 0 <= k < rest.len() && rest[k] == a;
                assert(all[k] == a);
            }
            if all.contains(a) && a != prev[n - 1] {
                let k = choose|k: int| 0 <= k < all.len() && all[k] == a;
                assert(rest[k] == a);
            }
            assert(!rest.contains(prev[n - 1]));
        }
    }
}

proof fn lemma_slot(list: Seq<IpAddr>, m: Map<IpAddr, Health>, rtt: nat, n: int)
    requires
        0 <= n,
    ensures
        0 <= slot(list, m, rtt, n) <= n,
    decreases n,
{
    if n > 0 {
        lemma_slot(list, m, rtt, n - 1);
    }
}

proof fn lemma_newcomers(live: Seq<IpAddr>, kept: Seq<IpAddr>, m: Map<IpAddr, Health>, n: int, a: IpAddr)
    requires
        0 <= n <= live.len(),
        live.no_duplicates(),
    ensures
        newcomers(live, kept, m, n).contains(a) <==> !kept.contains(a) && rtt_of(m, a) is Some && exists|i: int|
            0 <= i < n && #[trigger] live[i] == a,
        newcomers(live, kept, m, n).no_duplicates(),
    decreases n,
{
    if n > 0 {
        lemma_newcomers(live, kept, m, n - 1, a);
        lemma_newcomers(live, kept, m, n - 1, live[n - 1]);
        let list = newcomers(live, kept, m, n - 1);
        let all = newcomers(live, kept, m, n);
        if !kept.contains(live[n - 1]) {
            match rtt_of(m, live[n - 1]) {
                Some(rtt) => {
                    let at = slot(list, m, rtt, list.len() as int);
                    lemma_slot(list, m, rtt, list.len() as int);
                    assert(!list.contains(live[n - 1]));
                    assert(all[at] == live[n - 1]);
                    assert forall|i: int, j: int| 0 <= i < j < all.len() implies all[i] != all[j] by {
                        let x = if i < at {
                            i
                        } else {
                            i - 1
                        };
                        let y = if j < at {
                            j
                        } else {
                            j - 1
                        };
                        if i != at {
                            assert(all[i] == list[x]);
                        }
                        if j != at {
                            assert(all[j] == list[y]);
                        }
                    }
                    if list.contains(a) {
                        let k = choose|k: int| 0 <= k < list.len() && list[k] == a;
                        if k < at {
                            assert(all[k] == a);
                        } else {
                            assert(all[k + 1] == a);
                        }
                    }
                    if all.contains(a) && a != live[n - 1] {
                        let k = choose|k: int| 0 <= k < all.len() && all[k] == a;
                        if k < at {
                            assert(list[k] == a);
                        } else {
                            assert(list[k - 1] == a);
                        }
                    }
                },
                None => {},
            }
        }
    }
}

proof fn lemma_lineup_is_apart(prev: Seq<IpAddr>, live: Seq<IpAddr>, m: Map<IpAddr, Health>)
    requires
        prev.no_duplicates(),
        live.no_duplicates(),
    ensures
        lineup(prev, live, m).no_duplicates(),
{
    let kept = still_healthy(prev, live, m, prev.len() as int);
    let fresh = newcomers(live, kept, m, live.len() as int);
    let all = lineup(prev, live, m);
    assert forall|i: int, j: int| 0 <= i < j < all.len() implies all[i] != all[j] by {
        lemma_still_healthy(prev, live, m, prev.len() as int, all[i]);
        lemma_newcomers(live, kept, m, live.len() as int, all[j]);
        if i < kept.len() && j >= kept.len() {
            assert(fresh.contains(fresh[j - kept.len()]));
            assert(kept.contains(kept[i]));
        }
    }
}

/// The order holds exactly the candidates that are healthy and measured, each
/// once: degraded and unmeasured ones leave it.
pub proof fn law_order_holds_the_healthy(
    prev: Seq<IpAddr>,
    live: Seq<IpAddr>,
    m: Map<IpAddr, Health>,
    a: IpAddr,
)
    requires
        prev.no_duplicates(),
        live.no_duplicates(),
    ensures
        reordered(prev, live, m).contains(a) <==> live.contains(a) && rtt_of(m, a) is Some,
        reordered(prev, live, m).no_duplicates(),
{
    let kept = still_healthy(prev, live, m, prev.len() as int);
    let fresh = newcomers(live, kept, m, live.len() as int);
    let all = lineup(prev, live, m);
    lemma_still_healthy(prev, live, m, prev.len() as int, a);
    lemma_newcomers(live, kept, m, live.len() as int, a);
    lemma_lineup_is_apart(prev, live, m);
    if kept.contains(a) {
        let k = choose|k: int| 0 <= k < kept.len() && kept[k] == a;
        assert(all[k] == a);
    }
    if fresh.contains(a) {
        let k = choose|k: int| 0 <= k < fresh.len() && fresh[k] == a;
        assert(all[kept.len() + k] == a);
    }
    if all.contains(a) {
        let k = choose|k: int| 0 <= k < all.len() && all[k] == a;
        if k < kept.len() {
            assert(kept[k] == a);
        } else {
            assert(fresh[k - kept.len()] == a);
        }
    }
    lemma_settled_same_members(all, m, all.len() as int, a);
}

/// Whether one endpoint beats another, both of them healthy and measured.
pub open spec fn passes(m: Map<IpAddr, Health>, a: IpAddr, b: IpAddr) -> bool {
    match (rtt_of(m, a), rtt_of(m, b)) {
        (Some(x), Some(y)) => health::is_faster(x, y),
        _ => false,
    }
}

proof fn lemma_bubbled_margin(order: Seq<IpAddr>, m: Map<IpAddr, Health>, j: int, last: int)
    requires
        0 <= j <= last < order.len(),
        forall|i: int| 1 <= i <= last && i != j ==> !passes(m, #[trigger] order[i], order[i - 1]),
        1 <= j < last ==> !passes(m, order[j + 1], order[j - 1]),
    ensures
        forall|i: int| 1 <= i <= last ==> !passes(m, #[trigger] bubbled(order, m, j)[i], bubbled(order, m, j)[i - 1]),
    decreases j,
{
    if j > 0 && passes(m, order[j], order[j - 1]) {
        let next = order.update(j, order[j - 1]).update(j - 1, order[j]);
        health::law_overtaking_is_one_way(rtt_of(m, order[j])->0, rtt_of(m, order[j - 1])->0);
        assert forall|i: int| 1 <= i <= last && i != j - 1 implies !passes(m, #[trigger] next[i], next[i - 1]) by {
            if i != j && i != j + 1 {
                assert(next[i] == order[i] && next[i - 1] == order[i - 1]);
            }
        }
        if j - 1 >= 1 {
            assert(!passes(m, order[j - 1], order[j - 2]));
        }
        lemma_bubbled_margin(next, m, j - 1, last);
        assert(bubbled(order, m, j) == bubbled(next, m, j - 1));
    } else {
        assert(bubbled(order, m, j) == order);
        assert forall|i: int| 1 <= i <= last implies !passes(m, #[trigger] order[i], order[i - 1]) by {
            if i == j {
                assert(!passes(m, order[j], order[j - 1]));
            }
        }
    }
}

proof fn lemma_settled_margin(order: Seq<IpAddr>, m: Map<IpAddr, Health>, n: int)
    requires
        0 <= n <= order.len(),
    ensures
        forall|i: int| 1 <= i < n ==> !passes(m, #[trigger] settled(order, m, n)[i], settled(order, m, n)[i - 1]),
    decreases n,
{
    if n > 1 {
        lemma_settled_margin(order, m, n - 1);
        lemma_settled_same_members(order, m, n - 1, order[0]);
        lemma_bubbled_margin(settled(order, m, n - 1), m, n - 1, n - 1);
    }
}

/// No endpoint of an order beats the one ahead of it: whatever is faster by the
/// margin has moved forward.
pub proof fn law_no_one_beats_the_one_ahead(prev: Seq<IpAddr>, live: Seq<IpAddr>, m: Map<IpAddr, Health>, i: int)
    requires
        1 <= i < reordered(prev, live, m).len(),
    ensures
        !passes(m, reordered(prev, live, m)[i], reordered(prev, live, m)[i - 1]),
{
    let all = lineup(prev, live, m);
    if all.len() > 0 {
        lemma_settled_same_members(all, m, all.len() as int, all[0]);
    }
    lemma_settled_margin(all, m, all.len() as int);
}

/// Whether one endpoint stands ahead of another.
pub open spec fn is_ahead(order: Seq<IpAddr>, a: IpAddr, b: IpAddr) -> bool {
    exists|i: int, j: int| 0 <= i < j < order.len() && #[trigger] order[i] == a && #[trigger] order[j] == b
}

proof fn lemma_ahead_one_way(order: Seq<IpAddr>, a: IpAddr, b: IpAddr)
    requires
        order.no_duplicates(),
        is_ahead(order, a, b),
    ensures
        !is_ahead(order, b, a),
        a != b,
{
    let (i, j) = choose|i: int, j: int| 0 <= i < j < order.len() && #[trigger] order[i] == a && #[trigger] order[j] == b;
    if is_ahead(order, b, a) {
        let (k, l) = choose|k: int, l: int|
            0 <= k < l < order.len() && #[trigger] order[k] == b && #[trigger] order[l] == a;
        assert(order[i] == order[l] && order[j] == order[k]);
    }
}

proof fn lemma_ahead_or_behind(order: Seq<IpAddr>, a: IpAddr, b: IpAddr)
    requires
        order.contains(a),
        order.contains(b),
        a != b,
    ensures
        is_ahead(order, a, b) || is_ahead(order, b, a),
{
    let i = choose|i: int| 0 <= i < order.len() && order[i] == a;
    let j = choose|j: int| 0 <= j < order.len() && order[j] == b;
    assert(order[i] == a && order[j] == b);
}

proof fn lemma_bubbled_overtakes(order: Seq<IpAddr>, m: Map<IpAddr, Health>, at: int, a: IpAddr, b: IpAddr)
    requires
        order.no_duplicates(),
        0 <= at < order.len(),
        is_ahead(order, a, b),
        is_ahead(bubbled(order, m, at), b, a),
    ensures
        passes(m, b, a),
    decreases at,
{
    lemma_ahead_one_way(order, a, b);
    if at > 0 && passes(m, order[at], order[at - 1]) {
        let next = order.update(at, order[at - 1]).update(at - 1, order[at]);
        if !(order[at - 1] == a && order[at] == b) {
            let (i, j) = choose|i: int, j: int|
                0 <= i < j < order.len() && #[trigger] order[i] == a && #[trigger] order[j] == b;
            let k = if i == at {
                at - 1
            } else if i == at - 1 {
                at
            } else {
                i
            };
            let l = if j == at {
                at - 1
            } else if j == at - 1 {
                at
            } else {
                j
            };
            assert(next[k] == a && next[l] == b && k < l);
            assert(next.no_duplicates());
            lemma_bubbled_overtakes(next, m, at - 1, a, b);
        }
    }
}

proof fn lemma_settled_overtakes(order: Seq<IpAddr>, m: Map<IpAddr, Health>, n: int, a: IpAddr, b: IpAddr)
    requires
        order.no_duplicates(),
        0 <= n <= order.len(),
        is_ahead(order, a, b),
        is_ahead(settled(order, m, n), b, a),
    ensures
        passes(m, b, a),
    decreases n,
{
    lemma_ahead_one_way(order, a, b);
    if n > 1 {
        let s = settled(order, m, n - 1);
        lemma_settled_same_members(order, m, n - 1, a);
        lemma_settled_same_members(order, m, n - 1, b);
        lemma_ahead_or_behind(s, a, b);
        if is_ahead(s, b, a) {
            lemma_settled_overtakes(order, m, n - 1, a, b);
        } else {
            lemma_bubbled_overtakes(s, m, n - 1, a, b);
        }
    }
}

/// An endpoint gets ahead of another that stood ahead of it only if it beats that
/// one by the margin. The places are those before anything moves: what is left of
/// the previous order, and the newcomers behind it.
pub proof fn law_overtaking_takes_the_margin(
    prev: Seq<IpAddr>,
    live: Seq<IpAddr>,
    m: Map<IpAddr, Health>,
    a: IpAddr,
    b: IpAddr,
)
    requires
        prev.no_duplicates(),
        live.no_duplicates(),
        is_ahead(lineup(prev, live, m), a, b),
        is_ahead(reordered(prev, live, m), b, a),
    ensures
        passes(m, b, a),
{
    lemma_lineup_is_apart(prev, live, m);
    lemma_settled_overtakes(lineup(prev, live, m), m, lineup(prev, live, m).len() as int, a, b);
}

/// A selection takes a candidate if it names the candidate's target or one of its
/// tags, or if it names nothing; and in no other case.
pub proof fn law_selection_is_by_target_or_tag(c: Candidate, sel: Seq<SelectorView>)
    ensures
        sel.len() == 0 ==> c.chosen(sel),
        forall|k: int|
            0 <= k < sel.len() && #[trigger] sel[k] == SelectorView::Index(c.target) ==> c.chosen(sel),
        forall|k: int, t: int|
            0 <= k < sel.len() && 0 <= t < c.tags@.len() && #[trigger] sel[k] == SelectorView::Tag(
                (#[trigger] c.tags@[t])@,
            ) ==> c.chosen(sel),
        sel.len() > 0 && c.chosen(sel) ==> exists|k: int|
            0 <= k < sel.len() && (#[trigger] sel[k] == SelectorView::Index(c.target) || exists|t: int|
                0 <= t < c.tags@.len() && sel[k] == SelectorView::Tag((#[trigger] c.tags@[t])@)),
{
    let tags = text::texts(c.tags@);
    assert forall|k: int| 0 <= k < sel.len() && #[trigger] sel[k] == SelectorView::Index(c.target) implies c.chosen(
        sel,
    ) by {
        assert(takes(sel[k], c.target, tags));
    }
    assert forall|k: int, t: int|
        0 <= k < sel.len() && 0 <= t < c.tags@.len() && #[trigger] sel[k] == SelectorView::Tag(
            (#[trigger] c.tags@[t])@,
        ) implies c.chosen(sel) by {
        assert(tags[t] == c.tags@[t]@);
        assert(takes(sel[k], c.target, tags));
    }
    if sel.len() > 0 && c.chosen(sel) {
        let k = choose|k: int| 0 <= k < sel.len() && takes(#[trigger] sel[k], c.target, tags);
        match sel[k] {
            SelectorView::Index(i) => {},
            SelectorView::Tag(t) => {
                let j = choose|j: int| 0 <= j < tags.len() && tags[j] == t;
                assert(sel[k] == SelectorView::Tag(c.tags@[j]@));
            },
        }
    }
}

proof fn lemma_net_under(list: Seq<Candidate>, sel: Seq<SelectorView>, target: usize, from: int)
    requires
        0 <= from <= list.len(),
    ensures
        match net_under(list, sel, target, from) {
            Some(a) => exists|i: int|
                from <= i < list.len() && (#[trigger] list[i]).target == target && list[i].chosen(sel) && list[i].addr == a
                    && forall|k: int|
                    from <= k < i ==> !((#[trigger] list[k]).target == target && list[k].chosen(sel)),
            None => forall|k: int|
                from <= k < list.len() ==> !((#[trigger] list[k]).target == target && list[k].chosen(sel)),
        },
    decreases list.len() - from,
{
    if from < list.len() && !(list[from].target == target && list[from].chosen(sel)) {
        lemma_net_under(list, sel, target, from + 1);
        match net_under(list, sel, target, from + 1) {
            Some(a) => {
                let i = choose|i: int|
                    from + 1 <= i < list.len() && (#[trigger] list[i]).target == target && list[i].chosen(sel)
                        && list[i].addr == a && forall|k: int|
                        from + 1 <= k < i ==> !((#[trigger] list[k]).target == target && list[k].chosen(sel));
                assert(from <= i < list.len() && list[i].target == target && list[i].chosen(sel) && list[i].addr == a);
            },
            None => {},
        }
    } else if from < list.len() {
        assert(list[from].target == target && list[from].chosen(sel));
    }
}

/// A published fallback is the address of a candidate of the fallback target that the
/// selection takes, the first of them; and where there is such a candidate, a fallback
/// is published.
pub proof fn law_fallback_is_of_its_target(list: Seq<Candidate>, sel: Seq<SelectorView>, target: usize)
    ensures
        net_under(list, sel, target, 0) matches Some(a) ==> exists|i: int|
            0 <= i < list.len() && (#[trigger] list[i]).target == target && list[i].chosen(sel) && list[i].addr == a
                && forall|k: int| 0 <= k < i ==> !((#[trigger] list[k]).target == target && list[k].chosen(sel)),
        forall|i: int|
            0 <= i < list.len() && (#[trigger] list[i]).target == target && list[i].chosen(sel) ==> net_under(
                list,
                sel,
                target,
                0,
            ) is Some,
{
    lemma_net_under(list, sel, target, 0);
}

proof fn lemma_candidate_at(list: Seq<Candidate>, a: IpAddr, from: int)
    requires
        0 <= from <= list.len(),
    ensures
        from <= candidate_at(list, a, from) <= list.len(),
        candidate_at(list, a, from) < list.len() ==> list[candidate_at(list, a, from)].addr == a,
        forall|k: int| from <= k < candidate_at(list, a, from) ==> (#[trigger] list[k]).addr != a,
    decreases list.len() - from,
{
    if from < list.len() && list[from].addr != a {
        lemma_candidate_at(list, a, from + 1);
    }
}

/// A view holds the addresses of the order whose candidates its selection takes, in the
/// same order, and no others.
pub proof fn law_view_is_the_order_as_far_as_selected(
    order: Seq<IpAddr>,
    list: Seq<Candidate>,
    sel: Seq<SelectorView>,
    i: int,
)
    requires
        0 <= i < list.len(),
        forall|k: int| 0 <= k < list.len() && k != i ==> (#[trigger] list[k]).addr != list[i].addr,
    ensures
        shown(order, list, sel, order.len() as int) == order.filter(|a: IpAddr| shows(list, sel, a)),
        shows(list, sel, list[i].addr) == list[i].chosen(sel),
        forall|a: IpAddr| (forall|k: int| 0 <= k < list.len() ==> (#[trigger] list[k]).addr != a) ==> !#[trigger] shows(
            list,
            sel,
            a,
        ),
{
    lemma_shown_is_filter(order, list, sel, order.len() as int);
    assert(order.take(order.len() as int) =~= order);
    lemma_candidate_at(list, list[i].addr, 0);
    assert forall|a: IpAddr| (forall|k: int| 0 <= k < list.len() ==> (#[trigger] list[k]).addr != a) implies !#[trigger] shows(
        list,
        sel,
        a,
    ) by {
        lemma_candidate_at(list, a, 0);
    }
}

proof fn lemma_shown_is_filter(order: Seq<IpAddr>, list: Seq<Candidate>, sel: Seq<SelectorView>, n: int)
    requires
        0 <= n <= order.len(),
    ensures
        shown(order, list, sel, n) == order.take(n).filter(|a: IpAddr| shows(list, sel, a)),
    decreases n,
{
    reveal(Seq::filter);
    if n > 0 {
        lemma_shown_is_filter(order, list, sel, n - 1);
        assert(order.take(n).drop_last() =~= order.take(n - 1));
    }
}

/// An endpoint has a place in the order only while it is known, has been measured and
/// is not degraded; its time is the measured one.
pub proof fn law_only_the_healthy_have_a_time(m: Map<IpAddr, Health>, a: IpAddr)
    ensures
        rtt_of(m, a) is Some <==> m.contains_key(a) && !m[a].degraded && m[a].rtt is Some,
        rtt_of(m, a) matches Some(t) ==> t == m[a].rtt->0.nanos,
{
}

/// Whether an order goes from fast to slow.
pub open spec fn by_time(list: Seq<IpAddr>, m: Map<IpAddr, Health>) -> bool {
    forall|i: int, j: int|
        0 <= i <= j < list.len() ==> (rtt_of(m, #[trigger] list[i]) matches Some(x) && rtt_of(m, #[trigger] list[j]) matches Some(
            y,
        ) && x <= y)
}

proof fn lemma_slot_sorted(list: Seq<IpAddr>, m: Map<IpAddr, Health>, rtt: nat, n: int)
    requires
        by_time(list, m),
        0 <= n <= list.len(),
        forall|i: int| n <= i < list.len() ==> (rtt_of(m, #[trigger] list[i]) matches Some(x) && x > rtt),
    ensures
        0 <= slot(list, m, rtt, n) <= n,
        forall|i: int|
            0 <= i < slot(list, m, rtt, n) ==> (rtt_of(m, #[trigger] list[i]) matches Some(x) && x <= rtt),
        forall|i: int|
            slot(list, m, rtt, n) <= i < list.len() ==> (rtt_of(m, #[trigger] list[i]) matches Some(x) && x > rtt),
    decreases n,
{
    if n > 0 {
        assert(rtt_of(m, list[n - 1]) is Some);
        if rtt_of(m, list[n - 1])->0 <= rtt {
            assert forall|i: int| 0 <= i < n implies (rtt_of(m, #[trigger] list[i]) matches Some(x) && x <= rtt) by {
                assert(rtt_of(m, list[i]) matches Some(x) && rtt_of(m, list[n - 1]) matches Some(y) && x <= y);
            }
        } else {
            lemma_slot_sorted(list, m, rtt, n - 1);
        }
    }
}

proof fn lemma_newcomers_sorted(live: Seq<IpAddr>, kept: Seq<IpAddr>, m: Map<IpAddr, Health>, n: int)
    requires
        0 <= n <= live.len(),
    ensures
        by_time(newcomers(live, kept, m, n), m),
    decreases n,
{
    if n > 0 {
        lemma_newcomers_sorted(live, kept, m, n - 1);
        let list = newcomers(live, kept, m, n - 1);
        let next = newcomers(live, kept, m, n);
        if !kept.contains(live[n - 1]) && rtt_of(m, live[n - 1]) is Some {
            let rtt = rtt_of(m, live[n - 1])->0;
            let at = slot(list, m, rtt, list.len() as int);
            lemma_slot_sorted(list, m, rtt, list.len() as int);
            assert(next == list.insert(at, live[n - 1]));
            assert forall|i: int, j: int| 0 <= i <= j < next.len() implies (rtt_of(m, #[trigger] next[i]) matches Some(x)
                && rtt_of(m, #[trigger] next[j]) matches Some(y) && x <= y) by {
                let a = if i < at {
                    i
                } else {
                    i - 1
                };
                let b = if j < at {
                    j
                } else {
                    j - 1
                };
                assert(i != at ==> next[i] == list[a]);
                assert(j != at ==> next[j] == list[b]);
                if i != at && j != at {
                    assert(rtt_of(m, list[a]) matches Some(x) && rtt_of(m, list[b]) matches Some(y) && x <= y);
                }
            }
        }
    }
}

proof fn lemma_sorted_is_settled(order: Seq<IpAddr>, m: Map<IpAddr, Health>, n: int)
    requires
        by_time(order, m),
        0 <= n <= order.len(),
    ensures
        settled(order, m, n) == order,
    decreases n,
{
    if n > 1 {
        lemma_sorted_is_settled(order, m, n - 1);
        assert(rtt_of(m, order[n - 2]) matches Some(x) && rtt_of(m, order[n - 1]) matches Some(y) && x <= y);
    }
}

/// The first order goes by round-trip time alone, the fastest endpoint first: there is
/// nobody yet whom a margin would protect.
pub proof fn law_first_order_goes_by_time(live: Seq<IpAddr>, m: Map<IpAddr, Health>)
    ensures
        by_time(reordered(Seq::empty(), live, m), m),
{
    let none = Seq::<IpAddr>::empty();
    let kept = still_healthy(none, live, m, 0);
    lemma_newcomers_sorted(live, kept, m, live.len() as int);
    assert(lineup(none, live, m) =~= newcomers(live, kept, m, live.len() as int));
    lemma_sorted_is_settled(lineup(none, live, m), m, lineup(none, live, m).len() as int);
}

} // verus!
