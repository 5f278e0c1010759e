//! Raw routes that share a registrable domain with terminating ones.
//!
//! A raw route never terminates TLS, so the client sees the upstream's own
//! certificate, which cannot be narrowed. If it covers a name that is routed
//! elsewhere, a client may reuse the raw connection for that name.

use crate::config::references;
use crate::config::{Config, RouteType};
use crate::proxy::RouteRuntime;
use crate::text;
use vstd::prelude::*;
use vstd::slice::slice_subrange;

verus! {

/// A text without the wildcard labels at its front.
pub open spec fn without_stars(s: Seq<char>) -> Seq<char>
    decreases s.len(),
{
    if s.len() >= 2 && s[0] == '*' && s[1] == '.' {
        without_stars(s.subrange(2, s.len() as int))
    } else {
        s
    }
}

/// A text without the dots at its front.
pub open spec fn without_dots(s: Seq<char>) -> Seq<char>
    decreases s.len(),
{
    if s.len() >= 1 && s[0] == '.' {
        without_dots(s.subrange(1, s.len() as int))
    } else {
        s
    }
}

/// The last two labels of the name that a pattern is based on: the registrable
/// domain, nearly enough. A regex or a single label has none.
pub open spec fn apex(pattern: Seq<char>) -> Option<Seq<char>> {
    let base = without_dots(without_stars(text::trim(pattern)));
    let labels = text::split(base, '.');
    if base.len() == 0 || base.contains('^') || base.contains('\\') || labels.len() < 2 {
        None
    } else {
        Some(labels[labels.len() - 2] + "."@ + labels[labels.len() - 1])
    }
}

/// The domains of the first `n` patterns.
pub open spec fn apexes(patterns: Seq<String>, n: int) -> Seq<Seq<char>>
    decreases n,
{
    if n <= 0 {
        Seq::empty()
    } else {
        match apex(patterns[n - 1]@) {
            Some(a) => apexes(patterns, n - 1).push(a),
            None => apexes(patterns, n - 1),
        }
    }
}

/// The domains that a pattern reaches into: those of its scopes for a declared
/// regex, else its own.
pub open spec fn reach(cfg: Config, pattern: Seq<char>) -> Seq<Seq<char>> {
    if references::is_ref(pattern) {
        match references::lookup(cfg.regexes@, references::ref_name(pattern)) {
            Some(def) => apexes(def.scope_suffix@, def.scope_suffix@.len() as int),
            None => Seq::empty(),
        }
    } else {
        match apex(pattern) {
            Some(a) => seq![a],
            None => Seq::empty(),
        }
    }
}

/// The domains that the first `n` patterns reach into.
pub open spec fn reaches(cfg: Config, patterns: Seq<String>, n: int) -> Seq<Seq<char>>
    decreases n,
{
    if n <= 0 {
        Seq::empty()
    } else {
        reaches(cfg, patterns, n - 1) + reach(cfg, patterns[n - 1]@)
    }
}

/// Each of the domains with the name of a route.
pub open spec fn tagged(domains: Seq<Seq<char>>, name: Seq<char>) -> Seq<(Seq<char>, Seq<char>)> {
    domains.map_values(|d: Seq<char>| (d, name))
}

/// The domains of the first `n` routes that are raw, or that are not, each with the
/// name of its route.
pub open spec fn side(
    cfg: Config,
    patterns: Seq<Vec<String>>,
    routes: Seq<RouteRuntime>,
    n: int,
    raw: bool,
) -> Seq<(Seq<char>, Seq<char>)>
    decreases n,
{
    if n <= 0 {
        Seq::empty()
    } else if (routes[n - 1].route_type == RouteType::Raw) == raw {
        side(cfg, patterns, routes, n - 1, raw) + tagged(
            reaches(cfg, patterns[n - 1]@, patterns[n - 1]@.len() as int),
            routes[n - 1].name@,
        )
    } else {
        side(cfg, patterns, routes, n - 1, raw)
    }
}

/// The routes among the first `n` that share a domain.
pub open spec fn sharing(list: Seq<(Seq<char>, Seq<char>)>, domain: Seq<char>, n: int) -> Seq<Seq<char>>
    decreases n,
{
    if n <= 0 {
        Seq::empty()
    } else if list[n - 1].0 == domain {
        sharing(list, domain, n - 1).push(list[n - 1].1)
    } else {
        sharing(list, domain, n - 1)
    }
}

/// A raw route, a domain of its, and the terminating routes that share it.
pub struct OverlapView {
    pub route: Seq<char>,
    pub domain: Seq<char>,
    pub also_routed_by: Seq<Seq<char>>,
}

/// The overlaps of the first `n` raw domains.
pub open spec fn overlaps(
    raws: Seq<(Seq<char>, Seq<char>)>,
    terms: Seq<(Seq<char>, Seq<char>)>,
    n: int,
) -> Seq<OverlapView>
    decreases n,
{
    if n <= 0 {
        Seq::empty()
    } else {
        let also = sharing(terms, raws[n - 1].0, terms.len() as int);
        if also.len() > 0 {
            overlaps(raws, terms, n - 1).push(
                OverlapView { route: raws[n - 1].1, domain: raws[n - 1].0, also_routed_by: also },
            )
        } else {
            overlaps(raws, terms, n - 1)
        }
    }
}

/// A raw route, a domain of its, and the terminating routes that share it.
#[derive(Debug, Clone, PartialEq, Eq)]
pub struct Overlap {
    pub route: String,
    pub domain: String,
    pub also_routed_by: Vec<String>,
}

impl View for Overlap {
    type V = OverlapView;

    open spec fn view(&self) -> OverlapView {
        OverlapView {
            route: self.route@,
            domain: self.domain@,
            also_routed_by: text::texts(self.also_routed_by@),
        }
    }
}

fn find_apex(pattern: &str) -> (r: Option<String>)
    ensures
        text::opt_text(r) == apex(pattern@),
{
    let t = text::trimmed_chars(pattern);
    let mut base = t.as_slice();
    while base.len() >= 2 && base[0] == '*' && base[1] == '.'
        invariant
            without_stars(base@) == without_stars(text::trim(pattern@)),
        decreases base@.len(),
    {
        base = slice_subrange(base, 2, base.len());
    }
    while base.len() >= 1 && base[0] == '.'
        invariant
            without_dots(base@) == without_dots(without_stars(text::trim(pattern@))),
        decreases base@.len(),
    {
        base = slice_subrange(base, 1, base.len());
    }
    if base.len() == 0 || text::has_char(base, '^') || text::has_char(base, '\\') {
        return None;
    }
    let labels = text::split_chars(base, '.');
    let n = labels.len();
    if n < 2 {
        return None;
    }
    let mut out = text::string_of(labels[n - 2].as_slice());
    text::push_text(&mut out, ".");
    text::push_text(&mut out, text::string_of(labels[n - 1].as_slice()).as_str());
    Some(out)
}

fn find_reach(cfg: &Config, pattern: &str) -> (r: Vec<String>)
    ensures
        text::texts(r@) == reach(*cfg, pattern@),
{
    let mut out: Vec<String> = Vec::new();
    assert(text::texts(out@) =~= Seq::empty());
    if Config::is_regex_ref(pattern) {
        let t = text::trimmed_chars(pattern);
        let name = text::string_of(slice_subrange(t.as_slice(), 1, t.len()));
        assert(name@ =~= references::ref_name(pattern@));
        match cfg.regex_def(name.as_str()) {
            Ok(def) => {
                let mut i: usize = 0;
                while i < def.scope_suffix.len()
                    invariant
                        i <= def.scope_suffix@.len(),
                        text::texts(out@) == apexes(def.scope_suffix@, i as int),
                    decreases def.scope_suffix@.len() - i,
                {
                    if let Some(a) = find_apex(def.scope_suffix[i].as_str()) {
                        let ghost before = text::texts(out@);
                        out.push(a);
                        assert(text::texts(out@) =~= before.push(a@));
                    }
                    i = i + 1;
                }
            },
            Err(_) => {},
        }
        return out;
    }
    if let Some(a) = find_apex(pattern) {
        out.push(a);
        assert(text::texts(out@) =~= seq![a@]);
    }
    out
}

/// What a list of domains and names says.
pub open spec fn pairs(list: Seq<(String, String)>) -> Seq<(Seq<char>, Seq<char>)> {
    list.map_values(|p: (String, String)| (p.0@, p.1@))
}

fn find_side(cfg: &Config, patterns: &Vec<Vec<String>>, routes: &Vec<RouteRuntime>, raw: bool) -> (r: Vec<
    (String, String),
>)
    requires
        patterns@.len() <= routes@.len(),
    ensures
        pairs(r@) == side(*cfg, patterns@, routes@, patterns@.len() as int, raw),
{
    let mut out: Vec<(String, String)> = Vec::new();
    let mut i: usize = 0;
    assert(pairs(out@) =~= Seq::empty());
    while i < patterns.len()
        invariant
            i <= patterns@.len() <= routes@.len(),
            pairs(out@) == side(*cfg, patterns@, routes@, i as int, raw),
        decreases patterns@.len() - i,
    {
        let is_raw = match routes[i].route_type {
            RouteType::Raw => true,
            _ => false,
        };
        if is_raw == raw {
            let ghost front = pairs(out@);
            let ghost name = routes@[i as int].name@;
            let pats = &patterns[i];
            let mut j: usize = 0;
            assert(pairs(out@) =~= front + tagged(reaches(*cfg, pats@, 0), name));
            while j < pats.len()
                invariant
                    i < patterns@.len() <= routes@.len(),
                    j <= pats@.len(),
                    name == routes@[i as int].name@,
                    pairs(out@) == front + tagged(reaches(*cfg, pats@, j as int), name),
                decreases pats@.len() - j,
            {
                let found = find_reach(cfg, pats[j].as_str());
                let ghost upto = reaches(*cfg, pats@, j as int);
                let mut k: usize = 0;
                assert(upto + text::texts(found@).take(0) =~= upto);
                while k < found.len()
                    invariant
                        i < patterns@.len() <= routes@.len(),
                        k <= found@.len(),
                        name == routes@[i as int].name@,
                        pairs(out@) == front + tagged(upto + text::texts(found@).take(k as int), name),
                    decreases found@.len() - k,
                {
                    let ghost before = out@;
                    out.push((found[k].clone(), routes[i].name.clone()));
                    assert(pairs(out@) =~= pairs(before).push((found@[k as int]@, name)));
                    assert(text::texts(found@).take(k + 1) =~= text::texts(found@).take(k as int).push(
                        found@[k as int]@,
                    ));
                    assert(front + tagged(upto + text::texts(found@).take(k + 1), name) =~= pairs(before).push(
                        (found@[k as int]@, name),
                    ));
                    k = k + 1;
                }
                assert(text::texts(found@).take(k as int) =~= text::texts(found@));
                j = j + 1;
            }
        }
        i = i + 1;
    }
    out
}

/// What a list of overlaps says.
pub open spec fn overlap_views(list: Seq<Overlap>) -> Seq<OverlapView> {
    list.map_values(|o: Overlap| o@)
}

/// Find every raw route that shares a registrable domain with a terminating one.
pub fn raw_overlaps(cfg: &Config, patterns: &Vec<Vec<String>>, routes: &Vec<RouteRuntime>) -> (r: Vec<Overlap>)
    requires
        patterns@.len() <= routes@.len(),
    ensures
        ({
            let raws = side(*cfg, patterns@, routes@, patterns@.len() as int, true);
            let terms = side(*cfg, patterns@, routes@, patterns@.len() as int, false);
            overlap_views(r@) == overlaps(raws, terms, raws.len() as int)
        }),
{
    let raws = find_side(cfg, patterns, routes, true);
    let terms = find_side(cfg, patterns, routes, false);
    let ghost rv = pairs(raws@);
    let ghost tv = pairs(terms@);
    let mut out: Vec<Overlap> = Vec::new();
    let mut i: usize = 0;
    assert(overlap_views(out@) =~= Seq::empty());
    while i < raws.len()
        invariant
            i <= raws@.len(),
            rv == pairs(raws@),
            tv == pairs(terms@),
            overlap_views(out@) == overlaps(rv, tv, i as int),
        decreases raws@.len() - i,
    {
        assert(rv[i as int] == (raws@[i as int].0@, raws@[i as int].1@));
        let mut also: Vec<String> = Vec::new();
        let mut j: usize = 0;
        assert(text::texts(also@) =~= Seq::empty());
        while j < terms.len()
            invariant
                i < raws@.len(),
                j <= terms@.len(),
                rv == pairs(raws@),
                tv == pairs(terms@),
                text::texts(also@) == sharing(tv, raws@[i as int].0@, j as int),
            decreases terms@.len() - j,
        {
            assert(tv[j as int] == (terms@[j as int].0@, terms@[j as int].1@));
            if text::same_text(terms[j].0.as_str(), raws[i].0.as_str()) {
                let ghost before = text::texts(also@);
                also.push(terms[j].1.clone());
                assert(text::texts(also@) =~= before.push(terms@[j as int].1@));
            }
            j = j + 1;
        }
        if also.len() > 0 {
            let ghost before = overlap_views(out@);
            let ghost names = text::texts(also@);
            out.push(Overlap { route: raws[i].1.clone(), domain: raws[i].0.clone(), also_routed_by: also });
            assert(overlap_views(out@) =~= before.push(
                OverlapView { route: raws@[i as int].1@, domain: raws@[i as int].0@, also_routed_by: names },
            ));
        }
        i = i + 1;
    }
    out
}

// ---------------------------------------------------------------------------
// Laws
// ---------------------------------------------------------------------------

/// The domain of a name is its last two labels, of however many; a wildcard in front
/// changes nothing.
pub proof fn law_domain_is_the_last_two_labels(more: Seq<char>, a: Seq<char>, b: Seq<char>)
    requires
        a.len() > 0,
        b.len() > 0,
        !a.contains('.') && !b.contains('.'),
        !a.contains('^') && !b.contains('^') && !more.contains('^'),
        !a.contains('\\') && !b.contains('\\') && !more.contains('\\'),
        a[0] != '*' && !text::is_space(a[0]),
        !text::is_space(b.last()),
        more.len() > 0 && more[0] != '.' && more[0] != '*' && !text::is_space(more[0]),
    ensures
        apex(a + seq!['.'] + b) == Some(a + seq!['.'] + b),
        apex(more + seq!['.'] + a + seq!['.'] + b) == Some(a + seq!['.'] + b),
        apex(seq!['*', '.'] + (a + seq!['.'] + b)) == Some(a + seq!['.'] + b),
{
    reveal_strlit(".");
    let dot = seq!['.'];
    assert("."@ =~= dot);
    let name = a + dot + b;
    let long = more + dot + a + dot + b;
    let star = seq!['*', '.'] + name;
    assert(a[0] != '.');
    assert(name[0] == a[0] && name.last() == b.last());
    assert(long[0] == more[0] && long.last() == b.last());
    assert(star[0] == '*' && star[1] == '.' && star.last() == b.last());
    text::lemma_trimmed_already(name);
    text::lemma_trimmed_already(long);
    text::lemma_trimmed_already(star);
    assert(star.subrange(2, star.len() as int) =~= name);
    assert(without_stars(name) == name);
    reveal_with_fuel(without_stars, 2);
    assert(without_stars(star) == name);
    text::lemma_last_piece(a, b, '.', 0);
    text::lemma_sole_piece(a, '.');
    text::lemma_last_piece(more + dot + a, b, '.', 0);
    text::lemma_last_piece(more, a, '.', 0);
    lemma_plain(name, a, b, dot);
    assert forall|i: int| 0 <= i < long.len() implies long[i] != '^' && long[i] != '\\' by {
        if i < more.len() {
            assert(long[i] == more[i]);
        } else if i > more.len() {
            assert(long[i] == name[i - more.len() - 1]);
        }
    }
}

proof fn lemma_plain(name: Seq<char>, a: Seq<char>, b: Seq<char>, dot: Seq<char>)
    requires
        dot == seq!['.'],
        name == a + dot + b,
        !a.contains('^') && !b.contains('^'),
        !a.contains('\\') && !b.contains('\\'),
    ensures
        forall|i: int| 0 <= i < name.len() ==> #[trigger] name[i] != '^' && name[i] != '\\',
{
    assert forall|i: int| 0 <= i < name.len() implies #[trigger] name[i] != '^' && name[i] != '\\' by {
        if i < a.len() {
            assert(name[i] == a[i]);
        } else if i > a.len() {
            assert(name[i] == b[i - a.len() - 1]);
        }
    }
}

/// A name of one label has no domain, nor has a regex.
pub proof fn law_regex_has_no_domain(s: Seq<char>)
    requires
        s.len() > 0,
        !text::is_space(s[0]),
        !text::is_space(s.last()),
        s[0] != '*' && s[0] != '.',
    ensures
        s.contains('^') || s.contains('\\') || !s.contains('.') ==> apex(s) is None,
{
    text::lemma_trimmed_already(s);
    if !s.contains('.') {
        text::lemma_sole_piece(s, '.');
    }
}

/// Every raw domain that a terminating route shares is reported, under its route, with
/// every route that shares it; and nothing else is.
pub proof fn law_every_shared_domain_is_reported(
    raws: Seq<(Seq<char>, Seq<char>)>,
    terms: Seq<(Seq<char>, Seq<char>)>,
    n: int,
)
    requires
        0 <= n <= raws.len(),
    ensures
        forall|i: int, j: int|
            0 <= i < n && 0 <= j < terms.len() && (#[trigger] terms[j]).0 == (#[trigger] raws[i]).0 ==> exists|k: int|
                0 <= k < overlaps(raws, terms, n).len() && (#[trigger] overlaps(raws, terms, n)[k]).route == raws[i].1
                    && overlaps(raws, terms, n)[k].domain == raws[i].0 && overlaps(
                    raws,
                    terms,
                    n,
                )[k].also_routed_by.contains(terms[j].1),
        forall|k: int|
            0 <= k < overlaps(raws, terms, n).len() ==> {
                let o = #[trigger] overlaps(raws, terms, n)[k];
                &&& exists|i: int| 0 <= i < n && (#[trigger] raws[i]) == (o.domain, o.route)
                &&& o.also_routed_by.len() > 0
                &&& forall|x: int|
                    0 <= x < o.also_routed_by.len() ==> exists|j: int|
                        0 <= j < terms.len() && (#[trigger] terms[j]) == (o.domain, #[trigger] o.also_routed_by[x])
            },
    decreases n,
{
    if n > 0 {
        law_every_shared_domain_is_reported(raws, terms, n - 1);
        let before = overlaps(raws, terms, n - 1);
        let all = overlaps(raws, terms, n);
        let m = terms.len() as int;
        let also = sharing(terms, raws[n - 1].0, m);
        lemma_sharing(terms, raws[n - 1].0, m);
        assert forall|i: int, j: int|
            0 <= i < n && 0 <= j < terms.len() && (#[trigger] terms[j]).0 == (#[trigger] raws[i]).0 implies exists|k: int|
            0 <= k < all.len() && (#[trigger] all[k]).route == raws[i].1 && all[k].domain == raws[i].0
                && all[k].also_routed_by.contains(terms[j].1) by {
            if i == n - 1 {
                assert(also.contains(terms[j].1));
                assert(also.len() > 0);
                assert(all[all.len() - 1].also_routed_by == also);
            } else {
                let k = choose|k: int|
                    0 <= k < before.len() && (#[trigger] before[k]).route == raws[i].1 && before[k].domain == raws[i].0
                        && before[k].also_routed_by.contains(terms[j].1);
                assert(all[k] == before[k]);
            }
        }
        assert forall|k: int| 0 <= k < all.len() implies {
            let o = #[trigger] all[k];
            &&& exists|i: int| 0 <= i < n && (#[trigger] raws[i]) == (o.domain, o.route)
            &&& o.also_routed_by.len() > 0
            &&& forall|x: int|
                0 <= x < o.also_routed_by.len() ==> exists|j: int|
                    0 <= j < terms.len() && (#[trigger] terms[j]) == (o.domain, #[trigger] o.also_routed_by[x])
        } by {
            let o = all[k];
            if k < before.len() {
                assert(o == before[k]);
            } else {
                assert(o.also_routed_by == also);
                assert(raws[n - 1] == (o.domain, o.route));
            }
        }
    }
}

proof fn lemma_sharing(list: Seq<(Seq<char>, Seq<char>)>, domain: Seq<char>, n: int)
    requires
        0 <= n <= list.len(),
    ensures
        forall|j: int| 0 <= j < n && (#[trigger] list[j]).0 == domain ==> sharing(list, domain, n).contains(list[j].1),
        forall|x: int|
            0 <= x < sharing(list, domain, n).len() ==> exists|j: int|
                0 <= j < list.len() && (#[trigger] list[j]) == (domain, #[trigger] sharing(list, domain, n)[x]),
    decreases n,
{
    if n > 0 {
        lemma_sharing(list, domain, n - 1);
        let before = sharing(list, domain, n - 1);
        let all = sharing(list, domain, n);
        assert forall|j: int| 0 <= j < n && (#[trigger] list[j]).0 == domain implies all.contains(list[j].1) by {
            if j == n - 1 {
                assert(all[all.len() - 1] == list[j].1);
            } else {
                assert(before.contains(list[j].1));
                let x = choose|x: int| 0 <= x < before.len() && before[x] == list[j].1;
                assert(all[x] == before[x]);
            }
        }
        assert forall|x: int| 0 <= x < all.len() implies exists|j: int|
            0 <= j < list.len() && (#[trigger] list[j]) == (domain, #[trigger] all[x]) by {
            if x < before.len() {
                assert(all[x] == before[x]);
            } else {
                assert(list[n - 1] == (domain, all[x]));
            }
        }
    }
}

} // verus!
