//! The order in which resolvers can be built.
//!
//! A resolver may need others: one that finds its address, and one that fetches
//! its ECH config. A walk over these references, depth first, lists every
//! resolver behind the ones it needs, or finds a cycle.

use super::references;
use super::{Config, ConfigError, ResolverDef};
use crate::order;
use crate::text;
use vstd::prelude::*;
use vstd::slice::slice_subrange;

verus! {

// ---------------------------------------------------------------------------
// The graph
// ---------------------------------------------------------------------------

/// The resolvers in order of their names, and what each of them needs: the
/// places of others, or why its references make no sense.
pub ghost struct Graph {
    pub names: Seq<Seq<char>>,
    pub needs: Seq<Result<Seq<int>, Seq<char>>>,
}

/// What an optional text adds to a list: itself, if it is a reference.
pub open spec fn as_ref(s: Option<String>) -> Seq<Seq<char>> {
    match s {
        Some(s) => if references::is_ref(s@) {
            seq![s@]
        } else {
            Seq::empty()
        },
        None => Seq::empty(),
    }
}

/// The ECH resolver of a definition.
pub open spec fn own_ech_resolver(def: ResolverDef) -> Option<String> {
    match def.ech {
        Some(e) => e.ech_resolver,
        None => None,
    }
}

/// A pair in order, or what there is of it, with nothing twice.
pub open spec fn in_order_once(list: Seq<Seq<char>>) -> Seq<Seq<char>> {
    if list.len() == 2 && list[0] == list[1] {
        seq![list[0]]
    } else if list.len() == 2 && !order::text_le(list[0], list[1]) {
        seq![list[1], list[0]]
    } else {
        list
    }
}

/// The references of a definition to other resolvers, in order, each once.
pub open spec fn refs_of(def: ResolverDef) -> Seq<Seq<char>> {
    in_order_once(as_ref(def.bootstrap) + as_ref(own_ech_resolver(def)))
}

/// The first place of a name in a list, or the list's length.
pub open spec fn place_of(names: Seq<Seq<char>>, name: Seq<char>, from: int) -> int
    decreases names.len() - from,
{
    if from >= names.len() {
        names.len() as int
    } else if names[from] == name {
        from
    } else {
        place_of(names, name, from + 1)
    }
}

/// Where the first `n` references lead, or what is wrong with the first bad one.
pub open spec fn places(names: Seq<Seq<char>>, owner: Seq<char>, refs: Seq<Seq<char>>, n: int) -> Result<
    Seq<int>,
    Seq<char>,
>
    decreases n,
{
    if n <= 0 {
        Ok(Seq::empty())
    } else {
        match places(names, owner, refs, n - 1) {
            Err(m) => Err(m),
            Ok(found) => {
                let e = refs[n - 1];
                if e[0] != '@' {
                    Err("[resolvers."@ + owner + "]: invalid resolver reference "@ + text::quoted(e))
                } else if place_of(names, e.drop_first(), 0) >= names.len() {
                    Err("[resolvers."@ + owner + "]: unknown resolver "@ + text::quoted(e))
                } else {
                    Ok(found.push(place_of(names, e.drop_first(), 0)))
                }
            },
        }
    }
}

/// What the resolver of a given name needs.
pub open spec fn needs_of(table: Seq<(String, ResolverDef)>, names: Seq<Seq<char>>, name: Seq<char>) -> Result<
    Seq<int>,
    Seq<char>,
> {
    match references::lookup(table, name) {
        Some(def) => places(names, name, refs_of(def), refs_of(def).len() as int),
        None => Err(references::unknown("resolver"@, name, "resolvers"@)),
    }
}

/// The graph of a table of resolvers.
pub open spec fn graph_of(table: Seq<(String, ResolverDef)>) -> Graph {
    let names = order::sorted(references::names_of(table));
    Graph { names, needs: Seq::new(names.len(), |i: int| needs_of(table, names, names[i])) }
}

impl Graph {
    /// Whether needs lead to resolvers.
    pub open spec fn valid(self) -> bool {
        &&& self.needs.len() == self.names.len()
        &&& forall|i: int|
            0 <= i < self.needs.len() ==> (#[trigger] self.needs[i] matches Ok(es) ==> forall|k: int|
                0 <= k < es.len() ==> 0 <= #[trigger] es[k] < self.names.len())
    }

    /// Whether one resolver needs another.
    pub open spec fn needed(self, from: int, to: int) -> bool {
        0 <= from < self.needs.len() && (self.needs[from] matches Ok(es) && es.contains(to))
    }
}

// ---------------------------------------------------------------------------
// The walk
// ---------------------------------------------------------------------------

/// That a path closes on itself.
pub open spec fn cycle_message(g: Graph, path: Seq<int>) -> Seq<char> {
    "[resolvers]: dependency cycle "@ + text::join(path.map_values(|i: int| g.names[i]), " -> "@)
        + " — every resolver in a cycle needs another one in it to find its own address. Break the chain by pointing one `bootstrap` at a literal IP, or by omitting it to use OS resolution"@
}

/// How far a path can still grow before it must repeat itself.
pub open spec fn room(g: Graph, path: Seq<int>) -> nat {
    if path.len() > g.names.len() {
        0
    } else {
        (g.names.len() + 1 - path.len()) as nat
    }
}

/// List the end of a path behind everything that it needs, unless it is listed
/// already.
pub open spec fn visit(g: Graph, path: Seq<int>, listed: Seq<int>) -> Result<Seq<int>, Seq<char>>
    decreases room(g, path), 1int, 0int,
{
    let x = path.last();
    if listed.contains(x) {
        Ok(listed)
    } else if path.drop_last().contains(x) || path.len() > g.names.len() {
        Err(cycle_message(g, path))
    } else {
        match g.needs[x] {
            Err(m) => Err(m),
            Ok(es) => match visit_needs(g, path, es, es.len() as int, listed) {
                Err(m) => Err(m),
                Ok(more) => Ok(more.push(x)),
            },
        }
    }
}

/// List the first `k` of what the end of a path needs, from the last to the
/// first.
pub open spec fn visit_needs(g: Graph, path: Seq<int>, es: Seq<int>, k: int, listed: Seq<int>) -> Result<
    Seq<int>,
    Seq<char>,
>
    decreases room(g, path), 0int, k,
{
    if k <= 0 || path.len() > g.names.len() {
        Ok(listed)
    } else {
        match visit(g, path.push(es[k - 1]), listed) {
            Err(m) => Err(m),
            Ok(more) => visit_needs(g, path, es, k - 1, more),
        }
    }
}

/// List the resolvers from place `k` on, with what they need.
pub open spec fn visit_from(g: Graph, k: int, listed: Seq<int>) -> Result<Seq<int>, Seq<char>>
    decreases g.names.len() - k,
{
    if k >= g.names.len() {
        Ok(listed)
    } else {
        match visit(g, seq![k], listed) {
            Err(m) => Err(m),
            Ok(more) => visit_from(g, k + 1, more),
        }
    }
}

/// The order in which the resolvers can be built, or why there is none.
pub open spec fn build_order(g: Graph) -> Result<Seq<int>, Seq<char>> {
    visit_from(g, 0, Seq::empty())
}

// ---------------------------------------------------------------------------
// Reading the graph
// ---------------------------------------------------------------------------

fn find_name(names: &Vec<String>, name: &[char]) -> (r: usize)
    ensures
        r == place_of(text::texts(names@), name@, 0),
        r <= names@.len(),
{
    let mut i: usize = 0;
    while i < names.len()
        invariant
            i <= names@.len(),
            place_of(text::texts(names@), name@, 0) == place_of(text::texts(names@), name@, i as int),
        decreases names@.len() - i,
    {
        let cs = text::chars_of(names[i].as_str());
        assert(text::texts(names@)[i as int] == names@[i as int]@);
        if text::same_chars(cs.as_slice(), name) {
            return i;
        }
        i = i + 1;
    }
    i
}

fn push_ref<'a>(out: &mut Vec<&'a String>, s: &'a Option<String>)
    ensures
        final(out)@.map_values(|s: &String| s@) == old(out)@.map_values(|s: &String| s@) + as_ref(*s),
        final(out)@.len() <= old(out)@.len() + 1,
{
    match s {
        Some(s) => {
            if Config::is_resolver_ref(s.as_str()) {
                out.push(s);
            }
        },
        None => {},
    }
    assert(out@.map_values(|s: &String| s@) =~= old(out)@.map_values(|s: &String| s@) + as_ref(*s));
}

impl ResolverDef {
    /// The references of this definition to other resolvers, in order, each once.
    fn references(&self) -> (r: Vec<&String>)
        ensures
            r@.map_values(|s: &String| s@) == refs_of(*self),
    {
        let mut list: Vec<&String> = Vec::new();
        assert(list@.map_values(|s: &String| s@) =~= Seq::<Seq<char>>::empty());
        push_ref(&mut list, &self.bootstrap);
        match &self.ech {
            Some(e) => push_ref(&mut list, &e.ech_resolver),
            None => {},
        }
        let ghost all = as_ref(self.bootstrap) + as_ref(own_ech_resolver(*self));
        assert(list@.map_values(|s: &String| s@) =~= all);
        assert(list@.len() == all.len());
        if list.len() == 2 {
            assert(all[0] == list@[0]@);
            assert(all[1] == list@[1]@);
            if text::same_text(list[0].as_str(), list[1].as_str()) {
                list.pop();
                assert(list@.map_values(|s: &String| s@) =~= refs_of(*self));
            } else if !order::not_behind(list[0].as_str(), list[1].as_str()) {
                let first = list[1];
                let second = list[0];
                let mut turned: Vec<&String> = Vec::new();
                turned.push(first);
                turned.push(second);
                assert(turned@.map_values(|s: &String| s@) =~= refs_of(*self));
                return turned;
            }
        }
        assert(list@.map_values(|s: &String| s@) =~= refs_of(*self));
        list
    }
}

/// Places as numbers.
pub open spec fn ints(v: Seq<usize>) -> Seq<int> {
    v.map_values(|i: usize| i as int)
}

proof fn lemma_trim_len(s: Seq<char>)
    ensures
        text::trim(s).len() <= s.len(),
{
    lemma_trim_start_len(s);
    lemma_trim_end_len(text::trim_start(s));
}

proof fn lemma_trim_start_len(s: Seq<char>)
    ensures
        text::trim_start(s).len() <= s.len(),
    decreases s.len(),
{
    if s.len() > 0 && text::is_space(s[0]) {
        lemma_trim_start_len(s.drop_first());
    }
}

proof fn lemma_trim_end_len(s: Seq<char>)
    ensures
        text::trim_end(s).len() <= s.len(),
    decreases s.len(),
{
    if s.len() > 0 && text::is_space(s.last()) {
        lemma_trim_end_len(s.drop_last());
    }
}

proof fn lemma_refs_are_refs(def: ResolverDef)
    ensures
        forall|k: int| 0 <= k < refs_of(def).len() ==> references::is_ref(#[trigger] refs_of(def)[k]),
{
}

proof fn lemma_place_of(names: Seq<Seq<char>>, name: Seq<char>, from: int)
    requires
        0 <= from,
    ensures
        place_of(names, name, from) < names.len() ==> from <= place_of(names, name, from) && names[place_of(
            names,
            name,
            from,
        )] == name,
        (place_of(names, name, from) < names.len()) == (exists|k: int|
            from <= k < names.len() && #[trigger] names[k] == name),
    decreases names.len() - from,
{
    if from < names.len() {
        lemma_place_of(names, name, from + 1);
        if names[from] != name {
            if exists|k: int| from <= k < names.len() && #[trigger] names[k] == name {
                let k = choose|k: int| from <= k < names.len() && #[trigger] names[k] == name;
                assert(from + 1 <= k);
            }
        }
    }
}

proof fn lemma_places_in_range(names: Seq<Seq<char>>, owner: Seq<char>, refs: Seq<Seq<char>>, n: int)
    ensures
        places(names, owner, refs, n) matches Ok(es) ==> forall|k: int|
            0 <= k < es.len() ==> 0 <= #[trigger] es[k] < names.len(),
    decreases n,
{
    if n > 0 {
        lemma_places_in_range(names, owner, refs, n - 1);
        lemma_place_of(names, refs[n - 1].drop_first(), 0);
    }
}

/// Needs lead to resolvers.
pub proof fn lemma_graph_valid(table: Seq<(String, ResolverDef)>)
    ensures
        graph_of(table).valid(),
{
    let g = graph_of(table);
    assert forall|i: int| 0 <= i < g.needs.len() implies (#[trigger] g.needs[i] matches Ok(es) ==> forall|k: int|
        0 <= k < es.len() ==> 0 <= #[trigger] es[k] < g.names.len()) by {
        match references::lookup(table, g.names[i]) {
            Some(def) => {
                lemma_places_in_range(g.names, g.names[i], refs_of(def), refs_of(def).len() as int);
            },
            None => {},
        }
    }
}

impl Config {
    /// The graph of the declared resolvers.
    pub open spec fn resolver_graph(&self) -> Graph {
        graph_of(self.resolvers@)
    }

    fn resolver_names(&self) -> (r: Vec<String>)
        ensures
            text::texts(r@) == self.resolver_graph().names,
    {
        let mut names: Vec<String> = Vec::new();
        let mut i: usize = 0;
        while i < self.resolvers.len()
            invariant
                i <= self.resolvers@.len(),
                names@.len() == i,
                forall|k: int| 0 <= k < i ==> (#[trigger] names@[k])@ == self.resolvers@[k].0@,
            decreases self.resolvers@.len() - i,
        {
            names.push(self.resolvers[i].0.clone());
            i = i + 1;
        }
        assert(text::texts(names@) =~= references::names_of(self.resolvers@));
        order::sort_texts(&names)
    }

    /// What the resolver at a place needs.
    fn resolver_needs(&self, names: &Vec<String>, x: usize) -> (r: Result<Vec<usize>, ConfigError>)
        requires
            text::texts(names@) == self.resolver_graph().names,
            x < names@.len(),
        ensures
            match r {
                Ok(es) => self.resolver_graph().needs[x as int] == Ok::<Seq<int>, Seq<char>>(ints(es@)),
                Err(e) => self.resolver_graph().needs[x as int] == Err::<Seq<int>, Seq<char>>(e.text()),
            },
    {
        let ghost all = text::texts(names@);
        let name = names[x].as_str();
        assert(all[x as int] == name@);
        let def = match self.resolver_def(name) {
            Ok(def) => def,
            Err(e) => return Err(e),
        };
        let refs = def.references();
        let ghost list = refs_of(*def);
        proof {
            lemma_refs_are_refs(*def);
        }
        let mut out: Vec<usize> = Vec::new();
        assert(ints(out@) =~= Seq::<int>::empty());
        let mut i: usize = 0;
        while i < refs.len()
            invariant
                i <= refs@.len(),
                all == text::texts(names@),
                all[x as int] == name@,
                list == refs@.map_values(|s: &String| s@),
                forall|k: int| 0 <= k < list.len() ==> references::is_ref(#[trigger] list[k]),
                places(all, name@, list, i as int) == Ok::<Seq<int>, Seq<char>>(ints(out@)),
                self.resolver_graph().needs[x as int] == places(all, name@, list, list.len() as int),
            decreases refs@.len() - i,
        {
            let ghost e = list[i as int];
            assert(e == refs@[i as int]@);
            let cs = text::chars_of(refs[i].as_str());
            proof {
                lemma_trim_len(e);
                assert(references::is_ref(list[i as int]));
            }
            if cs[0] != '@' {
                let m = text::concat5(
                    "[resolvers.",
                    name,
                    "]: invalid resolver reference ",
                    text::quote(refs[i].as_str()).as_str(),
                    "",
                );
                proof {
                    reveal_strlit("");
                    assert(m@ =~= "[resolvers."@ + name@ + "]: invalid resolver reference "@ + text::quoted(e));
                    lemma_places_stop(all, name@, list, i + 1, list.len() as int);
                }
                return Err(ConfigError::Invalid(m));
            }
            let bare = slice_subrange(cs.as_slice(), 1, cs.len());
            assert(bare@ =~= e.drop_first());
            let at = find_name(names, bare);
            if at >= names.len() {
                let m = text::concat5(
                    "[resolvers.",
                    name,
                    "]: unknown resolver ",
                    text::quote(refs[i].as_str()).as_str(),
                    "",
                );
                proof {
                    reveal_strlit("");
                    assert(m@ =~= "[resolvers."@ + name@ + "]: unknown resolver "@ + text::quoted(e));
                    lemma_places_stop(all, name@, list, i + 1, list.len() as int);
                }
                return Err(ConfigError::Invalid(m));
            }
            let ghost before = out@;
            out.push(at);
            i = i + 1;
            assert(ints(out@) =~= ints(before).push(at as int));
        }
        Ok(out)
    }
}

proof fn lemma_places_stop(names: Seq<Seq<char>>, owner: Seq<char>, refs: Seq<Seq<char>>, i: int, n: int)
    requires
        i <= n,
        places(names, owner, refs, i) is Err,
    ensures
        places(names, owner, refs, n) == places(names, owner, refs, i),
    decreases n - i,
{
    if i < n {
        lemma_places_stop(names, owner, refs, i, n - 1);
    }
}

// ---------------------------------------------------------------------------
// Walking the graph
// ---------------------------------------------------------------------------

#[derive(Clone, Copy, PartialEq, Eq, Structural)]
enum Mark {
    New,
    Open,
    Done,
}

/// What is left to do: enter the end of a path, or leave a place.
enum Step {
    Enter(Vec<usize>),
    Exit(usize),
}

ghost enum StepView {
    Enter(Seq<int>),
    Exit(int),
}

impl View for Step {
    type V = StepView;

    closed spec fn view(&self) -> StepView {
        match self {
            Step::Enter(path) => StepView::Enter(ints(path@)),
            Step::Exit(x) => StepView::Exit(*x as int),
        }
    }
}

spec fn step_views(s: Seq<Step>) -> Seq<StepView> {
    s.map_values(|t: Step| t@)
}

/// What comes of the steps that are left.
spec fn rest(g: Graph, todo: Seq<StepView>, listed: Seq<int>) -> Result<Seq<int>, Seq<char>>
    decreases todo.len(),
{
    if todo.len() == 0 {
        Ok(listed)
    } else {
        match todo.last() {
            StepView::Exit(x) => rest(g, todo.drop_last(), listed.push(x)),
            StepView::Enter(path) => match visit(g, path, listed) {
                Err(m) => Err(m),
                Ok(more) => rest(g, todo.drop_last(), more),
            },
        }
    }
}

/// The places that are to be left, outermost first.
spec fn open_places(todo: Seq<StepView>) -> Seq<int>
    decreases todo.len(),
{
    if todo.len() == 0 {
        Seq::empty()
    } else {
        match todo.last() {
            StepView::Exit(x) => open_places(todo.drop_last()).push(x),
            StepView::Enter(_) => open_places(todo.drop_last()),
        }
    }
}

/// Whether every path that is to be entered runs through the places that are
/// open below it.
spec fn paths_fit(todo: Seq<StepView>, n: int) -> bool
    decreases todo.len(),
{
    todo.len() == 0 || {
        &&& paths_fit(todo.drop_last(), n)
        &&& match todo.last() {
            StepView::Exit(x) => 0 <= x < n,
            StepView::Enter(path) => {
                &&& path.len() > 0
                &&& path.drop_last() == open_places(todo.drop_last())
                &&& 0 <= path.last() < n
            },
        }
    }
}

proof fn lemma_open_in_range(todo: Seq<StepView>, n: int)
    requires
        paths_fit(todo, n),
    ensures
        forall|k: int| 0 <= k < open_places(todo).len() ==> 0 <= #[trigger] open_places(todo)[k] < n,
    decreases todo.len(),
{
    if todo.len() > 0 {
        lemma_open_in_range(todo.drop_last(), n);
        let inner = open_places(todo.drop_last());
        assert forall|k: int| 0 <= k < open_places(todo).len() implies 0 <= #[trigger] open_places(todo)[k] < n by {
            if k < inner.len() {
                assert(open_places(todo)[k] == inner[k]);
            }
        }
    }
}

/// Places that do not repeat are no more than there are.
proof fn lemma_pigeonhole(s: Seq<int>, n: int)
    requires
        s.no_duplicates(),
        0 <= n,
        forall|k: int| 0 <= k < s.len() ==> 0 <= #[trigger] s[k] < n,
    ensures
        s.len() <= n,
{
    s.unique_seq_to_set();
    vstd::set_lib::lemma_int_range(0, n);
    assert(s.to_set().subset_of(vstd::set_lib::set_int_range(0, n)));
    vstd::set_lib::lemma_len_subset(s.to_set(), vstd::set_lib::set_int_range(0, n));
}

/// The steps that enter the first `k` needs of a path's end.
spec fn entries(path: Seq<int>, es: Seq<int>, k: int) -> Seq<StepView>
    decreases k,
{
    if k <= 0 {
        Seq::empty()
    } else {
        entries(path, es, k - 1).push(StepView::Enter(path.push(es[k - 1])))
    }
}

proof fn lemma_entries(g: Graph, todo: Seq<StepView>, path: Seq<int>, es: Seq<int>, k: int, listed: Seq<int>)
    requires
        path.len() <= g.names.len(),
        path.len() > 0,
    ensures
        rest(g, todo.push(StepView::Exit(path.last())) + entries(path, es, k), listed) == (match visit_needs(
            g,
            path,
            es,
            k,
            listed,
        ) {
            Err(m) => Err(m),
            Ok(more) => rest(g, todo, more.push(path.last())),
        }),
    decreases k,
{
    let base = todo.push(StepView::Exit(path.last()));
    let all = base + entries(path, es, k);
    if k <= 0 {
        assert(all =~= base);
        assert(base.drop_last() =~= todo);
    } else {
        assert(all.drop_last() =~= base + entries(path, es, k - 1));
        assert(all.last() == StepView::Enter(path.push(es[k - 1])));
        match visit(g, path.push(es[k - 1]), listed) {
            Ok(more) => {
                lemma_entries(g, todo, path, es, k - 1, more);
            },
            Err(_) => {},
        }
    }
}

proof fn lemma_entries_fit(todo: Seq<StepView>, path: Seq<int>, es: Seq<int>, k: int, n: int)
    requires
        paths_fit(todo, n),
        path.len() > 0,
        path.drop_last() == open_places(todo),
        0 <= path.last() < n,
        0 <= k <= es.len(),
        forall|i: int| 0 <= i < es.len() ==> 0 <= #[trigger] es[i] < n,
    ensures
        paths_fit(todo.push(StepView::Exit(path.last())) + entries(path, es, k), n),
        open_places(todo.push(StepView::Exit(path.last())) + entries(path, es, k)) == path,
    decreases k,
{
    let base = todo.push(StepView::Exit(path.last()));
    let all = base + entries(path, es, k);
    if k <= 0 {
        assert(all =~= base);
        assert(base.drop_last() =~= todo);
        assert(open_places(base) =~= path);
    } else {
        lemma_entries_fit(todo, path, es, k - 1, n);
        assert(all.drop_last() =~= base + entries(path, es, k - 1));
        assert(all.last() == StepView::Enter(path.push(es[k - 1])));
        assert(path.push(es[k - 1]).drop_last() =~= path);
    }
}

/// How many of the first `n` places are untouched.
spec fn untouched(marks: Seq<Mark>, n: int) -> nat
    decreases n,
{
    if n <= 0 {
        0
    } else {
        untouched(marks, n - 1) + if marks[n - 1] == Mark::New {
            1nat
        } else {
            0nat
        }
    }
}

proof fn lemma_untouched(marks: Seq<Mark>, x: int, m: Mark, n: int)
    requires
        0 <= x < marks.len(),
        n <= marks.len(),
        m != Mark::New,
    ensures
        untouched(marks.update(x, m), n) == untouched(marks, n) - (if x < n && marks[x] == Mark::New {
            1int
        } else {
            0int
        }),
    decreases n,
{
    if n > 0 {
        lemma_untouched(marks, x, m, n - 1);
    }
}

impl Config {
    /// The declared resolvers in dependency order: every resolver stands behind
    /// the ones that it needs, so one pass can build them all. An error names the
    /// whole cycle.
    pub fn resolver_build_order(&self) -> (r: Result<Vec<String>, ConfigError>)
        ensures
            match r {
                Ok(names) => match build_order(self.resolver_graph()) {
                    Ok(places) => text::texts(names@) == places.map_values(|i: int| self.resolver_graph().names[i]),
                    Err(_) => false,
                },
                Err(e) => build_order(self.resolver_graph()) == Err::<Seq<int>, Seq<char>>(e.text()),
            },
    {
        let ghost g = self.resolver_graph();
        proof {
            lemma_graph_valid(self.resolvers@);
        }
        let names = self.resolver_names();
        let n = names.len();
        assert(n == g.names.len());
        let mut marks: Vec<Mark> = Vec::new();
        while marks.len() < n
            invariant
                marks@.len() <= n,
                forall|i: int| 0 <= i < marks@.len() ==> #[trigger] marks@[i] == Mark::New,
            decreases n - marks@.len(),
        {
            marks.push(Mark::New);
        }
        let mut listed: Vec<usize> = Vec::new();
        let mut root: usize = 0;
        assert(ints(listed@) =~= Seq::<int>::empty());
        while root < n
            invariant
                g == self.resolver_graph(),
                g.valid(),
                n == g.names.len(),
                names@.len() == n,
                text::texts(names@) == g.names,
                root <= n,
                marks@.len() == n,
                forall|i: int|
                    0 <= i < n ==> #[trigger] marks@[i] == (if ints(listed@).contains(i) {
                        Mark::Done
                    } else {
                        Mark::New
                    }),
                forall|k: int| 0 <= k < listed@.len() ==> #[trigger] listed@[k] < n,
                visit_from(g, root as int, ints(listed@)) == build_order(g),
            decreases n - root,
        {
            let ghost whole = visit(g, seq![root as int], ints(listed@));
            let mut todo: Vec<Step> = Vec::new();
            let mut start: Vec<usize> = Vec::new();
            start.push(root);
            assert(ints(start@) =~= seq![root as int]);
            todo.push(Step::Enter(start));
            proof {
                reveal_with_fuel(rest, 2);
                reveal_with_fuel(open_places, 2);
                let v = step_views(todo@);
                assert(v.drop_last() =~= Seq::<StepView>::empty());
                assert(v.last() == StepView::Enter(seq![root as int]));
                assert(seq![root as int].drop_last() =~= Seq::<int>::empty());
                assert(rest(g, v, ints(listed@)) == whole);
                assert(paths_fit(v.drop_last(), n as int));
                assert(open_places(v) =~= Seq::<int>::empty());
            }
            while todo.len() > 0
                invariant
                    g == self.resolver_graph(),
                    g.valid(),
                    n == g.names.len(),
                    names@.len() == n,
                    text::texts(names@) == g.names,
                    marks@.len() == n,
                    root < n,
                    match whole {
                        Err(_) => build_order(g) == whole,
                        Ok(more) => build_order(g) == visit_from(g, root + 1, more),
                    },
                    rest(g, step_views(todo@), ints(listed@)) == whole,
                    paths_fit(step_views(todo@), n as int),
                    open_places(step_views(todo@)).no_duplicates(),
                    forall|i: int|
                        0 <= i < n ==> #[trigger] marks@[i] == (if ints(listed@).contains(i) {
                            Mark::Done
                        } else if open_places(step_views(todo@)).contains(i) {
                            Mark::Open
                        } else {
                            Mark::New
                        }),
                    forall|i: int|
                        #![trigger ints(listed@).contains(i)]
                        ints(listed@).contains(i) ==> !open_places(step_views(todo@)).contains(i),
                    forall|k: int| 0 <= k < listed@.len() ==> #[trigger] listed@[k] < n,
                decreases untouched(marks@, n as int), todo@.len(),
            {
                let ghost v = step_views(todo@);
                let ghost was = ints(listed@);
                let step = todo.pop().unwrap();
                proof {
                    assert(step_views(todo@) =~= v.drop_last());
                    assert(v.last() == step@);
                    lemma_open_in_range(v.drop_last(), n as int);
                }
                match step {
                    Step::Exit(x) => {
                        proof {
                            lemma_untouched(marks@, x as int, Mark::Done, n as int);
                            let o = open_places(v);
                            assert(o.last() == x);
                            assert(o.drop_last() =~= open_places(v.drop_last()));
                            assert(o[o.len() - 1] == x);
                            assert(o.contains(x as int));
                        }
                        marks.set(x, Mark::Done);
                        listed.push(x);
                        proof {
                            assert(ints(listed@) =~= was.push(x as int));
                            assert(ints(listed@)[was.len() as int] == x);
                            assert forall|i: int| #![trigger ints(listed@).contains(i)]
                                ints(listed@).contains(i) == (was.contains(i) || i == x) by {
                                if was.contains(i) {
                                    let k = choose|k: int| 0 <= k < was.len() && was[k] == i;
                                    assert(ints(listed@)[k] == i);
                                }
                            }
                            let o = open_places(v);
                            assert forall|i: int| #![trigger o.contains(i)]
                                o.drop_last().contains(i) == (o.contains(i) && i != x) by {
                                if o.contains(i) && i != x {
                                    let k = choose|k: int| 0 <= k < o.len() && o[k] == i;
                                    assert(o.drop_last()[k] == i);
                                }
                                if o.drop_last().contains(i) {
                                    let k = choose|k: int| 0 <= k < o.len() - 1 && o.drop_last()[k] == i;
                                    assert(o[k] == i);
                                }
                            }
                            assert forall|i: int| 0 <= i < n implies #[trigger] marks@[i] == (if ints(
                                listed@,
                            ).contains(i) {
                                Mark::Done
                            } else if open_places(step_views(todo@)).contains(i) {
                                Mark::Open
                            } else {
                                Mark::New
                            }) by {
                                assert(o.contains(i) || !o.contains(i));
                            }
                            assert forall|i: int| #![trigger ints(listed@).contains(i)]
                                ints(listed@).contains(i) implies !open_places(step_views(todo@)).contains(i) by {
                                assert(o.contains(i) || !o.contains(i));
                            }
                        }
                    },
                    Step::Enter(path) => {
                        let ghost p = ints(path@);
                        let x = path[path.len() - 1];
                        proof {
                            assert(p.last() == x);
                            assert(p.drop_last() == open_places(v.drop_last()));
                            assert forall|k: int| 0 <= k < path@.len() implies #[trigger] path@[k] < n by {
                                assert(p[k] == path@[k]);
                                if k < p.len() - 1 {
                                    assert(p.drop_last()[k] == p[k]);
                                }
                            }
                        }
                        match marks[x] {
                            Mark::Done => {},
                            Mark::Open => {
                                let m = self.cycle_text(&names, &path);
                                return Err(ConfigError::Invalid(m));
                            },
                            Mark::New => {
                                proof {
                                    assert(p.no_duplicates()) by {
                                        assert(!p.drop_last().contains(x as int));
                                        assert(p =~= p.drop_last().push(x as int));
                                    }
                                    assert forall|k: int| 0 <= k < p.len() implies 0 <= #[trigger] p[k] < n by {
                                        if k < p.len() - 1 {
                                            assert(p.drop_last()[k] == p[k]);
                                        }
                                    }
                                    lemma_pigeonhole(p, n as int);
                                    lemma_untouched(marks@, x as int, Mark::Open, n as int);
                                }
                                let es = match self.resolver_needs(&names, x) {
                                    Ok(es) => es,
                                    Err(e) => return Err(e),
                                };
                                marks.set(x, Mark::Open);
                                let ghost base = v.drop_last();
                                todo.push(Step::Exit(x));
                                proof {
                                    assert(step_views(todo@) =~= base.push(StepView::Exit(x as int)) + entries(
                                        p,
                                        ints(es@),
                                        0,
                                    ));
                                }
                                let mut k: usize = 0;
                                while k < es.len()
                                    invariant
                                        k <= es@.len(),
                                        p == ints(path@),
                                        step_views(todo@) == base.push(StepView::Exit(x as int)) + entries(
                                            p,
                                            ints(es@),
                                            k as int,
                                        ),
                                    decreases es@.len() - k,
                                {
                                    let mut next = path.clone();
                                    next.push(es[k]);
                                    let ghost before = step_views(todo@);
                                    let ghost longer = ints(next@);
                                    assert(longer =~= p.push(ints(es@)[k as int]));
                                    todo.push(Step::Enter(next));
                                    assert(step_views(todo@) =~= before.push(StepView::Enter(longer)));
                                    k = k + 1;
                                    assert(step_views(todo@) =~= base.push(StepView::Exit(x as int)) + entries(
                                        p,
                                        ints(es@),
                                        k as int,
                                    ));
                                }
                                proof {
                                    lemma_entries(g, base, p, ints(es@), es@.len() as int, was);
                                    assert(g.needs[x as int] == Ok::<Seq<int>, Seq<char>>(ints(es@)));
                                    lemma_entries_fit(base, p, ints(es@), es@.len() as int, n as int);
                                    assert(p[p.len() - 1] == x);
                                    assert forall|i: int| #![trigger p.contains(i)]
                                        p.contains(i) == (p.drop_last().contains(i) || i == x) by {
                                        if p.drop_last().contains(i) {
                                            let k = choose|k: int| 0 <= k < p.len() - 1 && p.drop_last()[k] == i;
                                            assert(p[k] == i);
                                        }
                                        if p.contains(i) && i != x {
                                            let k = choose|k: int| 0 <= k < p.len() && p[k] == i;
                                            assert(p.drop_last()[k] == i);
                                        }
                                    }
                                }
                            },
                        }
                    },
                }
            }
            proof {
                assert(step_views(todo@).len() == 0);
            }
            root = root + 1;
        }
        let mut out: Vec<String> = Vec::new();
        let mut i: usize = 0;
        while i < listed.len()
            invariant
                g == self.resolver_graph(),
                text::texts(names@) == g.names,
                n == names@.len(),
                i <= listed@.len(),
                out@.len() == i,
                forall|k: int| 0 <= k < listed@.len() ==> #[trigger] listed@[k] < n,
                forall|k: int| 0 <= k < i ==> (#[trigger] out@[k])@ == g.names[listed@[k] as int],
            decreases listed@.len() - i,
        {
            assert(g.names[listed@[i as int] as int] == names@[listed@[i as int] as int]@);
            out.push(names[listed[i]].clone());
            i = i + 1;
        }
        assert(text::texts(out@) =~= ints(listed@).map_values(|i: int| g.names[i]));
        Ok(out)
    }

    fn cycle_text(&self, names: &Vec<String>, path: &Vec<usize>) -> (r: String)
        requires
            text::texts(names@) == self.resolver_graph().names,
            forall|k: int| 0 <= k < path@.len() ==> #[trigger] path@[k] < names@.len(),
        ensures
            r@ == cycle_message(self.resolver_graph(), ints(path@)),
    {
        let mut list: Vec<String> = Vec::new();
        let mut i: usize = 0;
        while i < path.len()
            invariant
                i <= path@.len(),
                list@.len() == i,
                text::texts(names@) == self.resolver_graph().names,
                forall|k: int| 0 <= k < path@.len() ==> #[trigger] path@[k] < names@.len(),
                forall|k: int|
                    0 <= k < i ==> (#[trigger] list@[k])@ == self.resolver_graph().names[path@[k] as int],
            decreases path@.len() - i,
        {
            assert(text::texts(names@)[path@[i as int] as int] == names@[path@[i as int] as int]@);
            list.push(names[path[i]].clone());
            i = i + 1;
        }
        assert(text::texts(list@) =~= ints(path@).map_values(|i: int| self.resolver_graph().names[i]));
        text::concat3(
            "[resolvers]: dependency cycle ",
            text::joined(&list, " -> ").as_str(),
            " — every resolver in a cycle needs another one in it to find its own address. Break the chain by pointing one `bootstrap` at a literal IP, or by omitting it to use OS resolution",
        )
    }
}

// ---------------------------------------------------------------------------
// Laws
// ---------------------------------------------------------------------------

/// Whether places are listed once each, each behind everything that it needs.
pub open spec fn built(g: Graph, listed: Seq<int>) -> bool {
    &&& listed.no_duplicates()
    &&& forall|i: int|
        0 <= i < listed.len() ==> 0 <= #[trigger] listed[i] < g.names.len() && g.needs[listed[i]] is Ok
    &&& forall|i: int, e: int|
        #![trigger g.needed(listed[i], e)]
        0 <= i < listed.len() && g.needed(listed[i], e) ==> exists|j: int| 0 <= j < i && #[trigger] listed[j] == e
}

/// Whether each place on a path needs the next.
pub open spec fn chain(g: Graph, path: Seq<int>) -> bool {
    &&& path.len() > 0
    &&& forall|i: int| 0 <= i < path.len() ==> 0 <= #[trigger] path[i] < g.names.len()
    &&& forall|i: int, j: int|
        #![trigger path[i], path[j]]
        0 <= i && j == i + 1 && j < path.len() ==> g.needed(path[i], path[j])
}

/// Whether a path of needs comes back to itself.
pub open spec fn closes(g: Graph, path: Seq<int>) -> bool {
    chain(g, path) && path.drop_last().contains(path.last())
}

/// Whether a message is that of a bad reference, or names a cycle that there is.
pub open spec fn explained(g: Graph, m: Seq<char>) -> bool {
    ||| exists|i: int| 0 <= i < g.needs.len() && #[trigger] g.needs[i] == Err::<Seq<int>, Seq<char>>(m)
    ||| exists|p: Seq<int>| #[trigger] closes(g, p) && m == cycle_message(g, p)
}

spec fn grows(path: Seq<int>, listed: Seq<int>, more: Seq<int>) -> bool {
    &&& listed.is_prefix_of(more)
    &&& forall|a: int| #![trigger more.contains(a)] path.contains(a) && !listed.contains(a) ==> !more.contains(a)
}

proof fn lemma_grows_keeps(path: Seq<int>, listed: Seq<int>, more: Seq<int>, x: int)
    requires
        grows(path, listed, more),
        listed.contains(x),
    ensures
        more.contains(x),
{
    let k = choose|k: int| 0 <= k < listed.len() && listed[k] == x;
    assert(more[k] == x);
}

proof fn lemma_visit(g: Graph, path: Seq<int>, listed: Seq<int>)
    requires
        g.valid(),
        chain(g, path),
        path.drop_last().no_duplicates(),
        built(g, listed),
    ensures
        match visit(g, path, listed) {
            Ok(more) => built(g, more) && grows(path.drop_last(), listed, more) && more.contains(path.last()),
            Err(m) => explained(g, m),
        },
    decreases room(g, path), 1int, 0int,
{
    let x = path.last();
    if listed.contains(x) {
    } else if path.drop_last().contains(x) {
        assert(closes(g, path));
    } else {
        assert(path =~= path.drop_last().push(x));
        assert(path.no_duplicates());
        lemma_pigeonhole(path, g.names.len() as int);
        assert(path[path.len() - 1] == x);
        match g.needs[x] {
            Err(m) => {
                assert(g.needs[x] == Err::<Seq<int>, Seq<char>>(m));
            },
            Ok(es) => {
                lemma_visit_needs(g, path, es, es.len() as int, listed);
                match visit_needs(g, path, es, es.len() as int, listed) {
                    Err(_) => {},
                    Ok(more) => {
                        let all = more.push(x);
                        assert(path.contains(x));
                        assert(!more.contains(x));
                        assert forall|i: int, e: int|
                            #![trigger g.needed(all[i], e)]
                            0 <= i < all.len() && g.needed(all[i], e) implies exists|j: int|
                            0 <= j < i && #[trigger] all[j] == e by {
                            if i < more.len() {
                                assert(g.needed(more[i], e));
                                let j = choose|j: int| 0 <= j < i && #[trigger] more[j] == e;
                                assert(all[j] == e);
                            } else {
                                assert(more.contains(e));
                                let j = choose|j: int| 0 <= j < more.len() && more[j] == e;
                                assert(all[j] == e);
                            }
                        }
                        assert(all[more.len() as int] == x);
                        assert forall|a: int| #![trigger all.contains(a)]
                            path.drop_last().contains(a) && !listed.contains(a) implies !all.contains(a) by {
                            let k = choose|k: int| 0 <= k < path.drop_last().len() && path.drop_last()[k] == a;
                            assert(path[k] == a);
                            assert(path.contains(a));
                            assert(!more.contains(a));
                            if all.contains(a) {
                                let j = choose|j: int| 0 <= j < all.len() && all[j] == a;
                                if j < more.len() {
                                    assert(more[j] == a);
                                } else {
                                    assert(a == x);
                                }
                            }
                        }
                    },
                }
            },
        }
    }
}

proof fn lemma_visit_needs(g: Graph, path: Seq<int>, es: Seq<int>, k: int, listed: Seq<int>)
    requires
        g.valid(),
        chain(g, path),
        path.no_duplicates(),
        path.len() <= g.names.len(),
        g.needs[path.last()] == Ok::<Seq<int>, Seq<char>>(es),
        0 <= k <= es.len(),
        built(g, listed),
    ensures
        match visit_needs(g, path, es, k, listed) {
            Ok(more) => built(g, more) && grows(path, listed, more) && forall|j: int|
                0 <= j < k ==> more.contains(#[trigger] es[j]),
            Err(m) => explained(g, m),
        },
    decreases room(g, path), 0int, k,
{
    if k > 0 {
        let next = path.push(es[k - 1]);
        assert(next.drop_last() =~= path);
        assert(es.contains(es[k - 1]));
        assert(0 <= path[path.len() - 1] < g.names.len());
        assert(g.needs[path.last()] matches Ok(list) ==> 0 <= list[k - 1] < g.names.len());
        assert(chain(g, next)) by {
            assert forall|i: int| 0 <= i < next.len() implies 0 <= #[trigger] next[i] < g.names.len() by {
                if i < path.len() {
                    assert(next[i] == path[i]);
                }
            }
            assert forall|i: int, j: int|
                #![trigger next[i], next[j]]
                0 <= i && j == i + 1 && j < next.len() implies g.needed(next[i], next[j]) by {
                if j < path.len() {
                    assert(next[i] == path[i] && next[j] == path[j]);
                } else {
                    assert(next[i] == path.last());
                }
            }
        }
        lemma_visit(g, next, listed);
        match visit(g, next, listed) {
            Err(_) => {},
            Ok(more) => {
                lemma_visit_needs(g, path, es, k - 1, more);
                match visit_needs(g, path, es, k - 1, more) {
                    Err(_) => {},
                    Ok(all) => {
                        lemma_grows_keeps(path, more, all, es[k - 1]);
                        assert forall|a: int| #![trigger all.contains(a)]
                            path.contains(a) && !listed.contains(a) implies !all.contains(a) by {
                            assert(!more.contains(a));
                        }
                    },
                }
            },
        }
    }
}

proof fn lemma_visit_from(g: Graph, k: int, listed: Seq<int>)
    requires
        g.valid(),
        0 <= k <= g.names.len(),
        built(g, listed),
        forall|i: int| 0 <= i < k ==> #[trigger] listed.contains(i),
    ensures
        match visit_from(g, k, listed) {
            Ok(more) => built(g, more) && forall|i: int| 0 <= i < g.names.len() ==> #[trigger] more.contains(i),
            Err(m) => explained(g, m),
        },
    decreases g.names.len() - k,
{
    if k < g.names.len() {
        let path = seq![k];
        assert(path.drop_last() =~= Seq::<int>::empty());
        lemma_visit(g, path, listed);
        match visit(g, path, listed) {
            Err(_) => {},
            Ok(more) => {
                assert forall|i: int| 0 <= i < k + 1 implies #[trigger] more.contains(i) by {
                    if i < k {
                        assert(listed.contains(i));
                        lemma_grows_keeps(path.drop_last(), listed, more, i);
                    }
                }
                lemma_visit_from(g, k + 1, more);
            },
        }
    }
}

/// Every declared resolver is listed, once, behind everything that it needs.
pub proof fn law_dependencies_come_first(g: Graph)
    requires
        g.valid(),
    ensures
        build_order(g) matches Ok(listed) ==> built(g, listed) && forall|i: int|
            0 <= i < g.names.len() ==> #[trigger] listed.contains(i),
{
    lemma_visit_from(g, 0, Seq::empty());
}

/// A refusal is due to a reference that leads nowhere, or names a cycle that
/// there is, from where it is entered to where it closes.
pub proof fn law_refusal_names_the_cycle(g: Graph)
    requires
        g.valid(),
    ensures
        build_order(g) matches Err(m) ==> explained(g, m),
{
    lemma_visit_from(g, 0, Seq::empty());
}

proof fn lemma_chain_goes_down(g: Graph, listed: Seq<int>, path: Seq<int>, i: int, j: int)
    requires
        built(g, listed),
        chain(g, path),
        0 <= i < j < path.len(),
        forall|k: int| 0 <= k < g.names.len() ==> #[trigger] listed.contains(k),
    ensures
        forall|a: int, b: int|
            0 <= a < listed.len() && 0 <= b < listed.len() && #[trigger] listed[a] == path[i] && #[trigger] listed[b]
                == path[j] ==> b < a,
    decreases j - i,
{
    assert forall|a: int, b: int|
        0 <= a < listed.len() && 0 <= b < listed.len() && #[trigger] listed[a] == path[i] && #[trigger] listed[b]
            == path[j] implies b < a by {
        assert(g.needed(path[i], path[i + 1]));
        assert(g.needed(listed[a], path[i + 1]));
        let c = choose|c: int| 0 <= c < a && #[trigger] listed[c] == path[i + 1];
        if j == i + 1 {
            assert(b == c);
        } else {
            lemma_chain_goes_down(g, listed, path, i + 1, j);
            assert(listed[c] == path[i + 1]);
        }
    }
}

/// There is a build order exactly if every reference leads to a declared resolver
/// and no chain of needs comes back to itself.
pub proof fn law_buildable_unless_cyclic(g: Graph)
    requires
        g.valid(),
    ensures
        build_order(g) is Ok <==> {
            &&& forall|i: int| 0 <= i < g.needs.len() ==> #[trigger] g.needs[i] is Ok
            &&& forall|p: Seq<int>| !#[trigger] closes(g, p)
        },
{
    lemma_visit_from(g, 0, Seq::empty());
    match build_order(g) {
        Err(_) => {},
        Ok(listed) => {
            assert forall|i: int| 0 <= i < g.needs.len() implies #[trigger] g.needs[i] is Ok by {
                assert(listed.contains(i));
                let k = choose|k: int| 0 <= k < listed.len() && listed[k] == i;
                assert(g.needs[listed[k]] is Ok);
            }
            assert forall|p: Seq<int>| !#[trigger] closes(g, p) by {
                if closes(g, p) {
                    let i = choose|i: int| 0 <= i < p.drop_last().len() && p.drop_last()[i] == p.last();
                    let j = p.len() - 1;
                    lemma_chain_goes_down(g, listed, p, i, j);
                    assert(listed.contains(p[i]));
                    let k = choose|k: int| 0 <= k < listed.len() && listed[k] == p[i];
                    assert(listed[k] == p[j]);
                    assert(k < k);
                }
            }
        },
    }
}

/// The order in which resolvers are declared plays no part in the outcome.
pub proof fn law_declaration_order_is_irrelevant(a: Seq<(String, ResolverDef)>, b: Seq<(String, ResolverDef)>)
    requires
        references::names_of(a).to_multiset() == references::names_of(b).to_multiset(),
        forall|name: Seq<char>| #[trigger] references::lookup(a, name) == references::lookup(b, name),
    ensures
        graph_of(a) == graph_of(b),
        build_order(graph_of(a)) == build_order(graph_of(b)),
{
    order::lemma_sorted_ignores_order(references::names_of(a), references::names_of(b));
    let names = graph_of(a).names;
    assert forall|i: int| 0 <= i < names.len() implies needs_of(a, names, names[i]) == needs_of(b, names, names[i]) by {
        assert(references::lookup(a, names[i]) == references::lookup(b, names[i]));
    }
    assert(graph_of(a).needs =~= graph_of(b).needs);
}

proof fn lemma_places(names: Seq<Seq<char>>, owner: Seq<char>, refs: Seq<Seq<char>>, n: int, k: int)
    requires
        0 <= k < n <= refs.len(),
    ensures
        places(names, owner, refs, n) matches Ok(found) ==> found.len() == n && found[k] == place_of(
            names,
            refs[k].drop_first(),
            0,
        ),
    decreases n,
{
    if k < n - 1 {
        lemma_places(names, owner, refs, n - 1, k);
    } else {
        lemma_places_count(names, owner, refs, n - 1);
    }
}

proof fn lemma_places_count(names: Seq<Seq<char>>, owner: Seq<char>, refs: Seq<Seq<char>>, n: int)
    requires
        0 <= n,
    ensures
        places(names, owner, refs, n) matches Ok(found) ==> found.len() == n,
    decreases n,
{
    if n > 0 {
        lemma_places_count(names, owner, refs, n - 1);
    }
}

proof fn lemma_own_place(names: Seq<Seq<char>>, from: int, j: int)
    requires
        0 <= from <= j < names.len(),
        names.no_duplicates(),
    ensures
        place_of(names, names[j], from) == j,
    decreases j - from,
{
    if from < j {
        lemma_own_place(names, from + 1, j);
    }
}

/// A resolver that finds its address, or its ECH config, through another needs that other.
pub proof fn law_references_are_needs(table: Seq<(String, ResolverDef)>, def: ResolverDef, s: String, i: int, j: int)
    requires
        0 <= i < graph_of(table).names.len(),
        0 <= j < graph_of(table).names.len(),
        graph_of(table).names.no_duplicates(),
        references::lookup(table, graph_of(table).names[i]) == Some(def),
        s@ == seq!['@'] + graph_of(table).names[j],
        graph_of(table).names[j].len() > 0,
        !text::is_space(graph_of(table).names[j].last()),
        def.bootstrap == Some(s) || (def.ech matches Some(e) && e.ech_resolver == Some(s)),
        graph_of(table).needs[i] is Ok,
    ensures
        graph_of(table).needed(i, j),
{
    let g = graph_of(table);
    let names = g.names;
    let r = s@;
    assert(r[0] == '@' && r.last() == names[j].last());
    text::lemma_trimmed_already(r);
    assert(r.drop_first() =~= names[j]);
    let a = as_ref(def.bootstrap);
    let b = as_ref(own_ech_resolver(def));
    let both = a + b;
    let refs = refs_of(def);
    assert(refs.contains(r)) by {
        if def.bootstrap == Some(s) {
            assert(both[0] == r);
        } else {
            assert(both[a.len() as int] == r);
        }
        assert(both.len() <= 2);
        if both.len() == 2 {
            if both[0] == both[1] {
                assert(refs[0] == r);
            } else if !order::text_le(both[0], both[1]) {
                assert(refs[0] == both[1] && refs[1] == both[0]);
            } else {
                assert(refs[0] == both[0] && refs[1] == both[1]);
            }
        } else {
            assert(refs[0] == r);
        }
    }
    let k = choose|k: int| 0 <= k < refs.len() && refs[k] == r;
    lemma_places(names, names[i], refs, refs.len() as int, k);
    lemma_own_place(names, 0, j);
    assert(g.needs[i] == needs_of(table, names, names[i]));
    let es = g.needs[i]->Ok_0;
    assert(es[k] == j);
}

/// A resolver that names no other needs none.
pub proof fn law_resolver_without_references_needs_none(table: Seq<(String, ResolverDef)>, def: ResolverDef, i: int)
    requires
        0 <= i < graph_of(table).names.len(),
        references::lookup(table, graph_of(table).names[i]) == Some(def),
        def.bootstrap is None,
        def.ech matches Some(e) ==> e.ech_resolver is None,
    ensures
        graph_of(table).needs[i] == Ok::<Seq<int>, Seq<char>>(Seq::empty()),
{
    assert(as_ref(def.bootstrap) + as_ref(own_ech_resolver(def)) =~= Seq::<Seq<char>>::empty());
}

/// References are followed exactly where each of them is a declared name behind an `@`.
pub proof fn law_declared_references_are_found(names: Seq<Seq<char>>, owner: Seq<char>, refs: Seq<Seq<char>>, n: int)
    requires
        0 <= n <= refs.len(),
    ensures
        places(names, owner, refs, n) is Ok <==> forall|k: int|
            0 <= k < n ==> (#[trigger] refs[k])[0] == '@' && names.contains(refs[k].drop_first()),
    decreases n,
{
    if n > 0 {
        law_declared_references_are_found(names, owner, refs, n - 1);
        let name = refs[n - 1].drop_first();
        lemma_place_of(names, name, 0);
        if names.contains(name) {
            let i = choose|i: int| 0 <= i < names.len() && names[i] == name;
            assert(names[i] == name);
        }
    }
}

} // verus!
