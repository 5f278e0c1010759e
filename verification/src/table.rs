//! A small map with text keys.

use crate::text;
use vstd::prelude::*;

verus! {

/// Values by name, each name once.
#[derive(Debug)]
pub struct TextMap<V> {
    entries: Vec<(String, V)>,
}

spec fn has_entry<V>(entries: Seq<(String, V)>, k: Seq<char>) -> bool {
    exists|i: int| 0 <= i < entries.len() && (#[trigger] entries[i]).0@ == k
}

spec fn entry_at<V>(entries: Seq<(String, V)>, k: Seq<char>) -> int {
    choose|i: int| 0 <= i < entries.len() && (#[trigger] entries[i]).0@ == k
}

spec fn apart<V>(entries: Seq<(String, V)>) -> bool {
    forall|i: int, j: int|
        #![trigger entries[i], entries[j]]
        0 <= i < entries.len() && 0 <= j < entries.len() && entries[i].0@ == entries[j].0@ ==> i == j
}

spec fn as_map<V>(entries: Seq<(String, V)>) -> Map<Seq<char>, V> {
    Map::new(|k: Seq<char>| has_entry(entries, k), |k: Seq<char>| entries[entry_at(entries, k)].1)
}

proof fn lemma_at<V>(entries: Seq<(String, V)>, i: int)
    requires
        apart(entries),
        0 <= i < entries.len(),
    ensures
        has_entry(entries, entries[i].0@),
        entry_at(entries, entries[i].0@) == i,
        as_map(entries).contains_key(entries[i].0@),
        as_map(entries)[entries[i].0@] == entries[i].1,
{
    let k = entries[i].0@;
    let m = entry_at(entries, k);
    assert(entries[m].0@ == k);
    assert(entries[i].0@ == entries[m].0@);
}

impl<V> View for TextMap<V> {
    type V = Map<Seq<char>, V>;

    closed spec fn view(&self) -> Map<Seq<char>, V> {
        as_map(self.entries@)
    }
}

impl<V> TextMap<V> {
    /// Every name is there once.
    pub closed spec fn valid(&self) -> bool {
        apart(self.entries@)
    }

    /// A map without entries.
    pub fn new() -> (r: Self)
        ensures
            r.valid(),
            r@ == Map::<Seq<char>, V>::empty(),
    {
        let r = TextMap { entries: Vec::new() };
        assert(r@ =~= Map::<Seq<char>, V>::empty());
        r
    }

    fn find(&self, k: &str) -> (r: Option<usize>)
        ensures
            match r {
                Some(i) => i < self.entries@.len() && self.entries@[i as int].0@ == k@,
                None => !has_entry(self.entries@, k@),
            },
    {
        let mut i: usize = 0;
        while i < self.entries.len()
            invariant
                i <= self.entries@.len(),
                forall|j: int| 0 <= j < i ==> (#[trigger] self.entries@[j]).0@ != k@,
            decreases self.entries@.len() - i,
        {
            if text::same_text(self.entries[i].0.as_str(), k) {
                return Some(i);
            }
            i = i + 1;
        }
        None
    }

    /// How many entries there are.
    pub fn len(&self) -> (r: usize)
        requires
            self.valid(),
        ensures
            r == self@.len(),
            self@.dom().finite(),
    {
        proof {
            lemma_size(self.entries@);
        }
        self.entries.len()
    }

    /// The value of a name.
    pub fn get(&self, k: &str) -> (r: Option<&V>)
        requires
            self.valid(),
        ensures
            match r {
                Some(v) => self@.contains_key(k@) && self@[k@] == *v,
                None => !self@.contains_key(k@),
            },
    {
        match self.find(k) {
            Some(i) => {
                proof {
                    lemma_at(self.entries@, i as int);
                }
                Some(&self.entries[i].1)
            },
            None => None,
        }
    }

    /// Forget a name.
    pub fn remove(&mut self, k: &str) -> (r: Option<V>)
        requires
            old(self).valid(),
        ensures
            final(self).valid(),
            final(self)@ == old(self)@.remove(k@),
            match r {
                Some(v) => old(self)@.contains_key(k@) && old(self)@[k@] == v,
                None => !old(self)@.contains_key(k@),
            },
    {
        let ghost before = self.entries@;
        match self.find(k) {
            Some(i) => {
                proof {
                    lemma_at(before, i as int);
                }
                let (_, v) = self.entries.remove(i);
                let ghost after = self.entries@;
                proof {
                    assert(apart(after)) by {
                        assert forall|x: int, y: int|
                            #![trigger after[x], after[y]]
                            0 <= x < after.len() && 0 <= y < after.len() && after[x].0@ == after[y].0@ implies x == y by {
                            let p = if x < i {
                                x
                            } else {
                                x + 1
                            };
                            let q = if y < i {
                                y
                            } else {
                                y + 1
                            };
                            assert(after[x] == before[p] && after[y] == before[q]);
                        }
                    }
                    assert forall|n: Seq<char>| has_entry(after, n) == (has_entry(before, n) && n != k@) by {
                        if has_entry(after, n) {
                            let x = entry_at(after, n);
                            assert(after[x].0@ == n);
                            let p = if x < i {
                                x
                            } else {
                                x + 1
                            };
                            assert(before[p].0@ == n);
                            if n == k@ {
                                assert(before[i as int].0@ == before[p].0@);
                            }
                        }
                        if has_entry(before, n) && n != k@ {
                            let p = entry_at(before, n);
                            assert(before[p].0@ == n);
                            if p < i {
                                assert(after[p].0@ == n);
                            } else {
                                assert(after[p - 1].0@ == n);
                            }
                        }
                    }
                    assert forall|n: Seq<char>| has_entry(after, n) implies as_map(after)[n] == as_map(before)[n] by {
                        let x = entry_at(after, n);
                        assert(after[x].0@ == n);
                        let p = if x < i {
                            x
                        } else {
                            x + 1
                        };
                        assert(before[p] == after[x]);
                        lemma_at(before, p);
                        lemma_at(after, x);
                    }
                    assert(self@ =~= as_map(before).remove(k@));
                }
                Some(v)
            },
            None => {
                assert(self@ =~= as_map(before).remove(k@));
                None
            },
        }
    }

    /// Set the value of a name.
    pub fn set(&mut self, k: String, v: V)
        requires
            old(self).valid(),
        ensures
            final(self).valid(),
            final(self)@ == old(self)@.insert(k@, v),
    {
        self.remove(k.as_str());
        let ghost before = self.entries@;
        let ghost name = k@;
        assert(!as_map(before).contains_key(name));
        assert(!has_entry(before, name));
        self.entries.push((k, v));
        let ghost after = self.entries@;
        proof {
            assert(after[before.len() as int] == (k, v));
            assert(apart(after)) by {
                assert forall|x: int, y: int|
                    #![trigger after[x], after[y]]
                    0 <= x < after.len() && 0 <= y < after.len() && after[x].0@ == after[y].0@ implies x == y by {
                    if x < before.len() {
                        assert(before[x] == after[x]);
                    }
                    if y < before.len() {
                        assert(before[y] == after[y]);
                    }
                }
            }
            assert forall|n: Seq<char>| has_entry(after, n) == (has_entry(before, n) || n == name) by {
                if has_entry(before, n) {
                    let p = entry_at(before, n);
                    assert(after[p].0@ == n);
                }
                if has_entry(after, n) && n != name {
                    let x = entry_at(after, n);
                    assert(before[x].0@ == n);
                }
            }
            assert forall|n: Seq<char>| has_entry(after, n) implies as_map(after)[n] == as_map(before).insert(name, v)[n] by {
                let x = entry_at(after, n);
                assert(after[x].0@ == n);
                lemma_at(after, x);
                if n != name {
                    assert(before[x] == after[x]);
                    lemma_at(before, x);
                } else {
                    lemma_at(after, before.len() as int);
                }
            }
            assert(self@ =~= as_map(before).insert(name, v));
            assert(old(self)@.remove(name).insert(name, v) =~= old(self)@.insert(name, v));
        }
    }
}

proof fn lemma_size<V>(entries: Seq<(String, V)>)
    requires
        apart(entries),
    ensures
        as_map(entries).dom().finite(),
        as_map(entries).len() == entries.len(),
    decreases entries.len(),
{
    if entries.len() == 0 {
        assert(as_map(entries).dom() =~= Set::<Seq<char>>::empty());
    } else {
        let rest = entries.drop_last();
        let k = entries.last().0@;
        assert(apart(rest)) by {
            assert forall|x: int, y: int|
                #![trigger rest[x], rest[y]]
                0 <= x < rest.len() && 0 <= y < rest.len() && rest[x].0@ == rest[y].0@ implies x == y by {
                assert(entries[x] == rest[x] && entries[y] == rest[y]);
            }
        }
        lemma_size(rest);
        assert(!has_entry(rest, k)) by {
            if has_entry(rest, k) {
                let x = entry_at(rest, k);
                assert(rest[x].0@ == k);
                assert(entries[x].0@ == entries[entries.len() - 1].0@);
            }
        }
        assert forall|n: Seq<char>| has_entry(entries, n) == (has_entry(rest, n) || n == k) by {
            if has_entry(rest, n) {
                let p = entry_at(rest, n);
                assert(rest[p].0@ == n);
                assert(entries[p].0@ == n);
            }
            if n == k {
                assert(entries[entries.len() - 1].0@ == n);
            }
            if has_entry(entries, n) && n != k {
                let x = entry_at(entries, n);
                assert(entries[x].0@ == n);
                assert(rest[x].0@ == n);
            }
        }
        assert(as_map(entries).dom() =~= as_map(rest).dom().insert(k));
    }
}

} // verus!
