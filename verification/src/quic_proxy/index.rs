//! An index from keys to the flows that own them.

use crate::net::SocketAddr;
use vstd::prelude::*;

verus! {

/// A key that can be compared by what it views as.
pub trait SameKey: View + Sized {
    /// Whether two keys are the same.
    fn same_key(&self, other: &Self) -> (r: bool)
        ensures
            r == (self@ == other@),
    ;
}

impl SameKey for SocketAddr {
    fn same_key(&self, other: &Self) -> (r: bool) {
        *self == *other
    }
}

impl SameKey for Vec<u8> {
    fn same_key(&self, other: &Self) -> (r: bool) {
        crate::octets::same(self.as_slice(), other.as_slice())
    }
}

/// Whether `id` is the one flow that owns `key`.
pub open spec fn is_sole<A>(rel: Set<(A, u64)>, key: A, id: u64) -> bool {
    &&& rel.contains((key, id))
    &&& forall|x: u64| #[trigger] rel.contains((key, x)) ==> x == id
}

/// The one flow that owns `key`, if there is exactly one.
pub open spec fn sole_owner<A>(rel: Set<(A, u64)>, key: A) -> Option<u64> {
    if exists|id: u64| is_sole(rel, key, id) {
        Some(choose|id: u64| is_sole(rel, key, id))
    } else {
        None
    }
}

/// Whether any flow owns `key`.
pub open spec fn owned<A>(rel: Set<(A, u64)>, key: A) -> bool {
    exists|id: u64| #[trigger] rel.contains((key, id))
}

/// The keys that some flow owns.
pub open spec fn owned_keys<A>(rel: Set<(A, u64)>) -> Set<A> {
    Set::new(|key: A| owned(rel, key))
}

/// Which flows own which keys. A key without an owner is not kept.
#[derive(Debug)]
pub struct OwnerIndex<K> {
    rows: Vec<(K, Vec<u64>)>,
}

impl<K: SameKey> View for OwnerIndex<K> {
    type V = Set<(K::V, u64)>;

    closed spec fn view(&self) -> Set<(K::V, u64)> {
        Set::new(|p: (K::V, u64)| exists|i: int| 0 <= i < self.rows@.len() && self.row_has(i, p.0, p.1))
    }
}

impl<K: SameKey> OwnerIndex<K> {
    spec fn row_has(&self, i: int, key: K::V, id: u64) -> bool {
        self.rows@[i].0@ == key && self.rows@[i].1@.contains(id)
    }

    /// Every key has one row, and every row names at least one flow, once.
    pub closed spec fn valid(&self) -> bool {
        &&& forall|i: int, j: int|
            #![trigger self.rows@[i], self.rows@[j]]
            0 <= i < j < self.rows@.len() ==> self.rows@[i].0@ != self.rows@[j].0@
        &&& forall|i: int|
            #![trigger self.rows@[i]]
            0 <= i < self.rows@.len() ==> self.rows@[i].1@.len() > 0 && self.rows@[i].1@.no_duplicates()
    }

    proof fn lemma_row(&self, i: int)
        requires
            self.valid(),
            0 <= i < self.rows@.len(),
        ensures
            forall|id: u64|
                self@.contains((self.rows@[i].0@, id)) <==> #[trigger] self.rows@[i].1@.contains(id),
            owned(self@, self.rows@[i].0@),
    {
        let key = self.rows@[i].0@;
        assert forall|id: u64| self@.contains((key, id)) <==> #[trigger] self.rows@[i].1@.contains(id) by {
            if self.rows@[i].1@.contains(id) {
                let p = (key, id);
                assert(0 <= i < self.rows@.len() && self.row_has(i, p.0, p.1));
                assert(self@.contains(p));
            }
            if self@.contains((key, id)) {
                let j = choose|j: int| 0 <= j < self.rows@.len() && self.row_has(j, key, id);
                assert(0 <= j < self.rows@.len() && self.row_has(j, key, id));
                if j < i {
                    assert(self.rows@[j].0@ != self.rows@[i].0@);
                } else if i < j {
                    assert(self.rows@[i].0@ != self.rows@[j].0@);
                }
                assert(j == i);
            }
        }
        assert(self.rows@[i].1@.contains(self.rows@[i].1@[0]));
        assert(self@.contains((key, self.rows@[i].1@[0])));
    }

    proof fn lemma_no_row(&self, key: K::V)
        requires
            forall|i: int| 0 <= i < self.rows@.len() ==> #[trigger] self.rows@[i].0@ != key,
        ensures
            forall|id: u64| !#[trigger] self@.contains((key, id)),
            !owned(self@, key),
    {
    }

    /// How many keys are kept.
    pub closed spec fn kept(&self) -> nat {
        self.rows@.len()
    }

    /// No key is kept without an owner.
    pub proof fn lemma_kept(&self)
        requires
            self.valid(),
        ensures
            self.kept() == owned_keys(self@).len(),
    {
        self.lemma_key_count();
    }

    /// The number of rows is the number of owned keys.
    proof fn lemma_key_count(&self)
        requires
            self.valid(),
        ensures
            owned_keys(self@).finite(),
            owned_keys(self@).len() == self.rows@.len(),
    {
        let keys = Seq::new(self.rows@.len(), |i: int| self.rows@[i].0@);
        assert(keys.no_duplicates());
        keys.unique_seq_to_set();
        assert(keys.to_set() =~= owned_keys(self@)) by {
            assert forall|k: K::V| keys.to_set().contains(k) <==> #[trigger] owned_keys(self@).contains(k) by {
                if keys.to_set().contains(k) {
                    let i = choose|i: int| 0 <= i < keys.len() && keys[i] == k;
                    self.lemma_row(i);
                }
                if owned_keys(self@).contains(k) {
                    let id = choose|id: u64| #[trigger] self@.contains((k, id));
                    let i = choose|i: int| 0 <= i < self.rows@.len() && self.row_has(i, k, id);
                    assert(keys[i] == k);
                }
            }
        }
    }

    /// An index without keys.
    pub fn new() -> (r: Self)
        ensures
            r.valid(),
            r@ == Set::<(K::V, u64)>::empty(),
    {
        let r = OwnerIndex { rows: Vec::new() };
        assert(r@ =~= Set::<(K::V, u64)>::empty());
        r
    }

    fn find(&self, key: &K) -> (r: Option<usize>)
        ensures
            match r {
                Some(i) => i < self.rows@.len() && self.rows@[i as int].0@ == key@,
                None => forall|i: int| 0 <= i < self.rows@.len() ==> #[trigger] self.rows@[i].0@ != key@,
            },
    {
        let mut i: usize = 0;
        while i < self.rows.len()
            invariant
                i <= self.rows@.len(),
                forall|k: int| 0 <= k < i ==> #[trigger] self.rows@[k].0@ != key@,
            decreases self.rows@.len() - i,
        {
            if self.rows[i].0.same_key(key) {
                return Some(i);
            }
            i = i + 1;
        }
        None
    }

    /// The one flow that owns `key`, if there is exactly one.
    pub fn sole(&self, key: &K) -> (r: Option<u64>)
        requires
            self.valid(),
        ensures
            r == sole_owner(self@, key@),
    {
        match self.find(key) {
            Some(i) => {
                proof {
                    self.lemma_row(i as int);
                }
                let ghost ids = self.rows@[i as int].1@;
                if self.rows[i].1.len() == 1 {
                    let id = self.rows[i].1[0];
                    proof {
                        assert(ids.contains(ids[0]));
                        assert forall|x: u64| #[trigger] self@.contains((key@, x)) implies x == id by {
                            assert(ids.contains(x));
                        }
                        assert(is_sole(self@, key@, id));
                    }
                    Some(id)
                } else {
                    proof {
                        assert(ids.contains(ids[0]) && ids.contains(ids[1]));
                        assert(ids[0] != ids[1]);
                        assert(self@.contains((key@, ids[0])) && self@.contains((key@, ids[1])));
                    }
                    None
                }
            },
            None => {
                proof {
                    self.lemma_no_row(key@);
                }
                None
            },
        }
    }

    /// Whether any flow owns `key`, and which one if it is alone.
    pub fn lookup(&self, key: &K) -> (r: Option<Option<u64>>)
        requires
            self.valid(),
        ensures
            r is Some == owned(self@, key@),
            r is Some ==> r->0 == sole_owner(self@, key@),
    {
        match self.find(key) {
            Some(i) => {
                proof {
                    self.lemma_row(i as int);
                }
                Some(self.sole(key))
            },
            None => {
                proof {
                    self.lemma_no_row(key@);
                }
                None
            },
        }
    }

    /// How many keys have an owner.
    pub fn len(&self) -> (r: usize)
        requires
            self.valid(),
        ensures
            owned_keys(self@).finite(),
            r == owned_keys(self@).len(),
    {
        proof {
            self.lemma_key_count();
        }
        self.rows.len()
    }

    /// Let `id` own `key`. Says whether the key had no owner before.
    pub fn insert(&mut self, key: K, id: u64) -> (r: bool)
        requires
            old(self).valid(),
        ensures
            final(self).valid(),
            final(self)@ == old(self)@.insert((key@, id)),
            r == !owned(old(self)@, key@),
    {
        let ghost before = *self;
        match self.find(&key) {
            Some(i) => {
                proof {
                    before.lemma_row(i as int);
                }
                let ghost ids = self.rows@[i as int].1@;
                let mut j: usize = 0;
                while j < self.rows[i].1.len()
                    invariant
                        before == *self,
                        before == *old(self),
                        before.valid(),
                        i < self.rows@.len(),
                        self.rows@[i as int].0@ == key@,
                        ids == self.rows@[i as int].1@,
                        j <= ids.len(),
                        forall|k: int| 0 <= k < j ==> ids[k] != id,
                        owned(before@, key@),
                        forall|x: u64| before@.contains((key@, x)) <==> #[trigger] ids.contains(x),
                    decreases ids.len() - j,
                {
                    if self.rows[i].1[j] == id {
                        proof {
                            assert(ids.contains(id));
                            assert(before@.insert((key@, id)) =~= before@);
                        }
                        return false;
                    }
                    j = j + 1;
                }
                self.rows[i].1.push(id);
                proof {
                    let after = *self;
                    assert(after.rows@[i as int].1@ == ids.push(id));
                    assert(after.rows@ =~= before.rows@.update(i as int, after.rows@[i as int]));
                    assert(after.valid()) by {
                        assert(ids.push(id).no_duplicates());
                        assert forall|a: int, b: int| 0 <= a < b < after.rows@.len() implies
                            (#[trigger] after.rows@[a]).0@ != (#[trigger] after.rows@[b]).0@ by {
                            assert(before.rows@[a].0@ != before.rows@[b].0@);
                        }
                    }
                    assert forall|p: (K::V, u64)| after@.contains(p) <==> #[trigger] before@.insert(
                        (key@, id),
                    ).contains(p) by {
                        after.lemma_row(i as int);
                        if after@.contains(p) {
                            let k = choose|k: int| 0 <= k < after.rows@.len() && after.row_has(k, p.0, p.1);
                            if k != i {
                                assert(before.row_has(k, p.0, p.1));
                            } else {
                                assert(ids.push(id).contains(p.1));
                                if p.1 != id {
                                    let m = choose|m: int| 0 <= m < ids.push(id).len() && ids.push(id)[m] == p.1;
                                    assert(ids[m] == p.1);
                                    assert(ids.contains(p.1));
                                }
                            }
                        }
                        if before@.insert((key@, id)).contains(p) {
                            if p == (key@, id) {
                                assert(ids.push(id)[ids.len() as int] == id);
                                assert(after.row_has(i as int, p.0, p.1));
                            } else {
                                let k = choose|k: int| 0 <= k < before.rows@.len() && before.row_has(k, p.0, p.1);
                                if k == i {
                                    let m = choose|m: int| 0 <= m < ids.len() && ids[m] == p.1;
                                    assert(ids.push(id)[m] == p.1);
                                }
                                assert(after.row_has(k, p.0, p.1));
                            }
                        }
                    }
                    assert(after@ =~= before@.insert((key@, id)));
                }
                false
            },
            None => {
                proof {
                    before.lemma_no_row(key@);
                }
                let ghost kv = key@;
                let ids: Vec<u64> = vec![id];
                self.rows.push((key, ids));
                proof {
                    let after = *self;
                    let n = before.rows@.len() as int;
                    assert(after.rows@[n].1@ =~= seq![id]);
                    assert(after.rows@[n].1@.contains(id)) by {
                        assert(after.rows@[n].1@[0] == id);
                    }
                    assert forall|p: (K::V, u64)| after@.contains(p) <==> #[trigger] before@.insert(
                        (kv, id),
                    ).contains(p) by {
                        if after@.contains(p) {
                            let k = choose|k: int| 0 <= k < after.rows@.len() && after.row_has(k, p.0, p.1);
                            if k < n {
                                assert(before.row_has(k, p.0, p.1));
                            }
                        }
                        if before@.insert((kv, id)).contains(p) {
                            if p == (kv, id) {
                                assert(after.row_has(n, p.0, p.1));
                            } else {
                                let k = choose|k: int| 0 <= k < before.rows@.len() && before.row_has(k, p.0, p.1);
                                assert(after.row_has(k, p.0, p.1));
                            }
                        }
                    }
                    assert(after@ =~= before@.insert((kv, id)));
                }
                true
            },
        }
    }

    /// Let `id` own `key` no longer. Says whether the key lost its last owner.
    pub fn remove(&mut self, key: &K, id: u64) -> (r: bool)
        requires
            old(self).valid(),
        ensures
            final(self).valid(),
            final(self)@ == old(self)@.remove((key@, id)),
            r == (owned(old(self)@, key@) && !owned(final(self)@, key@)),
    {
        let ghost before = *self;
        match self.find(key) {
            Some(i) => {
                proof {
                    before.lemma_row(i as int);
                }
                let ghost ids = self.rows@[i as int].1@;
                let mut j: usize = 0;
                while j < self.rows[i].1.len()
                    invariant_except_break
                        forall|k: int| 0 <= k < j ==> ids[k] != id,
                    invariant
                        before == *self,
                        i < self.rows@.len(),
                        ids == self.rows@[i as int].1@,
                        j <= ids.len(),
                    ensures
                        j < ids.len() ==> ids[j as int] == id,
                        j == ids.len() ==> !ids.contains(id),
                    decreases ids.len() - j,
                {
                    if self.rows[i].1[j] == id {
                        break;
                    }
                    j = j + 1;
                }
                if j == self.rows[i].1.len() {
                    proof {
                        assert(before@.remove((key@, id)) =~= before@);
                    }
                    return false;
                }
                if self.rows[i].1.len() == 1 {
                    self.rows.remove(i);
                    proof {
                        let after = *self;
                        let gone = i as int;
                        assert(after.rows@ =~= before.rows@.remove(gone));
                        assert(after.valid()) by {
                            assert forall|a: int, b: int| 0 <= a < b < after.rows@.len() implies
                                (#[trigger] after.rows@[a]).0@ != (#[trigger] after.rows@[b]).0@ by {
                                let a0 = if a < gone { a } else { a + 1 };
                                let b0 = if b < gone { b } else { b + 1 };
                                assert(before.rows@[a0].0@ != before.rows@[b0].0@);
                            }
                            assert forall|a: int| 0 <= a < after.rows@.len() implies (#[trigger] after.rows@[a]).1@.len()
                                > 0 && after.rows@[a].1@.no_duplicates() by {
                                let a0 = if a < gone { a } else { a + 1 };
                                assert(before.rows@[a0].1@.len() > 0);
                            }
                        }
                        assert forall|a: int| 0 <= a < after.rows@.len() implies #[trigger] after.rows@[a].0@
                            != key@ by {
                            let a0 = if a < gone { a } else { a + 1 };
                            if a0 < gone {
                                assert(before.rows@[a0].0@ != before.rows@[gone].0@);
                            } else {
                                assert(before.rows@[gone].0@ != before.rows@[a0].0@);
                            }
                        }
                        after.lemma_no_row(key@);
                        assert(ids =~= seq![id]);
                        assert forall|p: (K::V, u64)| after@.contains(p) <==> #[trigger] before@.remove(
                            (key@, id),
                        ).contains(p) by {
                            if after@.contains(p) {
                                let k = choose|k: int| 0 <= k < after.rows@.len() && after.row_has(k, p.0, p.1);
                                let k0 = if k < gone { k } else { k + 1 };
                                assert(before.row_has(k0, p.0, p.1));
                            }
                            if before@.remove((key@, id)).contains(p) {
                                let k0 = choose|k: int| 0 <= k < before.rows@.len() && before.row_has(k, p.0, p.1);
                                if k0 == gone {
                                    assert(ids.contains(p.1));
                                    assert(false);
                                }
                                let k = if k0 < gone { k0 } else { k0 - 1 };
                                assert(after.rows@[k] == before.rows@[k0]);
                                assert(after.row_has(k, p.0, p.1));
                            }
                        }
                        assert(after@ =~= before@.remove((key@, id)));
                    }
                    true
                } else {
                    self.rows[i].1.remove(j);
                    proof {
                        let after = *self;
                        let rest = ids.remove(j as int);
                        assert(after.rows@[i as int].1@ == rest);
                        assert(after.rows@ =~= before.rows@.update(i as int, after.rows@[i as int]));
                        assert(rest.no_duplicates());
                        assert(!rest.contains(id)) by {
                            if rest.contains(id) {
                                let m = choose|m: int| 0 <= m < rest.len() && rest[m] == id;
                                let m0 = if m < j { m } else { m + 1 };
                                assert(ids[m0] == id && m0 != j);
                            }
                        }
                        assert(after.valid()) by {
                            assert forall|a: int, b: int| 0 <= a < b < after.rows@.len() implies
                                (#[trigger] after.rows@[a]).0@ != (#[trigger] after.rows@[b]).0@ by {
                                assert(before.rows@[a].0@ != before.rows@[b].0@);
                            }
                        }
                        after.lemma_row(i as int);
                        assert forall|p: (K::V, u64)| after@.contains(p) <==> #[trigger] before@.remove(
                            (key@, id),
                        ).contains(p) by {
                            if after@.contains(p) {
                                let k = choose|k: int| 0 <= k < after.rows@.len() && after.row_has(k, p.0, p.1);
                                if k == i {
                                    let m = choose|m: int| 0 <= m < rest.len() && rest[m] == p.1;
                                    let m0 = if m < j { m } else { m + 1 };
                                    assert(ids[m0] == p.1);
                                    assert(ids.contains(p.1));
                                }
                                assert(before.row_has(k, p.0, p.1));
                            }
                            if before@.remove((key@, id)).contains(p) {
                                let k = choose|k: int| 0 <= k < before.rows@.len() && before.row_has(k, p.0, p.1);
                                if k == i {
                                    let m0 = choose|m: int| 0 <= m < ids.len() && ids[m] == p.1;
                                    let m = if m0 < j { m0 } else { m0 - 1 };
                                    assert(rest[m] == p.1);
                                    assert(rest.contains(p.1));
                                }
                                assert(after.row_has(k, p.0, p.1));
                            }
                        }
                        assert(after@ =~= before@.remove((key@, id)));
                    }
                    false
                }
            },
            None => {
                proof {
                    before.lemma_no_row(key@);
                    assert(before@.remove((key@, id)) =~= before@);
                }
                false
            },
        }
    }
}

} // verus!
