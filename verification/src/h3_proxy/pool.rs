//! Upstream HTTP/3 connections that are kept for reuse.

use crate::net::SocketAddr;
use crate::text;
use crate::time::{Duration, Instant};
use vstd::prelude::*;

verus! {

/// What makes two upstream connections interchangeable.
#[derive(Debug, Clone, PartialEq, Eq)]
pub struct UpstreamPoolKey {
    pub listener: SocketAddr,
    pub route_id: usize,
    pub host: String,
    pub port: u16,
    pub server_name: String,
    pub ech: bool,
}

/// What an [`UpstreamPoolKey`] says.
pub struct KeyView {
    pub listener: SocketAddr,
    pub route_id: usize,
    pub host: Seq<char>,
    pub port: u16,
    pub server_name: Seq<char>,
    pub ech: bool,
}

impl View for UpstreamPoolKey {
    type V = KeyView;

    open spec fn view(&self) -> KeyView {
        KeyView {
            listener: self.listener,
            route_id: self.route_id,
            host: self.host@,
            port: self.port,
            server_name: self.server_name@,
            ech: self.ech,
        }
    }
}

impl UpstreamPoolKey {
    /// Whether two keys are equal.
    pub fn same(&self, other: &Self) -> (r: bool)
        ensures
            r == (self@ == other@),
    {
        self.listener == other.listener && self.route_id == other.route_id && text::same_text(
            self.host.as_str(),
            other.host.as_str(),
        ) && self.port == other.port && text::same_text(self.server_name.as_str(), other.server_name.as_str())
            && self.ech == other.ech
    }
}

/// A connection that is kept.
#[derive(Debug)]
pub struct UpstreamPoolEntry<U> {
    pub key: UpstreamPoolKey,
    pub upstream: U,
    pub upstream_addr: SocketAddr,
    /// Whether it has been closed.
    pub closed: bool,
    pub last_used: Instant,
}

impl<U> UpstreamPoolEntry<U> {
    /// Whether the connection can still be used: open, and used not too long ago.
    pub open spec fn usable(self, idle: Duration, now: Instant) -> bool {
        !self.closed && now.nanos < self.last_used.nanos + idle.nanos
    }

    /// The same connection, used at another time.
    pub open spec fn used_at(self, now: Instant) -> Self {
        UpstreamPoolEntry { last_used: now, ..self }
    }
}

/// The first connection for a key, or the length.
pub open spec fn find_from<U>(entries: Seq<UpstreamPoolEntry<U>>, key: KeyView, from: int) -> int
    decreases entries.len() - from,
{
    if from < 0 || from >= entries.len() {
        entries.len() as int
    } else if entries[from].key@ == key {
        from
    } else {
        find_from(entries, key, from + 1)
    }
}

/// The first `n` connections without those that can no longer be used.
pub open spec fn pruned<U>(entries: Seq<UpstreamPoolEntry<U>>, n: int, idle: Duration, now: Instant) -> Seq<
    UpstreamPoolEntry<U>,
>
    decreases n,
{
    if n <= 0 {
        Seq::empty()
    } else if entries[n - 1].usable(idle, now) {
        pruned(entries, n - 1, idle, now).push(entries[n - 1])
    } else {
        pruned(entries, n - 1, idle, now)
    }
}

/// Whether no two connections have the same key.
pub open spec fn apart<U>(entries: Seq<UpstreamPoolEntry<U>>) -> bool {
    forall|i: int, j: int|
        #![trigger entries[i], entries[j]]
        0 <= i < j < entries.len() ==> entries[i].key@ != entries[j].key@
}

/// Whether no connection was used longer ago.
pub open spec fn is_oldest<U>(entries: Seq<UpstreamPoolEntry<U>>, at: int) -> bool {
    &&& 0 <= at < entries.len()
    &&& forall|j: int| 0 <= j < entries.len() ==> entries[at].last_used.nanos <= (#[trigger] entries[j]).last_used.nanos
}

/// The connections that are kept.
#[derive(Debug)]
pub struct UpstreamPool<U> {
    pub entries: Vec<UpstreamPoolEntry<U>>,
    /// The most that are kept.
    pub limit: usize,
    /// How long an unused one is kept.
    pub idle: Duration,
}

proof fn lemma_find<U>(entries: Seq<UpstreamPoolEntry<U>>, key: KeyView, from: int)
    requires
        0 <= from <= entries.len(),
    ensures
        from <= find_from(entries, key, from) <= entries.len(),
        find_from(entries, key, from) < entries.len() ==> entries[find_from(entries, key, from)].key@ == key,
        forall|k: int| from <= k < find_from(entries, key, from) ==> (#[trigger] entries[k]).key@ != key,
    decreases entries.len() - from,
{
    if from < entries.len() && entries[from].key@ != key {
        lemma_find(entries, key, from + 1);
    }
}

proof fn lemma_pruned<U>(entries: Seq<UpstreamPoolEntry<U>>, n: int, idle: Duration, now: Instant)
    requires
        0 <= n <= entries.len(),
        apart(entries),
    ensures
        apart(pruned(entries, n, idle, now)),
        pruned(entries, n, idle, now).len() <= n,
        forall|i: int|
            0 <= i < pruned(entries, n, idle, now).len() ==> exists|s: int|
                0 <= s < n && #[trigger] entries[s] == (#[trigger] pruned(entries, n, idle, now)[i]),
        forall|i: int|
            0 <= i < pruned(entries, n, idle, now).len() ==> (#[trigger] pruned(entries, n, idle, now)[i]).usable(
                idle,
                now,
            ),
    decreases n,
{
    if n > 0 {
        lemma_pruned(entries, n - 1, idle, now);
        let front = pruned(entries, n - 1, idle, now);
        let all = pruned(entries, n, idle, now);
        if entries[n - 1].usable(idle, now) {
            assert forall|i: int| 0 <= i < all.len() implies exists|s: int|
                0 <= s < n && #[trigger] entries[s] == (#[trigger] all[i]) by {
                if i < front.len() {
                    assert(all[i] == front[i]);
                } else {
                    assert(entries[n - 1] == all[i]);
                }
            }
            assert forall|i: int, j: int|
                #![trigger all[i], all[j]]
                0 <= i < j < all.len() implies all[i].key@ != all[j].key@ by {
                assert(all[i] == front[i]);
                let s = choose|s: int| 0 <= s < n - 1 && entries[s] == front[i];
                if j < front.len() {
                    assert(all[j] == front[j]);
                } else {
                    assert(entries[s].key@ != entries[n - 1].key@);
                }
            }
            assert forall|i: int| 0 <= i < all.len() implies (#[trigger] all[i]).usable(idle, now) by {
                if i < front.len() {
                    assert(all[i] == front[i]);
                }
            }
        }
    }
}

impl<U> UpstreamPool<U> {
    /// One connection for a key, and no more than the limit, which leaves room for
    /// one at least.
    pub open spec fn valid(&self) -> bool {
        &&& apart(self.entries@)
        &&& self.entries@.len() <= self.limit || self.entries@.len() <= 1
        &&& self.idle.valid()
        &&& forall|i: int| 0 <= i < self.entries@.len() ==> (#[trigger] self.entries@[i]).last_used.valid()
    }

    /// An empty pool.
    pub fn new(limit: usize, idle: Duration) -> (r: Self)
        requires
            idle.valid(),
        ensures
            r.valid(),
            r.entries@.len() == 0,
            r.limit == limit,
            r.idle == idle,
    {
        UpstreamPool { entries: Vec::new(), limit, idle }
    }

    /// How many connections are kept.
    pub fn len(&self) -> (r: usize)
        ensures
            r == self.entries@.len(),
    {
        self.entries.len()
    }

    /// A connection.
    pub fn upstream(&self, i: usize) -> (r: &U)
        requires
            i < self.entries@.len(),
        ensures
            *r == self.entries@[i as int].upstream,
    {
        &self.entries[i].upstream
    }

    /// Note that a connection has been closed.
    pub fn mark_closed(&mut self, i: usize)
        requires
            old(self).valid(),
            i < old(self).entries@.len(),
        ensures
            final(self).valid(),
            final(self).limit == old(self).limit,
            final(self).idle == old(self).idle,
            final(self).entries@ == old(self).entries@.update(
                i as int,
                (UpstreamPoolEntry { closed: true, ..old(self).entries@[i as int] }),
            ),
    {
        let ghost before = self.entries@;
        let mut entry = self.entries.remove(i);
        entry.closed = true;
        self.entries.insert(i, entry);
        let ghost after = self.entries@;
        assert(after =~= before.update(i as int, UpstreamPoolEntry { closed: true, ..before[i as int] }));
        assert(apart(after)) by {
            assert forall|x: int, y: int|
                #![trigger after[x], after[y]]
                0 <= x < y < after.len() implies after[x].key@ != after[y].key@ by {
                assert(before[x].key@ != before[y].key@);
            }
        }
        assert forall|x: int| 0 <= x < after.len() implies (#[trigger] after[x]).last_used.valid() by {
            assert(before[x].last_used.valid());
        }
    }

    fn find(&self, key: &UpstreamPoolKey) -> (r: usize)
        ensures
            r == find_from(self.entries@, key@, 0),
    {
        let mut i: usize = 0;
        while i < self.entries.len()
            invariant
                i <= self.entries@.len(),
                find_from(self.entries@, key@, 0) == find_from(self.entries@, key@, i as int),
            decreases self.entries@.len() - i,
        {
            if self.entries[i].key.same(key) {
                return i;
            }
            i = i + 1;
        }
        i
    }

    /// Drop the connections that can no longer be used.
    fn prune(&mut self, now: Instant)
        requires
            old(self).valid(),
            now.valid(),
        ensures
            final(self).valid(),
            final(self).limit == old(self).limit,
            final(self).idle == old(self).idle,
            final(self).entries@ == pruned(old(self).entries@, old(self).entries@.len() as int, old(self).idle, now),
    {
        let ghost all = self.entries@;
        let ghost mut seen: int = 0;
        let mut i: usize = 0;
        while i < self.entries.len()
            invariant
                i <= self.entries@.len(),
                0 <= seen <= all.len(),
                self.entries@.take(i as int) == pruned(all, seen, self.idle, now),
                self.entries@.skip(i as int) == all.skip(seen),
                self.limit == old(self).limit,
                self.idle == old(self).idle,
                self.idle.valid(),
                forall|k: int| 0 <= k < all.len() ==> (#[trigger] all[k]).last_used.valid(),
            decreases self.entries@.len() - i,
        {
            let ghost before = self.entries@;
            assert(before.skip(i as int)[0] == before[i as int]);
            assert(all.skip(seen).len() > 0);
            assert(all.skip(seen)[0] == all[seen]);
            let deadline = self.entries[i].last_used.nanos + self.idle.nanos;
            if !self.entries[i].closed && now.nanos < deadline {
                assert(before.take(i + 1) =~= before.take(i as int).push(before[i as int]));
                assert(before.skip(i + 1) =~= before.skip(i as int).skip(1));
                assert(all.skip(seen + 1) =~= all.skip(seen).skip(1));
                i = i + 1;
            } else {
                self.entries.remove(i);
                assert(self.entries@.take(i as int) =~= before.take(i as int));
                assert(self.entries@.skip(i as int) =~= before.skip(i as int).skip(1));
                assert(all.skip(seen + 1) =~= all.skip(seen).skip(1));
            }
            proof {
                seen = seen + 1;
            }
        }
        proof {
            assert(self.entries@.skip(i as int).len() == 0);
            assert(all.skip(seen).len() == 0);
            assert(self.entries@.take(i as int) =~= self.entries@);
            lemma_pruned(all, all.len() as int, self.idle, now);
            assert forall|k: int| 0 <= k < self.entries@.len() implies (#[trigger] self.entries@[k]).last_used.valid() by {
                let s = choose|s: int| 0 <= s < all.len() && all[s] == self.entries@[k];
                assert(all[s].last_used.valid());
            }
        }
    }

    fn touch(&mut self, i: usize, now: Instant)
        requires
            old(self).valid(),
            now.valid(),
            i < old(self).entries@.len(),
        ensures
            final(self).valid(),
            final(self).limit == old(self).limit,
            final(self).idle == old(self).idle,
            final(self).entries@ == old(self).entries@.update(i as int, old(self).entries@[i as int].used_at(now)),
    {
        let ghost before = self.entries@;
        let mut entry = self.entries.remove(i);
        entry.last_used = now;
        self.entries.insert(i, entry);
        let ghost after = self.entries@;
        assert(after =~= before.update(i as int, before[i as int].used_at(now)));
        assert(apart(after)) by {
            assert forall|x: int, y: int|
                #![trigger after[x], after[y]]
                0 <= x < y < after.len() implies after[x].key@ != after[y].key@ by {
                assert(before[x].key@ != before[y].key@);
            }
        }
        assert forall|x: int| 0 <= x < after.len() implies (#[trigger] after[x]).last_used.valid() by {
            assert(before[x].last_used.valid());
        }
    }

    /// Look for a connection to reuse, and note its use. What can no longer be used
    /// is dropped first.
    pub fn reuse(&mut self, key: &UpstreamPoolKey, now: Instant) -> (r: Option<usize>)
        requires
            old(self).valid(),
            now.valid(),
        ensures
            final(self).valid(),
            final(self).limit == old(self).limit,
            final(self).idle == old(self).idle,
            ({
                let kept = pruned(old(self).entries@, old(self).entries@.len() as int, old(self).idle, now);
                let at = find_from(kept, key@, 0);
                if at < kept.len() {
                    &&& r == Some(at as usize)
                    &&& final(self).entries@ == kept.update(at, kept[at].used_at(now))
                } else {
                    &&& r is None
                    &&& final(self).entries@ == kept
                }
            }),
    {
        self.prune(now);
        let at = self.find(key);
        proof {
            lemma_find(self.entries@, key@, 0);
        }
        if at < self.entries.len() {
            self.touch(at, now);
            Some(at)
        } else {
            None
        }
    }

    fn oldest(&self) -> (r: usize)
        requires
            self.entries@.len() > 0,
        ensures
            is_oldest(self.entries@, r as int),
    {
        let mut best: usize = 0;
        let mut i: usize = 1;
        while i < self.entries.len()
            invariant
                best < i <= self.entries@.len(),
                forall|j: int|
                    0 <= j < i ==> self.entries@[best as int].last_used.nanos <= (#[trigger] self.entries@[j]).last_used.nanos,
            decreases self.entries@.len() - i,
        {
            if self.entries[i].last_used.nanos < self.entries[best].last_used.nanos {
                best = i;
            }
            i = i + 1;
        }
        best
    }

    fn drop_at(&mut self, i: usize)
        requires
            old(self).valid(),
            i < old(self).entries@.len(),
        ensures
            final(self).valid(),
            final(self).limit == old(self).limit,
            final(self).idle == old(self).idle,
            final(self).entries@ == old(self).entries@.remove(i as int),
    {
        let ghost before = self.entries@;
        self.entries.remove(i);
        let ghost after = self.entries@;
        assert(apart(after)) by {
            assert forall|x: int, y: int|
                #![trigger after[x], after[y]]
                0 <= x < y < after.len() implies after[x].key@ != after[y].key@ by {
                let p = if x < i {
                    x
                } else {
                    x + 1
                };
                let q = if y < i {
                    y
                } else {
                    y + 1
                };
                assert(before[p].key@ != before[q].key@);
            }
        }
        assert forall|x: int| 0 <= x < after.len() implies (#[trigger] after[x]).last_used.valid() by {
            let p = if x < i {
                x
            } else {
                x + 1
            };
            assert(before[p].last_used.valid());
        }
    }

    /// Keep a new connection, and tell which one to use: another that was made for
    /// the same key meanwhile and is still open, else the new one. A full pool makes
    /// room by dropping the one that was used longest ago.
    pub fn adopt(&mut self, key: UpstreamPoolKey, upstream: U, upstream_addr: SocketAddr, now: Instant) -> (r: usize)
        requires
            old(self).valid(),
            now.valid(),
        ensures
            final(self).valid(),
            final(self).limit == old(self).limit,
            final(self).idle == old(self).idle,
            r < final(self).entries@.len(),
            final(self).entries@[r as int].key@ == key@,
            !final(self).entries@[r as int].closed,
            final(self).entries@[r as int].last_used == now,
            adopted(
                old(self).entries@,
                old(self).limit as int,
                final(self).entries@,
                r as int,
                UpstreamPoolEntry { key, upstream, upstream_addr, closed: false, last_used: now },
            ),
    {
        let ghost all = self.entries@;
        let ghost new = UpstreamPoolEntry { key, upstream, upstream_addr, closed: false, last_used: now };
        let at = self.find(&key);
        proof {
            lemma_find(self.entries@, key@, 0);
        }
        if at < self.entries.len() {
            if !self.entries[at].closed {
                self.touch(at, now);
                return at;
            }
            self.drop_at(at);
        }
        let ghost open = self.entries@;
        assert forall|k: int| 0 <= k < open.len() implies (#[trigger] open[k]).key@ != key@ by {
            if at < all.len() {
                let p = if k < at {
                    k
                } else {
                    k + 1
                };
                assert(open[k] == all[p]);
                if p > at {
                    assert(all[at as int].key@ != all[p].key@);
                }
            }
        }
        if self.entries.len() >= self.limit && self.entries.len() > 0 {
            let i = self.oldest();
            self.drop_at(i);
            assert(room_made(open, self.limit as int, self.entries@)) by {
                assert(is_oldest(open, i as int) && self.entries@ == open.remove(i as int));
            }
        }
        let ghost room = self.entries@;
        assert(room_made(open, self.limit as int, room));
        assert forall|k: int| 0 <= k < room.len() implies (#[trigger] room[k]).key@ != key@ by {
            if room.len() < open.len() {
                let i = choose|i: int| is_oldest(open, i) && room == open.remove(i);
                let p = if k < i {
                    k
                } else {
                    k + 1
                };
                assert(room[k] == open[p]);
            }
        }
        self.entries.push(UpstreamPoolEntry { key, upstream, upstream_addr, closed: false, last_used: now });
        let ghost after = self.entries@;
        assert(after =~= room.push(new));
        assert(after.drop_last() =~= room);
        assert(apart(after)) by {
            assert forall|x: int, y: int|
                #![trigger after[x], after[y]]
                0 <= x < y < after.len() implies after[x].key@ != after[y].key@ by {
                assert(after[x] == room[x]);
                if y < room.len() {
                    assert(after[y] == room[y]);
                }
            }
        }
        assert forall|x: int| 0 <= x < after.len() implies (#[trigger] after[x]).last_used.valid() by {
            if x < room.len() {
                assert(room[x].last_used.valid());
            }
        }
        self.entries.len() - 1
    }

    /// Forget the connection for a key, because a request could not be sent on it.
    pub fn evict(&mut self, key: &UpstreamPoolKey)
        requires
            old(self).valid(),
        ensures
            final(self).valid(),
            final(self).limit == old(self).limit,
            final(self).idle == old(self).idle,
            ({
                let at = find_from(old(self).entries@, key@, 0);
                final(self).entries@ == if at < old(self).entries@.len() {
                    old(self).entries@.remove(at)
                } else {
                    old(self).entries@
                }
            }),
            find_from(final(self).entries@, key@, 0) == final(self).entries@.len(),
    {
        let ghost all = self.entries@;
        let at = self.find(key);
        proof {
            lemma_find(self.entries@, key@, 0);
        }
        if at < self.entries.len() {
            self.drop_at(at);
        }
        proof {
            let left = self.entries@;
            lemma_find(left, key@, 0);
            let again = find_from(left, key@, 0);
            if again < left.len() && at < all.len() {
                let p = if again < at {
                    again
                } else {
                    again + 1
                };
                assert(left[again] == all[p]);
                if p > at {
                    assert(all[at as int].key@ != all[p].key@);
                }
            }
        }
    }
}

/// Whether room was made for one more: in a full pool the one that was used longest
/// ago has gone.
pub open spec fn room_made<U>(
    before: Seq<UpstreamPoolEntry<U>>,
    limit: int,
    after: Seq<UpstreamPoolEntry<U>>,
) -> bool {
    if before.len() >= limit && before.len() > 0 {
        exists|i: int| is_oldest(before, i) && after == #[trigger] before.remove(i)
    } else {
        after == before
    }
}

/// What keeping a new connection comes to. The connection in use is the one at `r`.
pub open spec fn adopted<U>(
    before: Seq<UpstreamPoolEntry<U>>,
    limit: int,
    after: Seq<UpstreamPoolEntry<U>>,
    r: int,
    new: UpstreamPoolEntry<U>,
) -> bool {
    let at = find_from(before, new.key@, 0);
    if at < before.len() && !before[at].closed {
        r == at && after == before.update(at, before[at].used_at(new.last_used))
    } else {
        let open = if at < before.len() {
            before.remove(at)
        } else {
            before
        };
        &&& after.len() > 0
        &&& r == after.len() - 1
        &&& after.last() == new
        &&& room_made(open, limit, after.drop_last())
    }
}

/// Only a connection that is open, and was used not too long ago, is ever reused;
/// and only for the key that it was made for.
pub proof fn law_only_live_connections_are_reused<U>(
    entries: Seq<UpstreamPoolEntry<U>>,
    idle: Duration,
    now: Instant,
    key: KeyView,
)
    requires
        apart(entries),
        find_from(pruned(entries, entries.len() as int, idle, now), key, 0) < pruned(
            entries,
            entries.len() as int,
            idle,
            now,
        ).len(),
    ensures
        ({
            let kept = pruned(entries, entries.len() as int, idle, now);
            let e = kept[find_from(kept, key, 0)];
            e.usable(idle, now) && e.key@ == key && entries.contains(e)
        }),
{
    let kept = pruned(entries, entries.len() as int, idle, now);
    lemma_pruned(entries, entries.len() as int, idle, now);
    lemma_find(kept, key, 0);
    let at = find_from(kept, key, 0);
    assert(kept[at].usable(idle, now));
    let s = choose|s: int| 0 <= s < entries.len() && entries[s] == kept[at];
    assert(entries[s] == kept[at]);
}

/// Connections are told apart by everything that their key has.
pub proof fn law_keys_are_told_apart(a: UpstreamPoolKey, b: UpstreamPoolKey)
    requires
        a@ == b@,
    ensures
        a.listener == b.listener,
        a.route_id == b.route_id,
        a.host@ == b.host@,
        a.port == b.port,
        a.server_name@ == b.server_name@,
        a.ech == b.ech,
{
}

/// A connection is kept exactly as long as it is open and was used within the idle time,
/// and those that are kept stay in their order.
pub proof fn law_live_connections_are_kept<U>(
    entries: Seq<UpstreamPoolEntry<U>>,
    n: int,
    idle: Duration,
    now: Instant,
    i: int,
)
    requires
        0 <= i < n <= entries.len(),
    ensures
        !entries[i].closed && now.nanos < entries[i].last_used.nanos + idle.nanos ==> pruned(
            entries,
            n,
            idle,
            now,
        ).contains(entries[i]),
        entries[i].closed ==> !entries[i].usable(idle, now),
        now.nanos >= entries[i].last_used.nanos + idle.nanos ==> !entries[i].usable(idle, now),
    decreases n,
{
    let front = pruned(entries, n - 1, idle, now);
    let all = pruned(entries, n, idle, now);
    if entries[i].usable(idle, now) {
        if i == n - 1 {
            assert(all[front.len() as int] == entries[i]);
        } else {
            law_live_connections_are_kept(entries, n - 1, idle, now, i);
            let k = choose|k: int| 0 <= k < front.len() && front[k] == entries[i];
            assert(all[k] == front[k]);
        }
    }
}

/// A new connection is kept unless there is an open one under its key, which is used in
/// its place; in a full pool the one that was used longest ago makes room.
pub proof fn law_new_connection_finds_room<U>(
    before: Seq<UpstreamPoolEntry<U>>,
    limit: int,
    after: Seq<UpstreamPoolEntry<U>>,
    r: int,
    new: UpstreamPoolEntry<U>,
    i: int,
)
    requires
        adopted(before, limit, after, r, new),
        apart(before),
    ensures
        0 <= r < after.len(),
        after[r].key@ == new.key@,
        0 <= i < before.len() && before[i].key@ == new.key@ && !before[i].closed ==> r == i && after.len()
            == before.len() && after[r].upstream == before[i].upstream && after[r].last_used == new.last_used,
        (forall|k: int| 0 <= k < before.len() ==> (#[trigger] before[k]).key@ != new.key@) ==> {
            &&& after[r] == new
            &&& before.len() < limit || before.len() == 0 ==> after == before.push(new)
            &&& before.len() >= limit && before.len() > 0 ==> after.len() == before.len() && exists|k: int|
                0 <= k < before.len() && after == (#[trigger] before.remove(k)).push(new) && (forall|j: int|
                    0 <= j < before.len() ==> before[k].last_used.nanos <= (#[trigger] before[j]).last_used.nanos)
        },
{
    let at = find_from(before, new.key@, 0);
    lemma_find(before, new.key@, 0);
    if 0 <= i < before.len() && before[i].key@ == new.key@ {
        if at < i {
            assert(before[at].key@ != before[i].key@);
        }
        if i < at {
            assert(before[i].key@ != new.key@);
        }
        assert(at == i);
    }
    if forall|k: int| 0 <= k < before.len() ==> (#[trigger] before[k]).key@ != new.key@ {
        if at < before.len() {
            assert(before[at].key@ != new.key@);
        }
        assert(after =~= after.drop_last().push(new));
    }
}

} // verus!
