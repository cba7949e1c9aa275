//! Idle connections, kept for reuse by the origin that they lead to.
//!
//! A connection is handed to one request at a time. Instants are given in
//! nanoseconds of one clock.

use crate::platform;
use std::time::Duration;
use vstd::prelude::*;

verus! {

/// What connections are kept by: a scheme (or what stands for one), a host in
/// lower case, and a port.
pub type PoolKey = (String, String, u16);

/// What a [`PoolKey`] stands for.
pub open spec fn key_view(key: PoolKey) -> (Seq<char>, Seq<char>, u16) {
    (key.0@, key.1@, key.2)
}

/// A connection that waits to be used again.
pub struct Idle<T> {
    pub stream: T,
    pub since: u128,
}

/// The idle connections of one origin.
pub struct Shelf<T> {
    pub key: PoolKey,
    pub idle: Vec<Idle<T>>,
}

/// Idle connections.
pub struct ConnectionPool<T> {
    pub shelves: Vec<Shelf<T>>,
    pub max_idle_per_origin: usize,
    pub idle_timeout: Duration,
}

/// The idle connections of an origin, the newest last.
pub open spec fn shelved<T>(shelves: Seq<Shelf<T>>, key: (Seq<char>, Seq<char>, u16)) -> Seq<
    Idle<T>,
>
    decreases shelves.len(),
{
    if shelves.len() == 0 {
        seq![]
    } else if key_view(shelves[0].key) == key {
        shelves[0].idle@
    } else {
        shelved(shelves.skip(1), key)
    }
}

/// How long a connection has been idle.
pub open spec fn age<T>(idle: Idle<T>, now: u128) -> int {
    if now >= idle.since {
        now - idle.since
    } else {
        0
    }
}

/// The newest connection that has not been idle too long, and what is left
/// once it and the newer ones are taken away.
pub open spec fn newest<T>(idle: Seq<Idle<T>>, now: u128, timeout: u128) -> (
    Option<T>,
    Seq<Idle<T>>,
)
    decreases idle.len(),
{
    if idle.len() == 0 {
        (None, idle)
    } else if age(idle.last(), now) < timeout {
        (Some(idle.last().stream), idle.drop_last())
    } else {
        newest(idle.drop_last(), now, timeout)
    }
}

/// The idle connections of an origin after one was put back, where it may have
/// `max` of them.
pub open spec fn kept<T>(idle: Seq<Idle<T>>, stream: T, now: u128, max: usize) -> Seq<Idle<T>> {
    if idle.len() < max {
        idle.push((Idle { stream, since: now }))
    } else {
        idle
    }
}

impl<T> ConnectionPool<T> {
    /// The idle connections of an origin, the newest last.
    pub open spec fn idle_for(self, key: (Seq<char>, Seq<char>, u16)) -> Seq<Idle<T>> {
        shelved(self.shelves@, key)
    }

    /// Whether no origin has more idle connections than it may.
    pub open spec fn within_capacity(self) -> bool {
        forall|key: (Seq<char>, Seq<char>, u16)|
            #![auto]
            self.idle_for(key).len() <= self.max_idle_per_origin
    }

    /// Whether no two shelves are for the same origin.
    pub open spec fn keys_distinct(self) -> bool {
        forall|i: int, j: int|
            0 <= i < j < self.shelves@.len() ==> key_view((#[trigger] self.shelves@[i]).key)
                != key_view((#[trigger] self.shelves@[j]).key)
    }

    pub fn new(max_idle_per_origin: usize, idle_timeout: Duration) -> (pool: Self)
        ensures
            pool.max_idle_per_origin == max_idle_per_origin,
            pool.idle_timeout == idle_timeout,
            forall|key: (Seq<char>, Seq<char>, u16)| #[trigger]
                pool.idle_for(key) == Seq::<Idle<T>>::empty(),
            pool.within_capacity(),
            pool.keys_distinct(),
    {
        ConnectionPool { shelves: Vec::new(), max_idle_per_origin, idle_timeout }
    }

    /// Where the origin's connections are; the number of shelves if it has
    /// none.
    fn shelf_position(&self, key: &PoolKey) -> (p: usize)
        ensures
            p <= self.shelves@.len(),
            forall|i: int| 0 <= i < p ==> key_view((#[trigger] self.shelves@[i]).key) != key_view(
                *key,
            ),
            p < self.shelves@.len() ==> key_view(self.shelves@[p as int].key) == key_view(*key),
    {
        let mut p: usize = 0;
        while p < self.shelves.len()
            invariant
                p <= self.shelves@.len(),
                forall|i: int|
                    0 <= i < p ==> key_view((#[trigger] self.shelves@[i]).key) != key_view(*key),
            decreases self.shelves@.len() - p,
        {
            let held = &self.shelves[p].key;
            if held.0 == key.0 && held.1 == key.1 && held.2 == key.2 {
                return p;
            }
            p = p + 1;
        }
        p
    }

    /// Takes the connection of this origin that was idle last, unless it has
    /// been idle for the timeout: then it is dropped, and the one before it
    /// is looked at.
    pub fn take(&mut self, key: &PoolKey, now: u128) -> (stream: Option<T>)
        ensures
            final(self).max_idle_per_origin == old(self).max_idle_per_origin,
            final(self).idle_timeout == old(self).idle_timeout,
            (stream, final(self).idle_for(key_view(*key))) == newest(
                old(self).idle_for(key_view(*key)),
                now,
                platform::duration_nanos(old(self).idle_timeout),
            ),
            forall|other: (Seq<char>, Seq<char>, u16)|
                other != key_view(*key) ==> #[trigger] final(self).idle_for(other) == old(self).idle_for(other),
            old(self).within_capacity() ==> final(self).within_capacity(),
            old(self).keys_distinct() ==> final(self).keys_distinct(),
    {
        let timeout = self.idle_timeout.as_nanos();
        let p = self.shelf_position(key);
        let ghost k = key_view(*key);
        let ghost before = self.shelves@;
        proof {
            lemma_shelved(before, k, p as int);
        }
        if p == self.shelves.len() {
            return None;
        }
        let mut shelf = self.shelves.remove(p);
        let ghost all = shelf.idle@;
        let mut found: Option<T> = None;
        while found.is_none() && shelf.idle.len() > 0
            invariant
                found is None ==> newest(all, now, timeout) == newest(shelf.idle@, now, timeout),
                found is Some ==> newest(all, now, timeout) == (found, shelf.idle@),
                shelf.key == before[p as int].key,
            decreases shelf.idle@.len(),
        {
            let ghost here = shelf.idle@;
            if let Some(entry) = shelf.idle.pop() {
                assert(shelf.idle@ =~= here.drop_last());
                let idle_for: u128 = if now >= entry.since {
                    now - entry.since
                } else {
                    0
                };
                if idle_for < timeout {
                    found = Some(entry.stream);
                }
            }
        }
        let ghost kept = shelf;
        self.shelves.insert(p, shelf);
        proof {
            assert(self.shelves@ =~= before.update(p as int, kept));
            lemma_newest(all, now, timeout);
            assert forall|other: (Seq<char>, Seq<char>, u16)| #[trigger]
                self.idle_for(other) == if other == k {
                kept.idle@
            } else {
                old(self).idle_for(other)
            } by {
                lemma_shelf_changed_for(before, p as int, kept, other);
            }
            if old(self).within_capacity() {
                assert forall|other: (Seq<char>, Seq<char>, u16)| #[trigger]
                    self.idle_for(other).len() <= self.max_idle_per_origin by {
                    assert(old(self).idle_for(other).len() <= old(self).max_idle_per_origin);
                }
            }
        }
        found
    }

    /// Keeps a connection for reuse, unless its origin has as many idle ones
    /// as it may.
    pub fn put(&mut self, key: PoolKey, stream: T, now: u128)
        ensures
            final(self).max_idle_per_origin == old(self).max_idle_per_origin,
            final(self).idle_timeout == old(self).idle_timeout,
            final(self).idle_for(key_view(key)) == kept(
                old(self).idle_for(key_view(key)),
                stream,
                now,
                old(self).max_idle_per_origin,
            ),
            final(self).idle_for(key_view(key)) == if old(self).idle_for(key_view(key)).len()
                < old(self).max_idle_per_origin {
                old(self).idle_for(key_view(key)).push((Idle { stream, since: now }))
            } else {
                old(self).idle_for(key_view(key))
            },
            forall|other: (Seq<char>, Seq<char>, u16)|
                other != key_view(key) ==> #[trigger] final(self).idle_for(other) == old(self).idle_for(other),
            old(self).within_capacity() ==> final(self).within_capacity(),
            old(self).keys_distinct() ==> final(self).keys_distinct(),
    {
        let p = self.shelf_position(&key);
        let ghost k = key_view(key);
        let ghost before = self.shelves@;
        proof {
            lemma_shelved(before, k, p as int);
        }
        if self.max_idle_per_origin == 0 {
            return ;
        }
        let entry = Idle { stream, since: now };
        if p == self.shelves.len() {
            let mut idle: Vec<Idle<T>> = Vec::new();
            idle.push(entry);
            assert(idle@ =~= Seq::<Idle<T>>::empty().push(entry));
            let shelf = Shelf { key, idle };
            let ghost added = shelf;
            self.shelves.push(shelf);
            proof {
                assert forall|other: (Seq<char>, Seq<char>, u16)| #[trigger]
                    self.idle_for(other) == if other == k {
                    added.idle@
                } else {
                    old(self).idle_for(other)
                } by {
                    lemma_shelf_added(before, added, other);
                }
            }
        } else if self.shelves[p].idle.len() < self.max_idle_per_origin {
            let mut shelf = self.shelves.remove(p);
            shelf.idle.push(entry);
            let ghost kept = shelf;
            self.shelves.insert(p, shelf);
            proof {
                assert(self.shelves@ =~= before.update(p as int, kept));
                assert forall|other: (Seq<char>, Seq<char>, u16)| #[trigger]
                    self.idle_for(other) == if other == k {
                    kept.idle@
                } else {
                    old(self).idle_for(other)
                } by {
                    lemma_shelf_changed_for(before, p as int, kept, other);
                }
            }
        }
    }
}

proof fn lemma_newest<T>(idle: Seq<Idle<T>>, now: u128, timeout: u128)
    ensures
        newest(idle, now, timeout).1.len() <= idle.len(),
    decreases idle.len(),
{
    if idle.len() > 0 && age(idle.last(), now) >= timeout {
        lemma_newest(idle.drop_last(), now, timeout);
    }
}

proof fn lemma_shelved<T>(shelves: Seq<Shelf<T>>, key: (Seq<char>, Seq<char>, u16), p: int)
    requires
        0 <= p <= shelves.len(),
        forall|i: int| 0 <= i < p ==> key_view((#[trigger] shelves[i]).key) != key,
        p < shelves.len() ==> key_view(shelves[p].key) == key,
    ensures
        shelved(shelves, key) == if p < shelves.len() {
            shelves[p].idle@
        } else {
            seq![]
        },
    decreases p,
{
    if p > 0 {
        let rest = shelves.skip(1);
        assert(key_view(shelves[0].key) != key);
        assert forall|i: int| 0 <= i < p - 1 implies key_view((#[trigger] rest[i]).key) != key by {
            assert(rest[i] == shelves[i + 1]);
        }
        lemma_shelved(rest, key, p - 1);
    }
}

proof fn lemma_shelf_changed_for<T>(
    shelves: Seq<Shelf<T>>,
    p: int,
    shelf: Shelf<T>,
    key: (Seq<char>, Seq<char>, u16),
)
    requires
        0 <= p < shelves.len(),
        key_view(shelf.key) == key_view(shelves[p].key),
        forall|i: int|
            0 <= i < p ==> key_view((#[trigger] shelves[i]).key) != key_view(shelf.key),
    ensures
        shelved(shelves.update(p, shelf), key) == if key == key_view(shelf.key) {
            shelf.idle@
        } else {
            shelved(shelves, key)
        },
    decreases p,
{
    let changed = shelves.update(p, shelf);
    if p == 0 {
        assert(changed.skip(1) =~= shelves.skip(1));
    } else {
        let rest = shelves.skip(1);
        assert(changed.skip(1) =~= rest.update(p - 1, shelf));
        assert(key_view(shelves[0].key) != key_view(shelf.key));
        assert forall|i: int| 0 <= i < p - 1 implies key_view((#[trigger] rest[i]).key) != key_view(
            shelf.key,
        ) by {
            assert(rest[i] == shelves[i + 1]);
        }
        lemma_shelf_changed_for(rest, p - 1, shelf, key);
    }
}

proof fn lemma_shelf_added<T>(
    shelves: Seq<Shelf<T>>,
    shelf: Shelf<T>,
    key: (Seq<char>, Seq<char>, u16),
)
    requires
        forall|i: int|
            0 <= i < shelves.len() ==> key_view((#[trigger] shelves[i]).key) != key_view(shelf.key),
    ensures
        shelved(shelves.push(shelf), key) == if key == key_view(shelf.key) {
            shelf.idle@
        } else {
            shelved(shelves, key)
        },
    decreases shelves.len(),
{
    let more = shelves.push(shelf);
    if shelves.len() == 0 {
        assert(more.skip(1).len() == 0);
        assert(shelved(more.skip(1), key) =~= seq![]);
    } else {
        let rest = shelves.skip(1);
        assert(more.skip(1) =~= rest.push(shelf));
        assert(key_view(shelves[0].key) != key_view(shelf.key));
        assert forall|i: int| 0 <= i < rest.len() implies key_view((#[trigger] rest[i]).key)
            != key_view(shelf.key) by {
            assert(rest[i] == shelves[i + 1]);
        }
        lemma_shelf_added(rest, shelf, key);
    }
}

/// A connection that was put back is the next one to be taken, if the
/// timeout has not passed, and taking it leaves the others as they were.
pub proof fn law_taken_is_last_put<T>(
    idle: Seq<Idle<T>>,
    stream: T,
    put_at: u128,
    taken_at: u128,
    timeout: u128,
)
    requires
        age((Idle { stream, since: put_at }), taken_at) < timeout,
    ensures
        newest(idle.push((Idle { stream, since: put_at })), taken_at, timeout) == (
            Some(stream),
            idle,
        ),
{
    let entry = Idle { stream, since: put_at };
    assert(idle.push(entry).drop_last() =~= idle);
}

/// A connection that has been idle for the timeout is never handed out.
pub proof fn law_stale_connections_are_not_taken<T>(
    idle: Seq<Idle<T>>,
    now: u128,
    timeout: u128,
)
    ensures
        newest(idle, now, timeout).0 matches Some(stream) ==> exists|i: int|
            0 <= i < idle.len() && (#[trigger] idle[i]).stream == stream && age(idle[i], now)
                < timeout && newest(idle, now, timeout).1 == idle.take(i) && forall|j: int|
                i < j < idle.len() ==> age(#[trigger] idle[j], now) >= timeout,
    decreases idle.len(),
{
    if idle.len() > 0 {
        let n = idle.len() - 1;
        if age(idle.last(), now) < timeout {
            assert(idle[n].stream == idle.last().stream);
            assert(idle.drop_last() =~= idle.take(n));
        } else {
            let front = idle.drop_last();
            law_stale_connections_are_not_taken(front, now, timeout);
            if let Some(stream) = newest(idle, now, timeout).0 {
                let i = choose|i: int|
                    0 <= i < front.len() && (#[trigger] front[i]).stream == stream && age(
                        front[i],
                        now,
                    ) < timeout && newest(front, now, timeout).1 == front.take(i) && forall|j: int|
                        i < j < front.len() ==> age(#[trigger] front[j], now) >= timeout;
                assert(idle[i] == front[i]);
                assert(front.take(i) =~= idle.take(i));
                assert forall|j: int| i < j < idle.len() implies age(#[trigger] idle[j], now)
                    >= timeout by {
                    if j < n {
                        assert(idle[j] == front[j]);
                    }
                }
            }
        }
    }
}

/// The newest connection is taken as long as it has been idle for less than
/// the timeout, and the others stay; once the timeout has passed it is dropped,
/// and the others are looked at as if it had not been there. Where the clock
/// has gone back, a connection counts as just put.
pub proof fn law_timeout_decides_what_is_taken<T>(
    idle: Seq<Idle<T>>,
    stream: T,
    since: u128,
    now: u128,
    timeout: u128,
)
    ensures
        ({
            let more = idle.push((Idle { stream, since }));
            &&& since <= now && now - since < timeout ==> newest(more, now, timeout) == (
                Some(stream),
                idle,
            )
            &&& since <= now && now - since >= timeout ==> newest(more, now, timeout) == newest(
                idle,
                now,
                timeout,
            )
            &&& now < since && timeout > 0 ==> newest(more, now, timeout) == (Some(stream), idle)
            &&& newest(Seq::<Idle<T>>::empty(), now, timeout) == (
                None::<T>,
                Seq::<Idle<T>>::empty(),
            )
        }),
{
    assert(idle.push((Idle { stream, since })).drop_last() =~= idle);
}

/// A connection that has been idle for less than the timeout is found, however
/// many newer or older ones there are.
pub proof fn law_fresh_connection_is_found<T>(
    idle: Seq<Idle<T>>,
    i: int,
    now: u128,
    timeout: u128,
)
    requires
        0 <= i < idle.len(),
        idle[i].since <= now,
        now - idle[i].since < timeout,
    ensures
        newest(idle, now, timeout).0 is Some,
    decreases idle.len(),
{
    if i < idle.len() - 1 {
        assert(idle.drop_last()[i] == idle[i]);
        law_fresh_connection_is_found(idle.drop_last(), i, now, timeout);
    }
}

/// As many connections of an origin are kept as may be, and none beyond: put
/// one after the other into an empty shelf, the first `max` are there, in their
/// order and with the times at which they came, and the others are not.
pub proof fn law_connections_are_kept_up_to_the_cap<T>(
    put: Seq<Idle<T>>,
    max: usize,
)
    ensures
        after_puts(put, max) == if put.len() <= max {
            put
        } else {
            put.take(max as int)
        },
    decreases put.len(),
{
    if put.len() > 0 {
        law_connections_are_kept_up_to_the_cap(put.drop_last(), max);
        let last = put.last();
        let entry = Idle { stream: last.stream, since: last.since };
        assert(entry == last);
        if put.len() <= max {
            assert(put.drop_last().push(entry) =~= put);
        } else {
            let front = after_puts(put.drop_last(), max);
            assert(front =~= put.take(max as int));
        }
    } else {
        assert(put.take(max as int) =~= put || put.len() <= max);
    }
}

/// A shelf that was empty, after connections were put into it.
pub open spec fn after_puts<T>(put: Seq<Idle<T>>, max: usize) -> Seq<Idle<T>>
    decreases put.len(),
{
    if put.len() == 0 {
        put
    } else {
        kept(after_puts(put.drop_last(), max), put.last().stream, put.last().since, max)
    }
}

} // verus!
