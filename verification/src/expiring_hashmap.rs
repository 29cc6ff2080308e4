//! A map whose entries expire: each entry carries the time at which it was
//! inserted or last read, and an entry older than the map's time to live is
//! treated as absent.

use std::collections::HashMap;
use std::hash::Hash;
use std::time::Instant;
use vstd::prelude::*;
use vstd::std_specs::hash::obeys_key_model;

verus! {

broadcast use vstd::std_specs::hash::group_hash_axioms;

/// `std::time::Instant`, a point on the monotonic clock. Nothing is known
/// of what a value of it holds.
#[verifier::external_type_specification]
#[verifier::external_body]
pub struct ExInstant(Instant);

/// `Instant::now` reads the monotonic clock. Nothing is claimed of the
/// instant it returns.
#[verifier::external_body]
fn clock_start() -> Instant {
    Instant::now()
}

/// `Instant::elapsed` measures the time since `origin` on the monotonic
/// clock; the wrapper hands it on in nanoseconds. Nothing is claimed of the
/// number: it depends on when the call is made.
#[verifier::external_body]
fn clock_read(origin: &Instant) -> u128 {
    origin.elapsed().as_nanos()
}

/// Whether an entry stamped `stamp` still counts at time `now` under a time
/// to live of `ttl`: it does unless more than `ttl` has passed since the
/// stamp.
pub open spec fn is_live(stamp: u128, now: u128, ttl: u128) -> bool {
    now - stamp <= ttl
}

/// What a lookup of `k` at time `now` finds in a map of stamped entries: the
/// value of the entry under `k`, if there is one and it is live.
pub open spec fn lookup_value<K, V>(m: Map<K, (u128, V)>, ttl: u128, k: K, now: u128) -> Option<
    V,
> {
    if m.contains_key(k) && is_live(m[k].0, now, ttl) {
        Some(m[k].1)
    } else {
        None
    }
}

/// The map after a lookup of `k` at time `now`: an entry that was found is
/// stamped anew, and nothing else changes.
pub open spec fn lookup_state<K, V>(m: Map<K, (u128, V)>, ttl: u128, k: K, now: u128) -> Map<
    K,
    (u128, V),
> {
    if m.contains_key(k) && is_live(m[k].0, now, ttl) {
        m.insert(k, (now, m[k].1))
    } else {
        m
    }
}

/// The value that an insertion under `k` replaces, whether live or not.
pub open spec fn replaced_value<K, V>(m: Map<K, (u128, V)>, k: K) -> Option<V> {
    if m.contains_key(k) {
        Some(m[k].1)
    } else {
        None
    }
}

/// A map from keys to values in which every entry carries a time stamp, in
/// nanoseconds on the map's own clock. The values lie in a vector with their
/// stamps beside them; a hash map says where the value of each key lies.
#[derive(Debug)]
pub struct ExpiringHashMap<K, V> {
    index: HashMap<K, usize>,
    stamps: Vec<u128>,
    values: Vec<V>,
    duration: u128,
    origin: Instant,
}

impl<K, V> View for ExpiringHashMap<K, V> {
    type V = Map<K, (u128, V)>;

    closed spec fn view(&self) -> Map<K, (u128, V)> {
        Map::new(
            |k: K| self.index@.contains_key(k),
            |k: K| (self.stamps@[self.index@[k] as int], self.values@[self.index@[k] as int]),
        )
    }
}

impl<K, V> ExpiringHashMap<K, V> where K: Eq + Hash {
    /// The map's invariant: keys can be hashed, every key has a place of its
    /// own in the vector, and every value has its stamp.
    pub closed spec fn wf(&self) -> bool {
        &&& obeys_key_model::<K>()
        &&& self.stamps@.len() == self.values@.len()
        &&& forall|k: K| #[trigger]
            self.index@.contains_key(k) ==> self.index@[k] < self.values@.len()
        &&& forall|j: K, k: K|
            self.index@.contains_key(j) && self.index@.contains_key(k) && #[trigger] self.index@[j]
                == #[trigger] self.index@[k] ==> j == k
    }

    /// The time to live, in nanoseconds.
    pub closed spec fn ttl(&self) -> u128 {
        self.duration
    }

    /// An empty map whose entries live for `duration` nanoseconds.
    pub fn new(duration: u128) -> (r: Self)
        requires
            obeys_key_model::<K>(),
        ensures
            r.wf(),
            r.ttl() == duration,
            r@ == Map::<K, (u128, V)>::empty(),
    {
        let r = ExpiringHashMap {
            index: HashMap::new(),
            stamps: Vec::new(),
            values: Vec::new(),
            duration,
            origin: clock_start(),
        };
        assert(r@ =~= Map::<K, (u128, V)>::empty());
        r
    }

    /// The present time on the map's clock, in nanoseconds since the map was
    /// made.
    pub fn now(&self) -> (r: u128) {
        clock_read(&self.origin)
    }

    /// Puts `v` under `k` with the stamp `now`, in place of any entry under
    /// `k`; returns the value that was there, live or not.
    pub fn insert_at(&mut self, k: K, v: V, now: u128) -> (r: Option<V>)
        requires
            old(self).wf(),
        ensures
            final(self).wf(),
            final(self).ttl() == old(self).ttl(),
            final(self)@ == old(self)@.insert(k, (now, v)),
            r == replaced_value(old(self)@, k),
    {
        let place: Option<usize> = match self.index.get(&k) {
            Some(i) => Some(*i),
            None => None,
        };
        match place {
            Some(i) => {
                self.stamps.set(i, now);
                self.values.push(v);
                let replaced = self.values.swap_remove(i);
                assert(self.values@ =~= old(self).values@.update(i as int, v));
                assert(self@ =~= old(self)@.insert(k, (now, v)));
                Some(replaced)
            },
            None => {
                let i: usize = self.values.len();
                self.values.push(v);
                self.stamps.push(now);
                self.index.insert(k, i);
                assert(self@ =~= old(self)@.insert(k, (now, v)));
                None
            },
        }
    }

    /// Looks `k` up at time `now`: returns the value of a live entry and
    /// stamps the entry anew; an entry that has expired, or a key that the
    /// map does not hold, gives `None` and changes nothing.
    pub fn get_at(&mut self, k: &K, now: u128) -> (r: Option<&V>)
        requires
            old(self).wf(),
        ensures
            final(self).wf(),
            final(self).ttl() == old(self).ttl(),
            final(self)@ == lookup_state(old(self)@, old(self).ttl(), *k, now),
            match r {
                Some(v) => lookup_value(old(self)@, old(self).ttl(), *k, now) == Some(*v),
                None => lookup_value(old(self)@, old(self).ttl(), *k, now) is None,
            },
    {
        let place: Option<usize> = match self.index.get(k) {
            Some(i) => Some(*i),
            None => None,
        };
        match place {
            Some(i) => {
                let stamp: u128 = self.stamps[i];
                let age: u128 = if now >= stamp {
                    now - stamp
                } else {
                    0
                };
                if age > self.duration {
                    None
                } else {
                    self.stamps.set(i, now);
                    assert(self@ =~= lookup_state(old(self)@, old(self).ttl(), *k, now));
                    Some(&self.values[i])
                }
            },
            None => None,
        }
    }

    /// Puts `v` under `k` with the present time as its stamp, in place of
    /// any entry under `k`; returns the value that was there, live or not.
    pub fn insert(&mut self, k: K, v: V) -> (r: Option<V>)
        requires
            old(self).wf(),
        ensures
            final(self).wf(),
            final(self).ttl() == old(self).ttl(),
            exists|now: u128| final(self)@ == old(self)@.insert(k, (now, v)),
            r == replaced_value(old(self)@, k),
    {
        let now: u128 = self.now();
        self.insert_at(k, v, now)
    }

    /// Looks `k` up at the present time: returns the value of a live entry
    /// and stamps the entry anew; an entry that has expired, or a key that
    /// the map does not hold, gives `None` and changes nothing.
    pub fn get(&mut self, k: &K) -> (r: Option<&V>)
        requires
            old(self).wf(),
        ensures
            final(self).wf(),
            final(self).ttl() == old(self).ttl(),
            exists|now: u128|
                {
                    &&& final(self)@ == #[trigger] lookup_state(
                        old(self)@,
                        old(self).ttl(),
                        *k,
                        now,
                    )
                    &&& match r {
                        Some(v) => lookup_value(old(self)@, old(self).ttl(), *k, now) == Some(*v),
                        None => lookup_value(old(self)@, old(self).ttl(), *k, now) is None,
                    }
                },
    {
        let now: u128 = self.now();
        self.get_at(k, now)
    }
}

} // verus!
