//! Keyed caches: one whose entries may expire, and one that evicts the entry
//! used least recently. Keys are 64-bit numbers.
//!
//! Time is a count of ticks that the caller reads from its clock and hands in;
//! an entry with a time to live expires once the clock has passed the tick at
//! which it was stored plus that time.

use std::collections::HashMap;
use vstd::prelude::*;

verus! {

/// A cached value and the tick after which it is expired, if there is one.
pub struct CacheEntry<V> {
    value: V,
    expires_at: Option<u64>,
}

impl<V> CacheEntry<V> {
    /// The cached value.
    pub closed spec fn value(&self) -> V {
        self.value
    }

    /// The last tick at which the entry is still good; `None` for an entry
    /// that never expires.
    pub closed spec fn expires_at(&self) -> Option<u64> {
        self.expires_at
    }

    /// Whether the entry is expired at tick `now`: it has a last good tick,
    /// and `now` is after it.
    pub open spec fn expired_at(&self, now: u64) -> bool {
        match self.expires_at() {
            Some(time) => now > time,
            None => false,
        }
    }

    /// The tick after which an entry stored at `now` with `ttl` is expired.
    pub open spec fn deadline(ttl: Option<u64>, now: u64) -> Option<u64> {
        match ttl {
            Some(t) => Some((now + t) as u64),
            None => None,
        }
    }

    /// Whether the deadline of an entry stored at `now` with `ttl` is a tick.
    pub open spec fn deadline_fits(ttl: Option<u64>, now: u64) -> bool {
        ttl matches Some(t) ==> now + t <= u64::MAX
    }

    /// Tests whether the deadline of an entry stored at `now` with `ttl` is a
    /// tick, as `new` asks.
    pub fn has_deadline(ttl: Option<u64>, now: u64) -> (r: bool)
        ensures
            r == Self::deadline_fits(ttl, now),
    {
        match ttl {
            Some(t) => now.checked_add(t).is_some(),
            None => true,
        }
    }

    /// An entry for `value`, stored at tick `now`, that lives for `ttl` ticks,
    /// or for ever without one. The deadline must be a tick.
    pub fn new(value: V, ttl: Option<u64>, now: u64) -> (r: CacheEntry<V>)
        requires
            Self::deadline_fits(ttl, now),
        ensures
            r.value() == value,
            r.expires_at() == Self::deadline(ttl, now),
    {
        let expires_at: Option<u64> = match ttl {
            Some(t) => Some(now + t),
            None => None,
        };
        CacheEntry { value, expires_at }
    }

    /// Whether the entry is expired at tick `now`.
    pub fn is_expired(&self, now: u64) -> (r: bool)
        ensures
            r == self.expired_at(now),
    {
        match self.expires_at {
            Some(time) => now > time,
            None => false,
        }
    }
}

/// A cache whose entries may expire, with counts of the lookups that found
/// an entry and of those that did not.
pub struct InMemoryCache<V> {
    store: HashMap<u64, CacheEntry<V>>,
    hits: u64,
    misses: u64,
}

impl<V> InMemoryCache<V> {
    /// The entries by key, expired ones included until they are cleaned up.
    pub closed spec fn entries(&self) -> Map<u64, CacheEntry<V>> {
        self.store@
    }

    /// Number of lookups that found an entry.
    pub closed spec fn hit_count(&self) -> u64 {
        self.hits
    }

    /// Number of lookups that found none.
    pub closed spec fn miss_count(&self) -> u64 {
        self.misses
    }

    /// Whether `key` has an entry that is not expired at tick `now`.
    pub open spec fn is_live(&self, key: u64, now: u64) -> bool {
        self.entries().contains_key(key) && !self.entries()[key].expired_at(now)
    }

    /// The entries that are not expired at tick `now`.
    pub open spec fn live(&self, now: u64) -> Map<u64, CacheEntry<V>> {
        self.entries().restrict(Set::new(|k: u64| self.is_live(k, now)))
    }

    /// An empty cache that has seen no lookup.
    pub fn new() -> (r: InMemoryCache<V>)
        ensures
            r.entries() == Map::<u64, CacheEntry<V>>::empty(),
            r.hit_count() == 0,
            r.miss_count() == 0,
    {
        InMemoryCache { store: HashMap::new(), hits: 0, misses: 0 }
    }

    /// Stores `value` under `key` at tick `now`, to live for `ttl` ticks, or
    /// for ever without one; an entry that `key` had is replaced. The deadline
    /// must be a tick.
    pub fn insert_with_ttl(&mut self, key: u64, value: V, ttl: Option<u64>, now: u64)
        requires
            CacheEntry::<V>::deadline_fits(ttl, now),
        ensures
            final(self).entries().dom() == old(self).entries().dom().insert(key),
            final(self).entries()[key].value() == value,
            final(self).entries()[key].expires_at() == CacheEntry::<V>::deadline(ttl, now),
            forall|k: u64|
                k != key && old(self).entries().contains_key(k)
                    ==> #[trigger] final(self).entries()[k] == old(self).entries()[k],
            final(self).hit_count() == old(self).hit_count(),
            final(self).miss_count() == old(self).miss_count(),
    {
        let entry: CacheEntry<V> = CacheEntry::new(value, ttl, now);
        self.store.insert(key, entry);
    }

    /// Stores `value` under `key`, never to expire.
    pub fn insert(&mut self, key: u64, value: V)
        ensures
            final(self).entries().dom() == old(self).entries().dom().insert(key),
            final(self).entries()[key].value() == value,
            final(self).entries()[key].expires_at().is_none(),
            forall|k: u64|
                k != key && old(self).entries().contains_key(k)
                    ==> #[trigger] final(self).entries()[k] == old(self).entries()[k],
            final(self).hit_count() == old(self).hit_count(),
            final(self).miss_count() == old(self).miss_count(),
    {
        self.insert_with_ttl(key, value, None, 0);
    }

    /// The keys of the entries that are expired at tick `now`, or of those
    /// that are not, each once.
    fn keys_where(&self, now: u64, expired: bool) -> (r: Vec<u64>)
        ensures
            r@.no_duplicates(),
            forall|k: u64|
                r@.contains(k) <==> (self.entries().contains_key(k)
                    && self.entries()[k].expired_at(now) == expired),
    {
        let mut keys: Vec<u64> = Vec::new();
        for pair in it: self.store.iter()
            invariant
                keys@.no_duplicates(),
                it.seq().no_duplicates(),
                forall|i: int|
                    0 <= i < it.seq().len() ==> self.entries().contains_key(
                        *(#[trigger] it.seq()[i]).0,
                    ) && self.entries()[*it.seq()[i].0] == *it.seq()[i].1,
                forall|k: u64|
                    #[trigger] self.entries().contains_key(k) ==> it.seq().contains(
                        (&k, &self.entries()[k]),
                    ),
                forall|k: u64|
                    keys@.contains(k) <==> exists|i: int|
                        0 <= i < it.index() && *(#[trigger] it.seq()[i]).0 == k
                            && it.seq()[i].1.expired_at(now) == expired,
                it.index() == it.seq().len() ==> forall|k: u64|
                    keys@.contains(k) <==> (self.entries().contains_key(k)
                        && self.entries()[k].expired_at(now) == expired),
        {
            let (key, entry) = pair;
            let ghost n: int = it.index() as int;
            let ghost before: Seq<u64> = keys@;
            if entry.is_expired(now) == expired {
                proof {
                    if before.contains(*key) {
                        let i: int = choose|i: int|
                            0 <= i < n && *(#[trigger] it.seq()[i]).0 == *key
                                && it.seq()[i].1.expired_at(now) == expired;
                        assert(self.entries()[*it.seq()[i].0] == *it.seq()[i].1);
                        assert(self.entries()[*it.seq()[n].0] == *it.seq()[n].1);
                        assert(it.seq()[i] == it.seq()[n]);
                    }
                    lemma_push_fresh(before, *key);
                }
                keys.push(*key);
            }
            proof {
                assert forall|k: u64|
                    keys@.contains(k) <==> exists|i: int|
                        0 <= i < n + 1 && *(#[trigger] it.seq()[i]).0 == k
                            && it.seq()[i].1.expired_at(now) == expired by {
                    if before.contains(k) {
                        let i: int = choose|i: int|
                            0 <= i < n && *(#[trigger] it.seq()[i]).0 == k
                                && it.seq()[i].1.expired_at(now) == expired;
                        assert(0 <= i < n + 1 && *it.seq()[i].0 == k
                            && it.seq()[i].1.expired_at(now)
                            == expired);
                    }
                    if exists|i: int|
                        0 <= i < n + 1 && *(#[trigger] it.seq()[i]).0 == k
                            && it.seq()[i].1.expired_at(now) == expired {
                        let i: int = choose|i: int|
                            0 <= i < n + 1 && *(#[trigger] it.seq()[i]).0 == k
                                && it.seq()[i].1.expired_at(now) == expired;
                        if i < n {
                            assert(before.contains(k));
                        }
                    }
                }
                assert forall|k: u64| n + 1 == it.seq().len() implies (keys@.contains(k) <==> (
                self.entries().contains_key(k)
                    && self.entries()[k].expired_at(now) == expired)) by {
                    if self.entries().contains_key(k)
                        && self.entries()[k].expired_at(now) == expired {
                        let found = (&k, &self.entries()[k]);
                        assert(it.seq().contains(found));
                        let i: int = choose|i: int|
                            0 <= i < it.seq().len() && it.seq()[i] == found;
                        assert(*it.seq()[i].0 == k && it.seq()[i].1.expired_at(now) == expired);
                    }
                    if keys@.contains(k) {
                        let i: int = choose|i: int|
                            0 <= i < n + 1 && *(#[trigger] it.seq()[i]).0 == k
                                && it.seq()[i].1.expired_at(now) == expired;
                        assert(self.entries()[*it.seq()[i].0] == *it.seq()[i].1);
                    }
                }
            }
        }
        keys
    }

    /// Drops every entry that is expired at tick `now`.
    pub fn cleanup_expired(&mut self, now: u64)
        ensures
            final(self).entries() == old(self).live(now),
            final(self).hit_count() == old(self).hit_count(),
            final(self).miss_count() == old(self).miss_count(),
    {
        let expired_keys: Vec<u64> = self.keys_where(now, true);
        let mut i: usize = 0;
        while i < expired_keys.len()
            invariant
                0 <= i <= expired_keys.len(),
                self.hit_count() == old(self).hit_count(),
                self.miss_count() == old(self).miss_count(),
                forall|j: int| 0 <= j < i
                    ==> !self.entries().contains_key(#[trigger] expired_keys@[j]),
                forall|k: u64|
                    #[trigger] self.entries().contains_key(k) ==> old(self).entries().contains_key(
                        k,
                    ) && self.entries()[k] == old(self).entries()[k],
                forall|k: u64|
                    old(self).entries().contains_key(k) && !(
                    #[trigger] self.entries().contains_key(k)) ==> expired_keys@.contains(k),
            decreases expired_keys.len() - i,
        {
            let ghost prev: Map<u64, CacheEntry<V>> = self.entries();
            let ghost key: u64 = expired_keys@[i as int];
            self.store.remove(&expired_keys[i]);
            proof {
                assert(self.entries() == prev.remove(key));
                assert(expired_keys@.contains(key));
                assert forall|k: u64| #[trigger]
                    self.entries().contains_key(k) implies old(self).entries().contains_key(k)
                    && self.entries()[k] == old(self).entries()[k] by {
                    assert(prev.contains_key(k));
                }
                assert forall|k: u64|
                    old(self).entries().contains_key(k) && !(
                    #[trigger] self.entries().contains_key(k)) implies expired_keys@.contains(
                    k,
                ) by {
                    if k != key {
                        assert(!prev.contains_key(k));
                    }
                }
            }
            i += 1;
        }
        proof {
            let target: Map<u64, CacheEntry<V>> = old(self).live(now);
            assert forall|k: u64| self.entries().contains_key(k) <==> target.contains_key(k) by {
                assert(expired_keys@.contains(k) <==> (old(self).entries().contains_key(k)
                    && old(self).entries()[k].expired_at(now) == true));
                if self.entries().contains_key(k) && expired_keys@.contains(k) {
                    let j: int = choose|j: int|
                        0 <= j < expired_keys@.len() && expired_keys@[j] == k;
                    assert(!self.entries().contains_key(expired_keys@[j]));
                }
            }
            assert(self.entries().dom() =~= target.dom());
            assert(self.entries() =~= target);
        }
    }

    /// What `get` asks of its caller: the count that the lookup makes grow,
    /// of hits or of misses, has room to.
    pub open spec fn can_get(&self, key: u64, now: u64) -> bool {
        &&& self.is_live(key, now) ==> self.hit_count() < u64::MAX
        &&& !self.is_live(key, now) ==> self.miss_count() < u64::MAX
    }

    /// What `get_or_compute` asks of its caller: an entry that `key` has is
    /// not expired, and the count of hits has room to grow.
    pub open spec fn can_get_or_compute(&self, key: u64, now: u64) -> bool {
        &&& self.entries().contains_key(key) ==> !self.entries()[key].expired_at(now)
        &&& self.hit_count() < u64::MAX
    }

    /// Tests what `get` asks of its caller.
    pub fn may_get(&self, key: &u64, now: u64) -> (r: bool)
        ensures
            r == self.can_get(*key, now),
    {
        if self.has_live(key, now) {
            self.hits < u64::MAX
        } else {
            self.misses < u64::MAX
        }
    }

    /// Tests what `get_or_compute` asks of its caller.
    pub fn may_get_or_compute(&self, key: &u64, now: u64) -> (r: bool)
        ensures
            r == self.can_get_or_compute(*key, now),
    {
        if self.contains_key(key) && !self.has_live(key, now) {
            return false;
        }
        self.hits < u64::MAX
    }

    /// Looks `key` up at tick `now`, after dropping every expired entry, and
    /// counts the lookup as a hit or a miss. The count that grows must have
    /// room to.
    pub fn get(&mut self, key: &u64, now: u64) -> (r: Option<&V>)
        requires
            old(self).can_get(*key, now),
        ensures
            final(self).entries() == old(self).live(now),
            r.is_some() <==> old(self).is_live(*key, now),
            r matches Some(v) ==> {
                &&& *v == old(self).entries()[*key].value()
                &&& final(self).hit_count() == old(self).hit_count() + 1
                &&& final(self).miss_count() == old(self).miss_count()
            },
            r.is_none() ==> {
                &&& final(self).hit_count() == old(self).hit_count()
                &&& final(self).miss_count() == old(self).miss_count() + 1
            },
    {
        self.cleanup_expired(now);
        match self.store.get(key) {
            Some(entry) => {
                if !entry.is_expired(now) {
                    self.hits += 1;
                    Some(&entry.value)
                } else {
                    self.misses += 1;
                    None
                }
            },
            None => {
                self.misses += 1;
                None
            },
        }
    }

    /// Whether `key` has an entry, expired or not.
    pub fn contains_key(&self, key: &u64) -> (r: bool)
        ensures
            r == self.entries().contains_key(*key),
    {
        self.store.contains_key(key)
    }

    /// Whether `key` has an entry that is not expired at tick `now`.
    pub fn has_live(&self, key: &u64, now: u64) -> (r: bool)
        ensures
            r == self.is_live(*key, now),
    {
        match self.store.get(key) {
            Some(entry) => !entry.is_expired(now),
            None => false,
        }
    }

    /// Drops the entry of `key`, if it has one.
    pub fn remove(&mut self, key: &u64)
        ensures
            final(self).entries() == old(self).entries().remove(*key),
            final(self).hit_count() == old(self).hit_count(),
            final(self).miss_count() == old(self).miss_count(),
    {
        self.store.remove(key);
    }

    /// Drops every entry.
    pub fn clear(&mut self)
        ensures
            final(self).entries() == Map::<u64, CacheEntry<V>>::empty(),
            final(self).hit_count() == old(self).hit_count(),
            final(self).miss_count() == old(self).miss_count(),
    {
        self.store.clear();
    }

    /// Number of entries, expired ones included.
    pub fn len(&self) -> (r: usize)
        ensures
            r == self.entries().len(),
    {
        self.store.len()
    }

    /// Whether the cache has no entry.
    pub fn is_empty(&self) -> (r: bool)
        ensures
            r == (self.entries().len() == 0),
    {
        self.len() == 0
    }

    /// The counts of hits and of misses.
    pub fn counters(&self) -> (r: (u64, u64))
        ensures
            r.0 == self.hit_count(),
            r.1 == self.miss_count(),
    {
        (self.hits, self.misses)
    }

    /// The entries that are not expired at tick `now`, each key once with its
    /// value, in no particular order.
    pub fn iter(&self, now: u64) -> (r: Vec<(u64, &V)>)
        ensures
            forall|i: int|
                0 <= i < r@.len() ==> self.is_live((#[trigger] r@[i]).0, now) && *r@[i].1
                    == self.entries()[r@[i].0].value(),
            forall|i: int, j: int| 0 <= i < j < r@.len() ==> r@[i].0 != r@[j].0,
            forall|k: u64|
                self.is_live(k, now) ==> exists|i: int| 0 <= i < r@.len()
                    && (#[trigger] r@[i]).0 == k,
    {
        let keys: Vec<u64> = self.keys_where(now, false);
        let mut out: Vec<(u64, &V)> = Vec::new();
        let mut i: usize = 0;
        while i < keys.len()
            invariant
                0 <= i <= keys.len(),
                out@.len() == i,
                keys@.no_duplicates(),
                forall|k: u64|
                    keys@.contains(k) <==> (self.entries().contains_key(k)
                        && self.entries()[k].expired_at(now) == false),
                forall|j: int|
                    0 <= j < i ==> (#[trigger] out@[j]).0 == keys@[j] && *out@[j].1
                        == self.entries()[keys@[j]].value(),
            decreases keys.len() - i,
        {
            let key: u64 = keys[i];
            assert(keys@.contains(keys@[i as int]));
            match self.store.get(&key) {
                Some(entry) => {
                    out.push((key, &entry.value));
                },
                None => {},
            }
            i += 1;
        }
        proof {
            assert forall|j: int| 0 <= j < out@.len() implies self.is_live(
                (#[trigger] out@[j]).0,
                now,
            ) && *out@[j].1 == self.entries()[out@[j].0].value() by {
                assert(keys@.contains(keys@[j]));
            }
            assert forall|k: u64| self.is_live(k, now) implies exists|j: int|
                0 <= j < out@.len() && (#[trigger] out@[j]).0 == k by {
                assert(keys@.contains(k));
                let j: int = choose|j: int| 0 <= j < keys@.len() && keys@[j] == k;
                assert(out@[j].0 == k);
            }
        }
        out
    }

    /// The value of `key` at tick `now`; where `key` has no entry, the value
    /// that `compute_fn` gives is stored first, never to expire. Expired
    /// entries are dropped and the lookup counts as a hit. An entry that
    /// `key` has must not be expired, and the count of hits must have room.
    pub fn get_or_compute<F: FnOnce() -> V>(&mut self, key: u64, compute_fn: F, now: u64) -> (r:
        &V)
        requires
            compute_fn.requires(()),
            old(self).can_get_or_compute(key, now),
        ensures
            old(self).entries().contains_key(key) ==> {
                &&& *r == old(self).entries()[key].value()
                &&& final(self).entries() == old(self).live(now)
            },
            !old(self).entries().contains_key(key) ==> {
                &&& compute_fn.ensures((), *r)
                &&& final(self).entries().dom() == old(self).live(now).dom().insert(key)
                &&& final(self).entries()[key].value() == *r
                &&& final(self).entries()[key].expires_at().is_none()
                &&& forall|k: u64|
                    k != key && old(self).is_live(k, now) ==> #[trigger] final(self).entries()[k]
                        == old(self).entries()[k]
            },
            final(self).hit_count() == old(self).hit_count() + 1,
            final(self).miss_count() == old(self).miss_count(),
    {
        if !self.store.contains_key(&key) {
            let val: V = compute_fn();
            self.insert(key, val);
        }
        let ghost mid: InMemoryCache<V> = *self;
        proof {
            assert(mid.is_live(key, now));
            if !old(self).entries().contains_key(key) {
                assert(mid.live(now).dom() =~= old(self).live(now).dom().insert(key));
            } else {
                assert(mid.entries() =~= old(self).entries());
                assert(mid.live(now) =~= old(self).live(now));
            }
        }
        let found: Option<&V> = self.get(&key, now);
        found.unwrap()
    }
}

/// The list `order` without its entry `key`.
pub open spec fn without_key(order: Seq<u64>, key: u64) -> Seq<u64> {
    order.remove(order.index_of(key))
}

/// Takes `key`, which occurs once at most, out of `order`, keeping the
/// others in their order.
fn drop_key(order: &mut Vec<u64>, key: u64)
    requires
        old(order)@.no_duplicates(),
    ensures
        final(order)@.no_duplicates(),
        !final(order)@.contains(key),
        old(order)@.contains(key) ==> final(order)@ == without_key(old(order)@, key),
        !old(order)@.contains(key) ==> final(order)@ == old(order)@,
        forall|k: u64| k != key ==> final(order)@.contains(k) == old(order)@.contains(k),
{
    let mut i: usize = 0;
    while i < order.len()
        invariant
            order@ == old(order)@,
            order@.no_duplicates(),
            0 <= i <= order.len(),
            forall|j: int| 0 <= j < i ==> order@[j] != key,
        decreases order.len() - i,
    {
        if order[i] == key {
            order.remove(i);
            proof {
                let before: Seq<u64> = old(order)@;
                assert(before.index_of(key) == i as int);
                assert forall|a: int, b: int|
                    0 <= a < order@.len() && 0 <= b < order@.len() && a != b implies order@[a]
                    != order@[b] by {
                    let a0: int = if a < i {
                        a
                    } else {
                        a + 1
                    };
                    let b0: int = if b < i {
                        b
                    } else {
                        b + 1
                    };
                    assert(before[a0] != before[b0]);
                }
                assert forall|k: u64| k != key implies order@.contains(k) == before.contains(
                    k,
                ) by {
                    if before.contains(k) {
                        let j: int = choose|j: int| 0 <= j < before.len() && before[j] == k;
                        let j1: int = if j < i {
                            j
                        } else {
                            j - 1
                        };
                        assert(order@[j1] == k);
                    }
                    if order@.contains(k) {
                        let j: int = choose|j: int| 0 <= j < order@.len() && order@[j] == k;
                        let j0: int = if j < i {
                            j
                        } else {
                            j + 1
                        };
                        assert(before[j0] == k);
                    }
                }
                if order@.contains(key) {
                    let j: int = choose|j: int| 0 <= j < order@.len() && order@[j] == key;
                    let j0: int = if j < i {
                        j
                    } else {
                        j + 1
                    };
                    assert(before[j0] == key);
                }
            }
            return ;
        }
        i += 1;
    }
}

/// A list without duplicates stays one when its first entry leaves, and holds
/// then all its entries but that one.
proof fn lemma_drop_first(order: Seq<u64>)
    requires
        order.no_duplicates(),
        order.len() > 0,
    ensures
        order.drop_first().no_duplicates(),
        forall|k: u64| order.drop_first().contains(k) <==> (order.contains(k) && k != order[0]),
{
    let rest: Seq<u64> = order.drop_first();
    assert forall|a: int, b: int| 0 <= a < rest.len() && 0 <= b < rest.len() && a != b
        implies rest[a]
        != rest[b] by {
        assert(order[a + 1] != order[b + 1]);
    }
    assert forall|k: u64| rest.contains(k) <==> (order.contains(k) && k != order[0]) by {
        if rest.contains(k) {
            let j: int = choose|j: int| 0 <= j < rest.len() && rest[j] == k;
            assert(order[j + 1] == k);
            assert(order[0] != order[j + 1]);
        }
        if order.contains(k) && k != order[0] {
            let j: int = choose|j: int| 0 <= j < order.len() && order[j] == k;
            assert(rest[j - 1] == k);
        }
    }
}

/// A list without duplicates stays one when a key that it does not hold is
/// added at its end, and holds then its entries and that key.
proof fn lemma_push_fresh(order: Seq<u64>, key: u64)
    requires
        order.no_duplicates(),
        !order.contains(key),
    ensures
        order.push(key).no_duplicates(),
        forall|k: u64| order.push(key).contains(k) <==> (order.contains(k) || k == key),
{
    let more: Seq<u64> = order.push(key);
    assert forall|a: int, b: int| 0 <= a < more.len() && 0 <= b < more.len() && a != b
        implies more[a]
        != more[b] by {
        if a < order.len() && b < order.len() {
            assert(order[a] != order[b]);
        } else if a < order.len() {
            assert(order.contains(order[a]));
        } else {
            assert(order.contains(order[b]));
        }
    }
    assert forall|k: u64| more.contains(k) <==> (order.contains(k) || k == key) by {
        if more.contains(k) {
            let j: int = choose|j: int| 0 <= j < more.len() && more[j] == k;
            if j < order.len() {
                assert(order[j] == k);
            }
        }
        if order.contains(k) {
            let j: int = choose|j: int| 0 <= j < order.len() && order[j] == k;
            assert(more[j] == k);
        }
        if k == key {
            assert(more[order.len() as int] == key);
        }
    }
}

/// A cache of at most `capacity` entries that evicts, when full, the entry
/// whose last use is oldest. `order` lists the keys from the least to the most
/// recently used.
pub struct SimpleLruCache<V> {
    store: HashMap<u64, V>,
    order: Vec<u64>,
    capacity: usize,
}

impl<V> SimpleLruCache<V> {
    /// The cached values by key.
    pub closed spec fn entries(&self) -> Map<u64, V> {
        self.store@
    }

    /// The keys from the least to the most recently used.
    pub closed spec fn order(&self) -> Seq<u64> {
        self.order@
    }

    /// The number of entries at which an insertion evicts.
    pub closed spec fn capacity(&self) -> usize {
        self.capacity
    }

    /// The invariant: `order` lists every key of the cache, each once.
    pub open spec fn wf(&self) -> bool {
        &&& self.order().no_duplicates()
        &&& forall|k: u64| self.entries().contains_key(k) <==> self.order().contains(k)
        &&& self.entries().dom().finite()
    }

    /// A well-formed cache has as many entries as `order` has keys.
    pub proof fn lemma_len(&self)
        requires
            self.wf(),
        ensures
            self.entries().dom().len() == self.order().len(),
    {
        self.order().unique_seq_to_set();
        assert(self.order().to_set() =~= self.entries().dom());
    }

    /// An empty cache of the given capacity.
    pub fn new(capacity: usize) -> (r: SimpleLruCache<V>)
        ensures
            r.wf(),
            r.entries() == Map::<u64, V>::empty(),
            r.order().len() == 0,
            r.capacity() == capacity,
    {
        SimpleLruCache { store: HashMap::new(), order: Vec::new(), capacity }
    }

    /// Stores `value` under `key` as the entry used most recently. A key that
    /// is cached already keeps its place in the cache and moves to the end of
    /// `order`. Otherwise, where the cache holds `capacity` entries, the entry
    /// used least recently, if there is one, is evicted first.
    pub fn insert(&mut self, key: u64, value: V)
        requires
            old(self).wf(),
        ensures
            final(self).wf(),
            final(self).capacity() == old(self).capacity(),
            old(self).entries().contains_key(key) ==> {
                &&& final(self).order() == without_key(old(self).order(), key).push(key)
                &&& final(self).entries() == old(self).entries().insert(key, value)
            },
            !old(self).entries().contains_key(key)
                && old(self).order().len() == old(self).capacity()
                && old(self).order().len() > 0 ==> {
                &&& final(self).order() == old(self).order().drop_first().push(key)
                &&& final(self).entries() == old(self).entries().remove(
                    old(self).order()[0],
                ).insert(key, value)
            },
            !old(self).entries().contains_key(key)
                && !(old(self).order().len() == old(self).capacity()
                && old(self).order().len() > 0) ==> {
                &&& final(self).order() == old(self).order().push(key)
                &&& final(self).entries() == old(self).entries().insert(key, value)
            },
    {
        proof {
            self.lemma_len();
        }
        if self.store.contains_key(&key) {
            drop_key(&mut self.order, key);
        } else if self.store.len() == self.capacity {
            if self.order.len() > 0 {
                let oldest: u64 = self.order[0];
                self.store.remove(&oldest);
                self.order.remove(0);
                proof {
                    let before: Seq<u64> = old(self).order();
                    assert(self.order() =~= before.drop_first());
                    lemma_drop_first(before);
                }
            }
        }
        proof {
            assert(!self.order().contains(key)) by {
                if !old(self).entries().contains_key(key) {
                    assert(!old(self).order().contains(key));
                }
            }
            assert forall|k: u64| k != key implies (self.entries().contains_key(k)
                <==> self.order().contains(k)) by {
                assert(old(self).entries().contains_key(k) <==> old(self).order().contains(k));
            }
        }
        let ghost mid: SimpleLruCache<V> = *self;
        self.order.push(key);
        self.store.insert(key, value);
        proof {
            lemma_push_fresh(mid.order(), key);
            assert forall|k: u64| self.entries().contains_key(k) <==> self.order().contains(
                k,
            ) by {
                if k != key {
                    assert(mid.entries().contains_key(k) <==> mid.order().contains(k));
                }
            }
        }
    }

    /// Looks `key` up. A key that is cached becomes the one used most
    /// recently; the entries stay as they are.
    pub fn get(&mut self, key: &u64) -> (r: Option<&V>)
        requires
            old(self).wf(),
        ensures
            final(self).wf(),
            final(self).capacity() == old(self).capacity(),
            final(self).entries() == old(self).entries(),
            r.is_some() <==> old(self).entries().contains_key(*key),
            r matches Some(v) ==> *v == old(self).entries()[*key] && final(self).order()
                == without_key(old(self).order(), *key).push(*key),
            r.is_none() ==> final(self).order() == old(self).order(),
    {
        if self.store.contains_key(key) {
            drop_key(&mut self.order, *key);
            let ghost mid_order: Seq<u64> = self.order();
            self.order.push(*key);
            proof {
                lemma_push_fresh(mid_order, *key);
                assert forall|k: u64| self.entries().contains_key(k) <==> self.order().contains(
                    k,
                ) by {
                    assert(old(self).entries().contains_key(k) <==> old(self).order().contains(k));
                    if k != *key {
                        assert(mid_order.contains(k) == old(self).order().contains(k));
                    }
                }
            }
        }
        self.store.get(key)
    }

    /// Number of entries.
    pub fn len(&self) -> (r: usize)
        requires
            self.wf(),
        ensures
            r == self.order().len(),
    {
        self.order.len()
    }

    /// The keys from the least to the most recently used.
    pub fn keys(&self) -> (r: Vec<u64>)
        ensures
            r@ == self.order(),
    {
        self.order.clone()
    }
}

} // verus!
